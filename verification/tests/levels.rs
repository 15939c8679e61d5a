use draft_kv::compaction::{choose_inputs, find_seed, level_compactable, table_overlaps};
use draft_kv::key::{InternalKey, LookUpKey};
use draft_kv::levels::{drop_from_level, insert_table, listed, reversed, Levels};
use draft_kv::lsm::Config;
use draft_kv::memtable::MemTable;
use draft_kv::merge::{dedup_by_user_key, entry_before, merge_runs};
use draft_kv::table::Table;

fn pair(key: &[u8], seq_num: u64, op_type: u8, value: &[u8]) -> (LookUpKey, Vec<u8>) {
    (LookUpKey::new(InternalKey::new(key, seq_num, op_type)), value.to_vec())
}

fn plain(entries: &Vec<(LookUpKey, Vec<u8>)>) -> Vec<(Vec<u8>, u64, u8, Vec<u8>)> {
    entries
        .iter()
        .map(|(k, v)| (k.get_user_key().to_vec(), k.get_seq_num(), k.get_type(), v.clone()))
        .collect()
}

fn table(file_num: u64, level: usize, entries: Vec<(LookUpKey, Vec<u8>)>) -> Table {
    Table::new(file_num, entries, level, 64)
}

fn small() -> Config {
    Config {
        block_size: 64,
        l0_compaction_threshold: 2,
        l1_max_bytes: 400,
        max_levels: 4,
        write_buffer_size: 100,
    }
}

fn files(levels: &Levels) -> Vec<Vec<u64>> {
    (0..levels.depth())
        .map(|l| (0..levels.count(l)).map(|i| levels.table(l, i).get_file_num()).collect())
        .collect()
}

#[test]
fn merging_order_breaks_ties_by_value() {
    assert!(entry_before(&pair(b"a", 1, 0, b"x"), &pair(b"b", 1, 0, b"a")));
    assert!(entry_before(&pair(b"a", 2, 0, b"x"), &pair(b"a", 1, 0, b"a")));
    assert!(!entry_before(&pair(b"a", 1, 0, b"x"), &pair(b"a", 2, 0, b"a")));
    assert!(entry_before(&pair(b"a", 1, 0, b"a"), &pair(b"a", 1, 1, b"b")));
    assert!(!entry_before(&pair(b"a", 1, 0, b"b"), &pair(b"a", 1, 1, b"a")));
    assert!(!entry_before(&pair(b"a", 1, 0, b"a"), &pair(b"a", 1, 1, b"a")));
}

#[test]
fn dedup_keeps_the_first_entry_of_each_user_key() {
    let merged = vec![
        pair(b"a", 9, 1, b""),
        pair(b"a", 4, 0, b"old"),
        pair(b"a", 1, 0, b"older"),
        pair(b"b", 3, 0, b"b3"),
        pair(b"c", 8, 0, b"c8"),
        pair(b"c", 2, 1, b""),
    ];
    assert_eq!(
        plain(&dedup_by_user_key(&merged)),
        vec![
            (b"a".to_vec(), 9, 1, Vec::new()),
            (b"b".to_vec(), 3, 0, b"b3".to_vec()),
            (b"c".to_vec(), 8, 0, b"c8".to_vec()),
        ]
    );
    assert_eq!(dedup_by_user_key(&Vec::new()).len(), 0);
    // only neighbours count
    let apart = vec![pair(b"a", 1, 0, b"1"), pair(b"b", 1, 0, b"2"), pair(b"a", 1, 0, b"3")];
    assert_eq!(dedup_by_user_key(&apart).len(), 3);
}

#[test]
fn merge_runs_merges_and_keeps_the_newest_versions() {
    let runs = vec![
        vec![pair(b"a", 2, 0, b"a2"), pair(b"c", 5, 0, b"c5"), pair(b"e", 1, 0, b"e1")],
        vec![pair(b"a", 7, 1, b""), pair(b"b", 3, 0, b"b3"), pair(b"c", 4, 0, b"c4")],
        vec![pair(b"d", 6, 2, b"d6")],
        vec![],
    ];
    assert_eq!(
        plain(&merge_runs(runs)),
        vec![
            (b"a".to_vec(), 7, 1, Vec::new()),
            (b"b".to_vec(), 3, 0, b"b3".to_vec()),
            (b"c".to_vec(), 5, 0, b"c5".to_vec()),
            (b"d".to_vec(), 6, 2, b"d6".to_vec()),
            (b"e".to_vec(), 1, 0, b"e1".to_vec()),
        ]
    );
    assert_eq!(merge_runs(Vec::new()).len(), 0);
}

#[test]
fn reversed_turns_a_list_round() {
    assert_eq!(reversed(vec![1, 2, 3]), vec![3, 2, 1]);
    assert_eq!(reversed(Vec::<u8>::new()), Vec::<u8>::new());
}

#[test]
fn listed_looks_for_level_and_file_number() {
    let deleted = vec![(0usize, 5u64), (1, 7)];
    assert!(listed(&deleted, 0, 5));
    assert!(listed(&deleted, 1, 7));
    assert!(!listed(&deleted, 1, 5));
    assert!(!listed(&deleted, 0, 7));
    assert!(!listed(&Vec::new(), 0, 5));
}

#[test]
fn level_0_keeps_the_newest_table_first() {
    let mut level: Vec<Table> = Vec::new();
    insert_table(&mut level, table(1, 0, vec![pair(b"m", 5, 0, b"")]), 0);
    insert_table(&mut level, table(2, 0, vec![pair(b"a", 9, 0, b"")]), 0);
    insert_table(&mut level, table(3, 0, vec![pair(b"z", 7, 0, b"")]), 0);
    insert_table(&mut level, table(4, 0, vec![pair(b"q", 1, 0, b"")]), 0);
    let order: Vec<u64> = level.iter().map(|t| t.get_file_num()).collect();
    assert_eq!(order, vec![2, 3, 1, 4]);
    // a table with the same last sequence number is not taken
    insert_table(&mut level, table(5, 0, vec![pair(b"b", 7, 0, b"")]), 0);
    let order: Vec<u64> = level.iter().map(|t| t.get_file_num()).collect();
    assert_eq!(order, vec![2, 3, 1, 4]);
}

#[test]
fn deeper_levels_keep_the_smallest_key_first() {
    let mut level: Vec<Table> = Vec::new();
    insert_table(&mut level, table(1, 1, vec![pair(b"m", 5, 0, b"")]), 1);
    insert_table(&mut level, table(2, 1, vec![pair(b"a", 9, 0, b"")]), 1);
    insert_table(&mut level, table(3, 1, vec![pair(b"z", 7, 0, b"")]), 1);
    insert_table(&mut level, table(4, 1, vec![pair(b"m", 8, 0, b"")]), 1);
    let order: Vec<u64> = level.iter().map(|t| t.get_file_num()).collect();
    assert_eq!(order, vec![2, 4, 1, 3]);
    insert_table(&mut level, table(5, 1, vec![pair(b"m", 5, 1, b""), pair(b"n", 1, 0, b"")]), 1);
    let order: Vec<u64> = level.iter().map(|t| t.get_file_num()).collect();
    assert_eq!(order, vec![2, 4, 1, 3]);
    drop_from_level(&mut level, 1, &vec![(1, 4), (0, 1), (1, 3), (1, 99)]);
    let order: Vec<u64> = level.iter().map(|t| t.get_file_num()).collect();
    assert_eq!(order, vec![2, 1]);
}

#[test]
fn new_levels_sort_the_tables_into_their_levels() {
    let tables = vec![
        table(3, 1, vec![pair(b"k", 1, 0, b"")]),
        table(9, 0, vec![pair(b"a", 4, 0, b"")]),
        table(4, 2, vec![pair(b"a", 1, 0, b"")]),
        table(6, 1, vec![pair(b"c", 2, 0, b"")]),
        table(2, 0, vec![pair(b"z", 8, 0, b"")]),
    ];
    let mut levels = Levels::new(tables, &small());
    assert_eq!(levels.depth(), 4);
    assert_eq!(files(&levels), vec![vec![2, 9], vec![6, 3], vec![4], vec![]]);
    assert_eq!(levels.get_block_size(), 64);
    assert_eq!(levels.get_l0_threshold(), 2);
    assert_eq!(levels.get_l1_max_bytes(), 400);
    assert_eq!(levels.take_file_num(), 10);
    assert_eq!(levels.take_file_num(), 11);
    let mut none = Levels::new(Vec::new(), &Config::new());
    assert_eq!(none.depth(), 7);
    assert_eq!(none.take_file_num(), 1);
}

#[test]
fn search_goes_through_the_levels_from_the_top() {
    let tables = vec![
        table(1, 0, vec![pair(b"a", 9, 0, b"a9"), pair(b"c", 8, 1, b"")]),
        table(2, 0, vec![pair(b"a", 5, 0, b"a5"), pair(b"b", 6, 0, b"b6"), pair(b"c", 4, 0, b"c4")]),
        table(3, 1, vec![pair(b"a", 1, 0, b"a1"), pair(b"b", 2, 0, b"b2")]),
        table(4, 1, vec![pair(b"d", 3, 0, b"d3"), pair(b"f", 3, 0, b"f3")]),
        table(5, 2, vec![pair(b"e", 1, 0, b"e1")]),
    ];
    let levels = Levels::new(tables, &small());
    assert_eq!(levels.search(b"a", 100), Some(b"a9".to_vec()));
    assert_eq!(levels.search(b"a", 8), Some(b"a5".to_vec()));
    assert_eq!(levels.search(b"a", 4), Some(b"a1".to_vec()));
    assert_eq!(levels.search(b"a", 0), None);
    assert_eq!(levels.search(b"b", 100), Some(b"b6".to_vec()));
    assert_eq!(levels.search(b"b", 5), Some(b"b2".to_vec()));
    assert_eq!(levels.search(b"c", 100), None);
    assert_eq!(levels.search(b"c", 7), Some(b"c4".to_vec()));
    assert_eq!(levels.search(b"d", 100), Some(b"d3".to_vec()));
    // the one table of level 1 that brackets the key answers for the level
    assert_eq!(levels.search(b"e", 100), Some(b"e1".to_vec()));
    assert_eq!(levels.search(b"f", 100), Some(b"f3".to_vec()));
    assert_eq!(levels.search(b"g", 100), None);
    assert_eq!(levels.search(b"", 100), None);
}

#[test]
fn search_finds_the_smallest_key_of_a_table_at_later_snapshots() {
    let levels = Levels::new(vec![table(1, 0, vec![pair(b"k", 1, 0, b"v")])], &small());
    assert_eq!(levels.search(b"k", 1), Some(b"v".to_vec()));
    assert_eq!(levels.search(b"k", 50), Some(b"v".to_vec()));
    assert_eq!(levels.search(b"k", 0), None);
    let levels = Levels::new(vec![table(1, 1, vec![pair(b"k", 1, 0, b"v")])], &small());
    assert_eq!(levels.search(b"k", 50), Some(b"v".to_vec()));
}

#[test]
fn update_drops_and_puts_tables() {
    let tables = vec![
        table(1, 0, vec![pair(b"a", 9, 0, b"a9")]),
        table(2, 0, vec![pair(b"a", 5, 0, b"a5")]),
        table(3, 1, vec![pair(b"a", 1, 0, b"a1")]),
    ];
    let mut levels = Levels::new(tables, &small());
    levels.update(
        &vec![(0, 2), (1, 3), (2, 1), (7, 7)],
        vec![table(4, 1, vec![pair(b"a", 5, 0, b"a5")]), table(5, 2, vec![pair(b"b", 1, 0, b"b1")])],
    );
    assert_eq!(files(&levels), vec![vec![1], vec![4], vec![5], vec![]]);
    assert_eq!(levels.search(b"a", 8), Some(b"a5".to_vec()));
    assert_eq!(levels.search(b"a", 4), None);
    assert_eq!(levels.search(b"b", 4), Some(b"b1".to_vec()));
    levels.update(&Vec::new(), Vec::new());
    assert_eq!(files(&levels), vec![vec![1], vec![4], vec![5], vec![]]);
}

#[test]
fn input_starts_go_round_the_levels() {
    let tables = vec![
        table(1, 0, vec![pair(b"x", 9, 0, b"")]),
        table(2, 0, vec![pair(b"a", 5, 0, b""), pair(b"b", 5, 0, b"")]),
        table(3, 1, vec![pair(b"a", 1, 0, b""), pair(b"c", 1, 0, b"")]),
        table(4, 1, vec![pair(b"d", 1, 0, b""), pair(b"f", 1, 0, b"")]),
        table(5, 1, vec![pair(b"g", 1, 0, b""), pair(b"i", 1, 0, b"")]),
    ];
    let levels = Levels::new(tables, &small());
    let range = |s: &Option<(LookUpKey, LookUpKey)>| {
        s.as_ref().map(|(a, b)| (a.get_user_key().to_vec(), b.get_user_key().to_vec()))
    };
    let first = levels.get_input_start(&Vec::new());
    assert_eq!(first.len(), 4);
    assert_eq!(range(&first[0]), Some((b"a".to_vec(), b"b".to_vec())));
    assert_eq!(range(&first[1]), Some((b"a".to_vec(), b"c".to_vec())));
    assert_eq!(range(&first[2]), None);
    assert_eq!(range(&first[3]), None);
    let second = levels.get_input_start(&first);
    assert_eq!(range(&second[0]), Some((b"a".to_vec(), b"b".to_vec())));
    assert_eq!(range(&second[1]), Some((b"d".to_vec(), b"f".to_vec())));
    let third = levels.get_input_start(&second);
    assert_eq!(range(&third[1]), Some((b"g".to_vec(), b"i".to_vec())));
    let fourth = levels.get_input_start(&third);
    assert_eq!(range(&fourth[1]), Some((b"a".to_vec(), b"c".to_vec())));
}

#[test]
fn a_level_is_compactable_once_it_holds_too_much() {
    let two = vec![
        table(1, 0, vec![pair(b"a", 9, 0, b"")]),
        table(2, 0, vec![pair(b"a", 5, 0, b"")]),
        table(3, 1, vec![pair(b"a", 1, 0, b"")]),
    ];
    let levels = Levels::new(two, &small());
    assert!(!level_compactable(&levels, 0));
    assert!(!level_compactable(&levels, 1));
    assert!(!level_compactable(&levels, 2));
    let big = vec![0x55u8; 400];
    let three = vec![
        table(1, 0, vec![pair(b"a", 9, 0, b"")]),
        table(2, 0, vec![pair(b"a", 5, 0, b"")]),
        table(3, 0, vec![pair(b"a", 4, 0, b"")]),
        table(4, 1, vec![pair(b"a", 1, 0, &big)]),
        table(5, 2, vec![pair(b"a", 0, 0, &big)]),
    ];
    let levels = Levels::new(three, &small());
    assert!(level_compactable(&levels, 0));
    assert!(level_compactable(&levels, 1));
    assert!(!level_compactable(&levels, 2));
    let mut wide = small();
    wide.l1_max_bytes = u64::MAX;
    wide.max_levels = 40;
    let deep = vec![table(1, 39, vec![pair(b"a", 9, 0, b"")]), table(2, 1, vec![pair(b"a", 9, 0, b"")])];
    let levels = Levels::new(deep, &wide);
    assert!(!level_compactable(&levels, 39));
    assert!(!level_compactable(&levels, 1));
    let mut none = small();
    none.l1_max_bytes = 0;
    let levels = Levels::new(vec![table(1, 3, vec![pair(b"a", 9, 0, b"")])], &none);
    assert!(level_compactable(&levels, 3));
    assert!(!level_compactable(&levels, 2));
}

#[test]
fn overlap_is_taken_in_user_keys() {
    let t = table(1, 1, vec![pair(b"c", 9, 0, b""), pair(b"f", 1, 0, b"")]);
    assert!(table_overlaps(&t, b"a", b"c"));
    assert!(table_overlaps(&t, b"f", b"z"));
    assert!(table_overlaps(&t, b"d", b"e"));
    assert!(table_overlaps(&t, b"a", b"z"));
    assert!(!table_overlaps(&t, b"a", b"b"));
    assert!(!table_overlaps(&t, b"g", b"z"));
}

#[test]
fn a_compaction_takes_in_what_overlaps() {
    let tables = vec![
        table(1, 0, vec![pair(b"x", 9, 0, b"")]),
        table(2, 0, vec![pair(b"c", 8, 0, b""), pair(b"e", 8, 0, b"")]),
        table(3, 0, vec![pair(b"d", 5, 0, b""), pair(b"g", 5, 0, b"")]),
        table(4, 1, vec![pair(b"a", 1, 0, b""), pair(b"b", 1, 0, b"")]),
        table(5, 1, vec![pair(b"f", 1, 0, b""), pair(b"h", 1, 0, b"")]),
        table(6, 1, vec![pair(b"i", 1, 0, b""), pair(b"k", 1, 0, b"")]),
    ];
    let levels = Levels::new(tables, &small());
    let starts = levels.get_input_start(&Vec::new());
    assert_eq!(find_seed(&levels, 0, &starts[0]), Some(2));
    assert_eq!(find_seed(&levels, 1, &starts[1]), Some(0));
    assert_eq!(find_seed(&levels, 2, &starts[2]), None);
    assert_eq!(find_seed(&levels, 0, &None), None);
    // from the table d..g: f..h below overlaps, then c..e beside overlaps d..h
    let mut picked = choose_inputs(&levels, 0, 2);
    assert_eq!(picked[0], (0, 2));
    picked.sort();
    assert_eq!(picked, vec![(0, 1), (0, 2), (1, 1)]);
    // from the table x..x nothing overlaps
    assert_eq!(choose_inputs(&levels, 0, 0), vec![(0, 0)]);
    // from a..b in level 1 nothing of level 2 overlaps
    assert_eq!(choose_inputs(&levels, 1, 0), vec![(1, 0)]);
}

#[test]
fn the_range_grows_as_tables_are_taken_in() {
    let tables = vec![
        table(1, 1, vec![pair(b"a", 1, 0, b""), pair(b"c", 1, 0, b"")]),
        table(2, 1, vec![pair(b"d", 1, 0, b""), pair(b"f", 1, 0, b"")]),
        table(3, 1, vec![pair(b"g", 1, 0, b""), pair(b"i", 1, 0, b"")]),
        table(4, 1, vec![pair(b"k", 1, 0, b""), pair(b"m", 1, 0, b"")]),
        table(5, 2, vec![pair(b"c", 0, 0, b""), pair(b"d", 0, 0, b"")]),
        table(6, 2, vec![pair(b"f", 0, 0, b""), pair(b"g", 0, 0, b"")]),
        table(7, 2, vec![pair(b"j", 0, 0, b""), pair(b"j", 0, 1, b"")]),
    ];
    let levels = Levels::new(tables, &small());
    let mut picked = choose_inputs(&levels, 1, 0);
    picked.sort();
    assert_eq!(picked, vec![(1, 0), (1, 1), (1, 2), (2, 0), (2, 1)]);
    let mut picked = choose_inputs(&levels, 1, 3);
    picked.sort();
    assert_eq!(picked, vec![(1, 3)]);
}

#[test]
fn a_table_that_nothing_overlaps_moves_down_as_it_is() {
    let tables = vec![
        table(1, 0, vec![pair(b"x", 9, 0, b"x9")]),
        table(2, 0, vec![pair(b"m", 8, 0, b"m8")]),
        table(3, 0, vec![pair(b"a", 5, 1, b""), pair(b"a", 3, 0, b"a3")]),
        table(4, 1, vec![pair(b"c", 1, 0, b"c1")]),
    ];
    let mut levels = Levels::new(tables, &small());
    let starts = levels.get_input_start(&Vec::new());
    let file_num = levels.take_file_num();
    assert_eq!(file_num, 5);
    let done = levels.background_compaction(None, &starts, file_num);
    assert_eq!(done.deleted_tables, vec![(0, 3)]);
    assert_eq!(done.inputs, vec![(0, 2)]);
    assert_eq!(done.removed_log, None);
    assert_eq!(done.new_tables.len(), 1);
    assert_eq!(done.new_tables[0].get_level(), 1);
    assert_eq!(done.new_tables[0].get_file_num(), 5);
    assert_eq!(
        plain(&done.new_tables[0].content()),
        vec![(b"a".to_vec(), 5, 1, Vec::new()), (b"a".to_vec(), 3, 0, b"a3".to_vec())]
    );
    levels.update(&done.deleted_tables, done.new_tables);
    assert_eq!(files(&levels), vec![vec![1, 2], vec![5, 4], vec![], vec![]]);
    assert_eq!(levels.search(b"a", 4), Some(b"a3".to_vec()));
    assert_eq!(levels.search(b"a", 9), None);
}

#[test]
fn a_compaction_merges_what_it_takes_in() {
    let tables = vec![
        table(1, 0, vec![pair(b"b", 9, 1, b""), pair(b"x", 9, 0, b"x9")]),
        table(2, 0, vec![pair(b"a", 8, 0, b"a8"), pair(b"c", 8, 0, b"c8")]),
        table(3, 0, vec![pair(b"a", 5, 0, b"a5"), pair(b"b", 5, 0, b"b5")]),
        table(4, 1, vec![pair(b"a", 1, 0, b"a1"), pair(b"b", 1, 0, b"b1")]),
        table(5, 1, vec![pair(b"c", 1, 0, b"c1"), pair(b"d", 1, 0, b"d1")]),
        table(6, 1, vec![pair(b"y", 1, 0, b"y1")]),
    ];
    let mut levels = Levels::new(tables, &small());
    let starts = levels.get_input_start(&Vec::new());
    let done = levels.background_compaction(None, &starts, 7);
    let mut deleted = done.deleted_tables.clone();
    assert_eq!(deleted[0], (0, 3));
    deleted.sort();
    // the table y..y lies behind the range a..x of what was taken in
    assert_eq!(deleted, vec![(0, 1), (0, 2), (0, 3), (1, 4), (1, 5)]);
    assert_eq!(done.new_tables.len(), 1);
    assert_eq!(done.new_tables[0].get_level(), 1);
    assert_eq!(
        plain(&done.new_tables[0].content()),
        vec![
            (b"a".to_vec(), 8, 0, b"a8".to_vec()),
            (b"b".to_vec(), 9, 1, Vec::new()),
            (b"c".to_vec(), 8, 0, b"c8".to_vec()),
            (b"d".to_vec(), 1, 0, b"d1".to_vec()),
            (b"x".to_vec(), 9, 0, b"x9".to_vec()),
        ]
    );
    levels.update(&done.deleted_tables, done.new_tables);
    assert_eq!(files(&levels), vec![vec![], vec![7, 6], vec![], vec![]]);
    assert_eq!(levels.search(b"y", 100), Some(b"y1".to_vec()));
    assert_eq!(levels.search(b"a", 100), Some(b"a8".to_vec()));
    assert_eq!(levels.search(b"b", 100), None);
    assert_eq!(levels.search(b"d", 100), Some(b"d1".to_vec()));
}

#[test]
fn nothing_is_compacted_where_no_level_holds_too_much() {
    let tables = vec![
        table(1, 0, vec![pair(b"a", 9, 0, b"")]),
        table(2, 0, vec![pair(b"a", 5, 0, b"")]),
        table(3, 3, vec![pair(b"a", 1, 0, &vec![7u8; 100_000])]),
    ];
    let levels = Levels::new(tables, &small());
    let starts = levels.get_input_start(&Vec::new());
    let done = levels.background_compaction(None, &starts, 4);
    assert_eq!(done.deleted_tables.len(), 0);
    assert_eq!(done.new_tables.len(), 0);
    assert_eq!(done.inputs.len(), 0);
    let done = levels.major_compaction(&starts, 4);
    assert_eq!(done.deleted_tables.len(), 0);
    assert_eq!(done.new_tables.len(), 0);
}

#[test]
fn a_deeper_level_is_compacted_where_level_0_is_not() {
    let big = vec![0x55u8; 300];
    let tables = vec![
        table(1, 0, vec![pair(b"a", 9, 0, b"")]),
        table(2, 1, vec![pair(b"a", 5, 0, &big), pair(b"b", 5, 0, &big)]),
        table(3, 1, vec![pair(b"c", 5, 0, &big)]),
        table(4, 2, vec![pair(b"b", 1, 0, b"b1"), pair(b"c", 1, 0, b"c1")]),
    ];
    let levels = Levels::new(tables, &small());
    let starts = levels.get_input_start(&Vec::new());
    let done = levels.background_compaction(None, &starts, 5);
    let mut deleted = done.deleted_tables.clone();
    deleted.sort();
    assert_eq!(deleted, vec![(1, 2), (1, 3), (2, 4)]);
    assert_eq!(
        plain(&done.new_tables[0].content()),
        vec![
            (b"a".to_vec(), 5, 0, big.clone()),
            (b"b".to_vec(), 5, 0, big.clone()),
            (b"c".to_vec(), 5, 0, big.clone()),
        ]
    );
    assert_eq!(done.new_tables[0].get_level(), 2);
}

#[test]
fn writing_out_an_in_memory_table_makes_a_table_of_level_0() {
    let levels = Levels::new(Vec::new(), &small());
    let mut mem = MemTable::new();
    mem.set_writer(12);
    mem.insert(b"b", b"b1", 1, false);
    mem.insert(b"a", b"a2", 2, false);
    mem.delete(b"b", 3, false);
    let done = levels.background_compaction(Some(mem), &Vec::new(), 20);
    assert_eq!(done.deleted_tables.len(), 0);
    assert_eq!(done.removed_log, Some(12));
    assert_eq!(done.new_tables.len(), 1);
    let t = &done.new_tables[0];
    assert_eq!(t.get_level(), 0);
    assert_eq!(t.get_file_num(), 20);
    assert_eq!(t.get_last_seq_num(), 3);
    assert_eq!(
        plain(&t.content()),
        vec![
            (b"a".to_vec(), 2, 0, b"a2".to_vec()),
            (b"b".to_vec(), 3, 1, Vec::new()),
            (b"b".to_vec(), 1, 0, b"b1".to_vec()),
        ]
    );
    let none = levels.background_compaction(Some(MemTable::new()), &Vec::new(), 21);
    assert_eq!(none.new_tables.len(), 0);
    assert_eq!(none.removed_log, None);
    let (t, log) = levels.write_level0_files(MemTable::new(), 22);
    assert!(t.is_none());
    assert_eq!(log, None);
}

#[test]
fn write_file_builds_a_table_of_the_level() {
    let levels = Levels::new(Vec::new(), &small());
    let t = levels.write_file(vec![pair(b"a", 1, 0, b"1"), pair(b"b", 2, 0, b"2")], 3, 8);
    assert_eq!(t.get_level(), 3);
    assert_eq!(t.get_file_num(), 8);
    assert_eq!(t.get_last_seq_num(), 2);
    assert_eq!(t.search(b"b", 2), Some(Some(b"2".to_vec())));
}
