use draft_kv::lsm::{select_logs, Config, LsmDb};
use draft_kv::wal::{Log, LogEntry};
use std::collections::BTreeMap;

fn fresh() -> LsmDb {
    LsmDb::new(Vec::new(), Vec::new()).unwrap()
}

fn small() -> Config {
    Config {
        block_size: 64,
        l0_compaction_threshold: 2,
        l1_max_bytes: 400,
        max_levels: 4,
        write_buffer_size: 60,
    }
}

fn u64_to_bytes(i: u64) -> Vec<u8> {
    i.to_le_bytes().to_vec()
}

fn bytes_to_u64(bytes: Vec<u8>) -> u64 {
    let mut buf = [0u8; 8];
    buf.copy_from_slice(&bytes[..8]);
    u64::from_le_bytes(buf)
}

fn add_ten(v: Vec<u8>) -> Vec<u8> {
    u64_to_bytes(bytes_to_u64(v) + 10)
}

fn sub_ten(v: Vec<u8>) -> Vec<u8> {
    u64_to_bytes(bytes_to_u64(v) - 10)
}

/// What stands for the directory: the bytes of the logs and of the table files.
struct Disk {
    logs: BTreeMap<u64, Vec<u8>>,
    tables: BTreeMap<u64, Vec<u8>>,
}

fn sync(db: &mut LsmDb, disk: &mut Disk) {
    for (num, bytes) in db.take_log_output() {
        disk.logs.entry(num).or_insert_with(Vec::new).extend(bytes);
    }
}

fn work(db: &mut LsmDb, disk: &mut Disk) -> usize {
    work_and_watch(db, disk, &mut 0)
}

fn work_and_watch(db: &mut LsmDb, disk: &mut Disk, most_in_level_0: &mut usize) -> usize {
    let mut jobs = 0;
    while let Some((table, file_num)) = db.take_job() {
        let done = db.run_job(table, file_num);
        for t in &done.new_tables {
            disk.tables.insert(t.get_file_num(), t.get_data().to_vec());
        }
        db.finish_job(&done.deleted_tables, done.new_tables);
        for (_, num) in &done.deleted_tables {
            disk.tables.remove(num);
        }
        if let Some(num) = done.removed_log {
            disk.logs.remove(&num);
        }
        *most_in_level_0 = (*most_in_level_0).max(db.get_levels().count(0));
        jobs += 1;
    }
    jobs
}

fn reopen(disk: &Disk, config: Config) -> LsmDb {
    let nums: Vec<u64> = disk.logs.keys().cloned().collect();
    let logs = select_logs(&nums).into_iter().map(|n| (n, disk.logs[&n].clone())).collect();
    let tables = disk.tables.iter().map(|(n, b)| (*n, b.clone())).collect();
    LsmDb::with_config(config, logs, tables).unwrap()
}

#[test]
fn open_lsmdb() {
    let db = LsmDb::new(Vec::new(), Vec::new());
    assert!(db.is_some());
    let db = db.unwrap();
    assert_eq!(db.get_config().block_size, 4096);
    assert_eq!(db.get_config().max_levels, 7);
    assert_eq!(db.get_levels().depth(), 7);
    assert_eq!(db.search(b"A", None), None);
}

#[test]
fn the_default_sizes() {
    let config = Config::new();
    assert_eq!(config.block_size, 4 * 1024);
    assert_eq!(config.l0_compaction_threshold, 4);
    assert_eq!(config.l1_max_bytes, 64 * 1024 * 1024);
    assert_eq!(config.max_levels, 7);
    assert_eq!(config.write_buffer_size, 4 * 1024 * 1024);
}

#[test]
fn put_and_get() {
    let mut db = fresh();
    db.insert(b"A", b"3");
    db.insert(b"B", b"4");
    assert_eq!(db.search(b"A", None), Some(b"3".to_vec()));
    assert_eq!(db.search(b"B", None), Some(b"4".to_vec()));
    assert_eq!(db.search(b"C", None), None);
}

#[test]
fn delete_then_insert_again() {
    let mut db = fresh();
    db.insert(b"A", b"3");
    db.insert(b"B", b"4");
    db.delete(b"A");
    assert_eq!(db.search(b"A", None), None);
    assert_eq!(db.search(b"B", None), Some(b"4".to_vec()));
    db.insert(b"A", b"5");
    assert_eq!(db.search(b"A", None), Some(b"5".to_vec()));
    db.delete(b"B");
    db.delete(b"B");
    assert_eq!(db.search(b"B", None), None);
    db.insert(b"B", b"5");
    assert_eq!(db.search(b"B", None), Some(b"5".to_vec()));
}

#[test]
fn snapshot_reads() {
    let mut db = fresh();
    // the first write takes sequence number 1
    db.insert(b"K", b"v1");
    db.insert(b"other", b"x");
    db.insert(b"K", b"v2");
    db.delete(b"K");
    assert_eq!(db.search(b"K", Some(0)), None);
    assert_eq!(db.search(b"K", Some(1)), Some(b"v1".to_vec()));
    assert_eq!(db.search(b"K", Some(2)), Some(b"v1".to_vec()));
    assert_eq!(db.search(b"K", Some(3)), Some(b"v2".to_vec()));
    assert_eq!(db.search(b"K", Some(4)), None);
    assert_eq!(db.search(b"K", None), None);
    db.insert(b"K", b"v3");
    assert_eq!(db.search(b"K", Some(3)), Some(b"v2".to_vec()));
    assert_eq!(db.search(b"K", None), Some(b"v3".to_vec()));
}

#[test]
fn sequence_numbers_grow_with_every_write() {
    let mut db = fresh();
    db.insert(b"a", b"1");
    db.delete(b"a");
    let (_, s3) = db.tx_begin();
    db.insert(b"a", b"4");
    db.update(b"a", |mut v| {
        v.push(b'!');
        v
    });
    let (_, s6) = db.tx_begin();
    assert_eq!(s3, 3);
    assert_eq!(s6, 6);
    let mut log = Vec::new();
    for (num, bytes) in db.take_log_output() {
        assert_eq!(num, 0);
        log.extend(bytes);
    }
    let seqs: Vec<u64> = Log::read(&log).unwrap().iter().map(|e| e.seq_num).collect();
    assert_eq!(seqs, vec![1, 2, 4, 5]);
    assert_eq!(db.search(b"a", None), Some(b"4!".to_vec()));
    assert_eq!(db.search(b"a", Some(4)), Some(b"4".to_vec()));
}

#[test]
fn update_changes_what_is_there_and_nothing_else() {
    let mut db = fresh();
    db.update(b"n", add_ten);
    assert_eq!(db.search(b"n", None), None);
    assert_eq!(db.take_log_output().len(), 0);
    db.insert(b"n", &u64_to_bytes(1));
    db.update(b"n", add_ten);
    db.update(b"n", add_ten);
    assert_eq!(db.search(b"n", None), Some(u64_to_bytes(21)));
    db.delete(b"n");
    db.update(b"n", add_ten);
    assert_eq!(db.search(b"n", None), None);
}

#[test]
fn every_write_goes_to_the_log() {
    let mut db = fresh();
    db.insert(b"a", b"1");
    db.delete(b"b");
    let out = db.take_log_output();
    assert_eq!(
        out,
        vec![(0, LogEntry::new(0, b"a", b"1", 1).encode()), (0, LogEntry::new(1, b"b", b"", 2).encode())]
    );
    assert_eq!(db.take_log_output().len(), 0);
    assert_eq!(db.search(b"a", None), Some(b"1".to_vec()));
}

#[test]
fn a_committed_transaction_shows_all_its_writes() {
    let mut db = fresh();
    db.insert(b"a", b"old");
    db.insert(b"b", b"old");
    db.take_log_output();
    let (tx, seq) = db.tx_begin();
    assert_eq!((tx, seq), (1, 3));
    assert!(db.has_tx(tx));
    assert!(db.tx_insert(tx, seq, b"a", b"new"));
    assert!(db.tx_delete(tx, seq, b"b"));
    assert!(db.tx_insert(tx, seq, b"c", b"new"));
    assert_eq!(db.staged_count(tx), 3);
    // nothing shows before the commit
    assert_eq!(db.search(b"a", None), Some(b"old".to_vec()));
    assert_eq!(db.search(b"b", None), Some(b"old".to_vec()));
    assert_eq!(db.search(b"c", None), None);
    assert_eq!(db.take_log_output().len(), 0);
    // within the transaction the staged writes show
    assert_eq!(db.tx_search(tx, seq, b"a"), Some(b"new".to_vec()));
    assert_eq!(db.tx_search(tx, seq, b"b"), Some(Vec::new()));
    assert_eq!(db.tx_search(tx, seq, b"z"), None);
    db.tx_commit(tx);
    assert!(!db.has_tx(tx));
    assert_eq!(db.search(b"a", None), Some(b"new".to_vec()));
    assert_eq!(db.search(b"b", None), None);
    assert_eq!(db.search(b"c", None), Some(b"new".to_vec()));
    assert_eq!(db.search(b"a", Some(2)), Some(b"old".to_vec()));
    let mut want = LogEntry::new(4, b"", b"", 3).encode();
    want.extend(LogEntry::new(2, b"a", b"new", 3).encode());
    want.extend(LogEntry::new(3, b"b", b"", 3).encode());
    want.extend(LogEntry::new(2, b"c", b"new", 3).encode());
    want.extend(LogEntry::new(5, b"", b"", 3).encode());
    assert_eq!(db.take_log_output(), vec![(0, want)]);
}

#[test]
fn an_aborted_transaction_shows_nothing() {
    let mut db = fresh();
    db.insert(b"a", b"old");
    db.take_log_output();
    let (tx, seq) = db.tx_begin();
    assert!(db.tx_insert(tx, seq, b"a", b"new"));
    assert!(db.tx_insert(tx, seq, b"b", b"new"));
    db.tx_abort(tx);
    assert!(!db.has_tx(tx));
    assert_eq!(db.search(b"a", None), Some(b"old".to_vec()));
    assert_eq!(db.search(b"b", None), None);
    assert_eq!(db.take_log_output().len(), 0);
    // the right to write is free again
    let (next, seq) = db.tx_begin();
    assert!(db.tx_insert(next, seq, b"b", b"next"));
    db.tx_abort(99);
    assert!(db.has_tx(next));
}

#[test]
fn one_transaction_writes_at_a_time() {
    let mut db = fresh();
    let (one, s1) = db.tx_begin();
    let (two, s2) = db.tx_begin();
    assert!(db.tx_insert(one, s1, b"a", b"1"));
    assert!(!db.tx_insert(two, s2, b"a", b"2"));
    assert!(!db.tx_delete(two, s2, b"a"));
    assert!(!db.tx_update(two, s2, b"a", add_ten));
    assert!(!db.get_tx_write_lock(two));
    assert!(db.get_tx_write_lock(one));
    assert_eq!(db.staged_count(two), 0);
    db.free_tx_write_lock(two);
    assert!(!db.tx_insert(two, s2, b"a", b"2"));
    db.tx_commit(one);
    assert!(db.tx_insert(two, s2, b"a", b"2"));
    db.tx_commit(two);
    assert_eq!(db.search(b"a", Some(s1)), Some(b"1".to_vec()));
    assert_eq!(db.search(b"a", None), Some(b"2".to_vec()));
}

#[test]
fn a_write_staged_twice_counts_once() {
    let mut db = fresh();
    let (tx, seq) = db.tx_begin();
    assert!(db.tx_insert(tx, seq, b"a", b"1"));
    assert!(db.tx_insert(tx, seq, b"b", b"2"));
    assert!(db.tx_insert(tx, seq, b"a", b"3"));
    assert_eq!(db.staged_count(tx), 2);
    assert_eq!(db.tx_search(tx, seq, b"a"), Some(b"3".to_vec()));
    db.tx_commit(tx);
    assert_eq!(db.search(b"a", None), Some(b"3".to_vec()));
    let mut log = Vec::new();
    for (_, bytes) in db.take_log_output() {
        log.extend(bytes);
    }
    let kinds: Vec<(u8, Vec<u8>)> = Log::read(&log).unwrap().iter().map(|e| (e.entry_type, e.key.clone())).collect();
    assert_eq!(
        kinds,
        vec![(4, Vec::new()), (2, b"a".to_vec()), (2, b"b".to_vec()), (5, Vec::new())]
    );
}

#[test]
fn transactions_that_cancel_out_leave_the_values_as_they_were() {
    let mut db = fresh();
    db.insert(b"A", &u64_to_bytes(1));
    db.insert(b"B", &u64_to_bytes(1));
    // one that adds and takes away again
    let (tx, seq) = db.tx_begin();
    assert!(db.tx_update(tx, seq, b"A", add_ten));
    assert!(db.tx_update(tx, seq, b"B", add_ten));
    assert!(db.tx_update(tx, seq, b"A", sub_ten));
    assert!(db.tx_update(tx, seq, b"B", sub_ten));
    db.tx_commit(tx);
    assert_eq!(db.search(b"A", None), Some(u64_to_bytes(1)));
    assert_eq!(db.search(b"B", None), Some(u64_to_bytes(1)));
    // one that adds, and one that takes away
    let (tx, seq) = db.tx_begin();
    assert!(db.tx_update(tx, seq, b"A", add_ten));
    assert!(db.tx_update(tx, seq, b"B", add_ten));
    db.tx_commit(tx);
    assert_eq!(db.search(b"A", None), Some(u64_to_bytes(11)));
    let (tx, seq) = db.tx_begin();
    assert!(db.tx_update(tx, seq, b"A", sub_ten));
    assert!(db.tx_update(tx, seq, b"B", sub_ten));
    db.tx_commit(tx);
    assert_eq!(db.search(b"A", None), Some(u64_to_bytes(1)));
    assert_eq!(db.search(b"B", None), Some(u64_to_bytes(1)));
    // one that adds and is aborted
    let (tx, seq) = db.tx_begin();
    assert!(db.tx_update(tx, seq, b"A", add_ten));
    assert!(db.tx_update(tx, seq, b"B", add_ten));
    db.tx_abort(tx);
    assert_eq!(db.search(b"A", None), Some(u64_to_bytes(1)));
    assert_eq!(db.search(b"B", None), Some(u64_to_bytes(1)));
}

#[test]
fn a_counter_under_committed_and_aborted_transactions() {
    let mut db = fresh();
    db.insert(b"A", &u64_to_bytes(1));
    db.insert(b"B", &u64_to_bytes(1));
    let rounds = 20;
    for _ in 0..rounds {
        for commit in [true, true, false] {
            let (tx, seq) = db.tx_begin();
            if commit {
                assert!(db.tx_update(tx, seq, b"A", add_ten));
                assert!(db.tx_update(tx, seq, b"B", add_ten));
                db.tx_commit(tx);
            } else {
                assert!(db.tx_update(tx, seq, b"A", sub_ten));
                assert!(db.tx_update(tx, seq, b"B", sub_ten));
                db.tx_abort(tx);
            }
            let a = bytes_to_u64(db.search(b"A", None).unwrap());
            let b = bytes_to_u64(db.search(b"B", None).unwrap());
            assert_eq!(a, b);
        }
    }
    assert_eq!(db.search(b"A", None), Some(u64_to_bytes(1 + 10 * 2 * rounds)));
    assert_eq!(db.search(b"B", None), Some(u64_to_bytes(1 + 10 * 2 * rounds)));
}

#[test]
fn tx_update_stages_nothing_where_nothing_shows() {
    let mut db = fresh();
    let (tx, seq) = db.tx_begin();
    assert!(db.tx_update(tx, seq, b"absent", add_ten));
    assert_eq!(db.staged_count(tx), 0);
    // the transaction still took the right to write
    let (other, s) = db.tx_begin();
    assert!(!db.tx_insert(other, s, b"a", b"1"));
}

#[test]
fn the_two_largest_log_numbers_are_recovered_from() {
    assert_eq!(select_logs(&Vec::new()), Vec::<u64>::new());
    assert_eq!(select_logs(&vec![7]), vec![7]);
    assert_eq!(select_logs(&vec![3, 9]), vec![9, 3]);
    assert_eq!(select_logs(&vec![9, 3]), vec![9, 3]);
    assert_eq!(select_logs(&vec![2, 10, 9, 1]), vec![10, 9]);
    assert_eq!(select_logs(&vec![5, 5, 1]), vec![5, 5]);
    assert_eq!(select_logs(&vec![1, 2, 3, 4, 100, 99]), vec![100, 99]);
}

#[test]
fn a_full_in_memory_table_is_set_aside_and_written_out() {
    let mut disk = Disk { logs: BTreeMap::new(), tables: BTreeMap::new() };
    let mut db = LsmDb::with_config(small(), Vec::new(), Vec::new()).unwrap();
    // each write counts 8 + 4 + 20 = 32 bytes: the second fills the table
    db.insert(b"key1", &[b'a'; 20]);
    assert!(!db.has_immutable());
    assert_eq!(db.get_mem_size(), 32);
    db.insert(b"key2", &[b'b'; 20]);
    assert!(db.has_immutable());
    assert_eq!(db.get_mem_size(), 0);
    sync(&mut db, &mut disk);
    assert_eq!(disk.logs.keys().cloned().collect::<Vec<u64>>(), vec![0]);
    // nothing is handed on before the next write
    assert!(db.take_job().is_none());
    assert_eq!(db.search(b"key1", None), Some(vec![b'a'; 20]));
    db.insert(b"key3", &[b'c'; 20]);
    sync(&mut db, &mut disk);
    assert!(!db.has_immutable());
    assert_eq!(disk.logs.keys().cloned().collect::<Vec<u64>>(), vec![0, 1]);
    // the table that was handed on and not written out yet does not show
    assert_eq!(db.search(b"key1", None), None);
    assert_eq!(db.search(b"key3", None), Some(vec![b'c'; 20]));
    assert_eq!(work(&mut db, &mut disk), 2);
    assert_eq!(disk.logs.keys().cloned().collect::<Vec<u64>>(), vec![1]);
    assert_eq!(disk.tables.keys().cloned().collect::<Vec<u64>>(), vec![1]);
    assert_eq!(db.get_levels().count(0), 1);
    assert_eq!(db.search(b"key1", None), Some(vec![b'a'; 20]));
    assert_eq!(db.search(b"key2", None), Some(vec![b'b'; 20]));
    assert_eq!(db.search(b"key3", None), Some(vec![b'c'; 20]));
}

#[test]
fn everything_stays_readable_across_flushes_and_compactions() {
    let mut disk = Disk { logs: BTreeMap::new(), tables: BTreeMap::new() };
    let mut db = LsmDb::with_config(small(), Vec::new(), Vec::new()).unwrap();
    let mut want: BTreeMap<Vec<u8>, Option<Vec<u8>>> = BTreeMap::new();
    let mut most_in_level_0 = 0;
    for round in 0u64..40 {
        for i in 0u64..7 {
            let key = format!("key{:03}", (round * 13 + i * 29) % 97).into_bytes();
            if (round + i) % 5 == 0 {
                db.delete(&key);
                want.insert(key, None);
            } else {
                let value = format!("value-{}-{}", round, i).into_bytes();
                db.insert(&key, &value);
                want.insert(key, Some(value));
            }
            sync(&mut db, &mut disk);
            work_and_watch(&mut db, &mut disk, &mut most_in_level_0);
        }
        // once the work is done everything that was written is shown
        db.insert(b"zz-last", b"x");
        db.insert(b"zz-last", b"y");
        sync(&mut db, &mut disk);
        work(&mut db, &mut disk);
        if !db.has_immutable() {
            for (key, value) in &want {
                assert_eq!(&db.search(key, None), value);
            }
        }
    }
    // level 0 came to hold more than it may, and was compacted
    assert!(most_in_level_0 >= 3);
    assert!(db.get_levels().count(0) <= 2);
    assert!(db.get_levels().count(1) + db.get_levels().count(2) + db.get_levels().count(3) > 0);
    assert!(disk.logs.len() <= 2);
    // the tables of each deeper level keep apart in their user keys
    let levels = db.get_levels();
    for l in 1..levels.depth() {
        for i in 1..levels.count(l) {
            let before = levels.table(l, i - 1).get_max_key().get_user_key().to_vec();
            let here = levels.table(l, i).get_min_key().get_user_key().to_vec();
            assert!(before < here);
        }
    }
    // and the files are those of the tables
    let mut nums: Vec<u64> = Vec::new();
    for l in 0..levels.depth() {
        for i in 0..levels.count(l) {
            nums.push(levels.table(l, i).get_file_num());
        }
    }
    nums.sort();
    assert_eq!(nums, disk.tables.keys().cloned().collect::<Vec<u64>>());
}

#[test]
fn what_was_written_is_there_after_a_restart() {
    let mut disk = Disk { logs: BTreeMap::new(), tables: BTreeMap::new() };
    let mut db = fresh();
    let mut want: BTreeMap<Vec<u8>, Vec<u8>> = BTreeMap::new();
    for i in 0u64..100 {
        let key = format!("key{}", i).into_bytes();
        let value = format!("value{}", i * i).into_bytes();
        db.insert(&key, &value);
        want.insert(key, value);
    }
    db.insert(b"key7", b"again");
    want.insert(b"key7".to_vec(), b"again".to_vec());
    db.delete(b"key8");
    want.remove(&b"key8".to_vec());
    sync(&mut db, &mut disk);
    // the process is killed: only the files are left
    let mut back = reopen(&disk, Config::new());
    for (key, value) in &want {
        assert_eq!(back.search(key, None), Some(value.clone()));
    }
    assert_eq!(back.search(b"key8", None), None);
    // the next write is newer than all that was recovered
    back.insert(b"key9", b"newest");
    assert_eq!(back.search(b"key9", None), Some(b"newest".to_vec()));
    assert_eq!(back.search(b"key9", Some(102)), Some(b"value81".to_vec()));
    let out = back.take_log_output();
    assert_eq!(out, vec![(0, LogEntry::new(0, b"key9", b"newest", 103).encode())]);
}

#[test]
fn flushed_tables_and_logs_are_there_after_a_restart() {
    let mut disk = Disk { logs: BTreeMap::new(), tables: BTreeMap::new() };
    let mut db = LsmDb::with_config(small(), Vec::new(), Vec::new()).unwrap();
    let mut want: BTreeMap<Vec<u8>, Option<Vec<u8>>> = BTreeMap::new();
    for i in 0u64..60 {
        let key = format!("key{:02}", (i * 7) % 23).into_bytes();
        if i % 6 == 5 {
            db.delete(&key);
            want.insert(key, None);
        } else {
            let value = format!("value{}", i).into_bytes();
            db.insert(&key, &value);
            want.insert(key, Some(value));
        }
        sync(&mut db, &mut disk);
        if i % 4 == 0 {
            work(&mut db, &mut disk);
        }
    }
    work(&mut db, &mut disk);
    assert!(disk.tables.len() > 0);
    let back = reopen(&disk, small());
    for (key, value) in &want {
        assert_eq!(&back.search(key, None), value);
    }
    let mut nums: Vec<u64> = Vec::new();
    for l in 0..back.get_levels().depth() {
        for i in 0..back.get_levels().count(l) {
            nums.push(back.get_levels().table(l, i).get_file_num());
        }
    }
    nums.sort();
    assert_eq!(nums, disk.tables.keys().cloned().collect::<Vec<u64>>());
}

#[test]
fn a_restart_drops_transactions_that_were_not_committed() {
    let mut disk = Disk { logs: BTreeMap::new(), tables: BTreeMap::new() };
    let mut db = fresh();
    db.insert(b"a", b"old");
    let (tx, seq) = db.tx_begin();
    db.tx_insert(tx, seq, b"a", b"kept");
    db.tx_insert(tx, seq, b"b", b"kept");
    db.tx_commit(tx);
    let (tx, seq) = db.tx_begin();
    db.tx_insert(tx, seq, b"a", b"lost");
    db.tx_abort(tx);
    let (tx, seq) = db.tx_begin();
    db.tx_insert(tx, seq, b"b", b"open");
    sync(&mut db, &mut disk);
    // a crash in the middle of a commit leaves the begin and some writes
    let mut torn = LogEntry::new(4, b"", b"", 9).encode();
    torn.extend(LogEntry::new(2, b"a", b"torn", 9).encode());
    disk.logs.get_mut(&0).unwrap().extend(torn);
    let back = reopen(&disk, Config::new());
    assert_eq!(back.search(b"a", None), Some(b"kept".to_vec()));
    assert_eq!(back.search(b"b", None), Some(b"kept".to_vec()));
    assert_eq!(back.search(b"a", Some(1)), Some(b"old".to_vec()));
}

#[test]
fn opening_rejects_damaged_files() {
    let good = LogEntry::new(0, b"a", b"1", 1).encode();
    assert!(LsmDb::new(vec![(1, good.clone())], Vec::new()).is_some());
    assert!(LsmDb::new(vec![(1, good[..5].to_vec())], Vec::new()).is_none());
    assert!(LsmDb::new(vec![(2, good.clone()), (1, vec![9])], Vec::new()).is_none());
    assert!(LsmDb::new(vec![(1, LogEntry::new(5, b"", b"", 1).encode())], Vec::new()).is_none());
    assert!(LsmDb::new(Vec::new(), vec![(1, vec![0u8; 100])]).is_none());
    let mut mem = draft_kv::memtable::MemTable::new();
    mem.insert_inner(b"a", b"1", 1, false);
    let image = draft_kv::table::Table::new(3, mem.take(), 9, 4096).get_data().to_vec();
    // a table of a level that there is not
    assert!(LsmDb::new(Vec::new(), vec![(3, image.clone())]).is_none());
    let mut wide = Config::new();
    wide.max_levels = 10;
    assert!(LsmDb::with_config(wide, Vec::new(), vec![(3, image.clone())]).is_some());
    let mut wide = Config::new();
    wide.max_levels = 10;
    assert!(LsmDb::with_config(wide, Vec::new(), vec![(u64::MAX, image)]).is_none());
}

#[test]
fn two_logs_are_recovered_into_two_tables() {
    let mut newer = LogEntry::new(0, b"a", b"new", 5).encode();
    newer.extend(LogEntry::new(1, b"b", b"", 6).encode());
    let mut older = LogEntry::new(0, b"a", b"old", 1).encode();
    older.extend(LogEntry::new(0, b"b", b"old", 2).encode());
    older.extend(LogEntry::new(0, b"c", b"old", 9).encode());
    let mut db = LsmDb::new(vec![(4, newer), (3, older)], Vec::new()).unwrap();
    assert!(db.has_immutable());
    assert_eq!(db.search(b"a", None), Some(b"new".to_vec()));
    assert_eq!(db.search(b"b", None), None);
    assert_eq!(db.search(b"c", None), Some(b"old".to_vec()));
    assert_eq!(db.search(b"a", Some(4)), Some(b"old".to_vec()));
    // the next sequence number is behind the largest in both logs, the next log behind the newer
    db.insert(b"d", b"x");
    assert_eq!(db.take_log_output(), vec![(4, LogEntry::new(0, b"d", b"x", 10).encode())]);
    // the older table is handed on with the first write, and its log goes with it
    let (job, file_num) = db.take_job().unwrap();
    assert_eq!(file_num, 1);
    let done = db.run_job(job, file_num);
    assert_eq!(done.removed_log, Some(3));
    assert_eq!(done.new_tables.len(), 1);
}

#[test]
fn transactions_are_numbered_from_one() {
    let mut db = fresh();
    assert!(!db.has_tx(0));
    assert!(!db.has_tx(1));
    assert_eq!(db.tx_begin(), (1, 1));
    assert_eq!(db.tx_begin(), (2, 2));
    db.insert(b"a", b"1");
    assert_eq!(db.tx_begin(), (3, 4));
    assert!(db.has_tx(1));
    assert!(db.has_tx(3));
    assert_eq!(db.staged_count(2), 0);
}

#[test]
fn nothing_is_computed_where_no_job_was_taken() {
    let mut db = LsmDb::with_config(small(), Vec::new(), Vec::new()).unwrap();
    assert!(db.take_job().is_none());
    let done = db.run_job(None, 1);
    assert_eq!(done.deleted_tables.len(), 0);
    assert_eq!(done.new_tables.len(), 0);
    assert_eq!(done.removed_log, None);
    assert!(!db.finish_job(&done.deleted_tables, done.new_tables));
    assert!(db.take_job().is_none());
}

#[test]
fn the_step_behind_a_write_hands_on_or_sets_aside() {
    let mut db = LsmDb::with_config(small(), Vec::new(), Vec::new()).unwrap();
    db.may_compact_mem_table();
    assert!(!db.has_immutable());
    db.insert(b"key1", &[b'a'; 60]);
    // the table was full and is set aside
    assert!(db.has_immutable());
    assert_eq!(db.get_mem_size(), 0);
    db.may_compact_mem_table();
    // the table that was set aside is handed on; the empty one stays
    assert!(!db.has_immutable());
    let (job, file_num) = db.take_job().unwrap();
    assert!(job.is_some());
    assert_eq!(file_num, 1);
    // while the work is under way nothing else is handed on
    db.insert(b"key2", &[b'b'; 60]);
    assert!(db.has_immutable());
    db.insert(b"key3", &[b'c'; 60]);
    assert!(db.has_immutable());
    assert!(db.get_mem_size() > 60);
    assert!(db.take_job().is_none());
    let done = db.run_job(job, file_num);
    assert_eq!(done.removed_log, Some(0));
    // the job did something: a compaction is tried next
    assert!(db.finish_job(&done.deleted_tables, done.new_tables));
    let (job, file_num) = db.take_job().unwrap();
    assert!(job.is_none());
    assert_eq!(file_num, 2);
    let done = db.run_job(job, file_num);
    assert_eq!(done.new_tables.len(), 0);
    assert!(!db.finish_job(&done.deleted_tables, done.new_tables));
    assert_eq!(db.search(b"key1", None), Some(vec![b'a'; 60]));
    assert_eq!(db.search(b"key2", None), Some(vec![b'b'; 60]));
    assert_eq!(db.search(b"key3", None), Some(vec![b'c'; 60]));
}

#[test]
fn of_more_than_two_logs_the_first_two_are_taken() {
    let first = LogEntry::new(0, b"a", b"1", 3).encode();
    let second = LogEntry::new(0, b"b", b"2", 2).encode();
    let third = LogEntry::new(0, b"c", b"3", 1).encode();
    let db = LsmDb::new(vec![(9, first), (8, second), (7, third)], Vec::new()).unwrap();
    assert_eq!(db.search(b"a", None), Some(b"1".to_vec()));
    assert_eq!(db.search(b"b", None), Some(b"2".to_vec()));
    assert_eq!(db.search(b"c", None), None);
}
