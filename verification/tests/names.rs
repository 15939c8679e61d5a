use draft_kv::names::{decimal, log_file_name, parse_decimal, parse_file_name, table_file_name, FileKind};
use draft_kv::wal::Log;

#[test]
fn numbers_are_written_in_decimal() {
    assert_eq!(decimal(0), b"0".to_vec());
    assert_eq!(decimal(7), b"7".to_vec());
    assert_eq!(decimal(10), b"10".to_vec());
    assert_eq!(decimal(1234567890), b"1234567890".to_vec());
    assert_eq!(decimal(u64::MAX), b"18446744073709551615".to_vec());
    for n in [0u64, 1, 9, 10, 11, 99, 100, 101, 65535, 1 << 40] {
        assert_eq!(decimal(n), n.to_string().into_bytes());
    }
}

#[test]
fn decimal_numbers_are_read_back() {
    assert_eq!(parse_decimal(b"0"), Some(0));
    assert_eq!(parse_decimal(b"42"), Some(42));
    assert_eq!(parse_decimal(b"007"), Some(7));
    assert_eq!(parse_decimal(b"18446744073709551615"), Some(u64::MAX));
    assert_eq!(parse_decimal(b"18446744073709551616"), None);
    assert_eq!(parse_decimal(b"99999999999999999999"), None);
    assert_eq!(parse_decimal(b"184467440737095516150"), None);
    assert_eq!(parse_decimal(b""), None);
    assert_eq!(parse_decimal(b"12a"), None);
    assert_eq!(parse_decimal(b"+12"), None);
    assert_eq!(parse_decimal(b"-1"), None);
    assert_eq!(parse_decimal(b" 1"), None);
    for n in [0u64, 5, 10, 12345, u64::MAX - 1, u64::MAX] {
        assert_eq!(parse_decimal(&decimal(n)), Some(n));
    }
}

#[test]
fn file_names_tell_kind_and_number() {
    assert_eq!(log_file_name(0), b"0.LOG".to_vec());
    assert_eq!(log_file_name(12), b"12.LOG".to_vec());
    assert_eq!(table_file_name(7), b"7.sst".to_vec());
    assert_eq!(table_file_name(u64::MAX), b"18446744073709551615.sst".to_vec());
    assert_eq!(parse_file_name(b"12.LOG"), Some((FileKind::Log, 12)));
    assert_eq!(parse_file_name(b"7.sst"), Some((FileKind::Table, 7)));
    assert_eq!(parse_file_name(b"007.sst"), Some((FileKind::Table, 7)));
    for n in [0u64, 1, 10, 99, 1 << 50, u64::MAX] {
        assert_eq!(parse_file_name(&log_file_name(n)), Some((FileKind::Log, n)));
        assert_eq!(parse_file_name(&table_file_name(n)), Some((FileKind::Table, n)));
    }
}

#[test]
fn other_names_stand_for_no_file() {
    let others: Vec<&[u8]> = vec![
        b"",
        b".LOG",
        b".sst",
        b"12",
        b"12.log",
        b"12.SST",
        b"12.LOG.bak",
        b"a.LOG",
        b"1a.sst",
        b"12.LOGG",
        b"12-LOG",
        b"LOCK",
        b"18446744073709551616.LOG",
    ];
    for name in others {
        assert_eq!(parse_file_name(name), None);
    }
}

#[test]
fn a_log_knows_the_name_of_its_file() {
    assert_eq!(Log::open(31).get_path(), b"31.LOG".to_vec());
}
