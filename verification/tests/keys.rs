use draft_kv::bytes_order::{bytes_before, bytes_equal};
use draft_kv::key::{InternalKey, LookUpKey};
use draft_kv::utils::{copy_bytes, copy_range, put_bytes, put_u64, to_u64, to_usize};

#[test]
fn to_u64_reads_little_endian() {
    assert_eq!(to_u64(&[]), 0);
    assert_eq!(to_u64(&[1]), 1);
    assert_eq!(to_u64(&[0, 1]), 256);
    assert_eq!(to_u64(&[0x78, 0x56, 0x34, 0x12]), 0x1234_5678);
    assert_eq!(to_u64(&[0xff; 8]), u64::MAX);
    assert_eq!(to_u64(&[1, 2, 3, 4, 5, 6, 7, 8]), 0x0807_0605_0403_0201);
}

#[test]
fn to_usize_reads_little_endian() {
    assert_eq!(to_usize(&[]), 0);
    assert_eq!(to_usize(&[0, 0, 1]), 65536);
    assert_eq!(to_usize(&[42, 0, 0, 0, 0, 0, 0, 0]), 42);
}

#[test]
fn put_u64_writes_eight_bytes() {
    let mut buf = vec![9u8];
    put_u64(&mut buf, 0x0102_0304_0506_0708);
    assert_eq!(buf, vec![9u8, 8, 7, 6, 5, 4, 3, 2, 1]);
    let mut buf = Vec::new();
    put_u64(&mut buf, 0);
    assert_eq!(buf, vec![0u8; 8]);
    let mut buf = Vec::new();
    put_u64(&mut buf, u64::MAX);
    assert_eq!(buf, vec![0xffu8; 8]);
}

#[test]
fn put_u64_then_to_u64_round_trip() {
    let samples: Vec<u64> = vec![0, 1, 255, 256, 65535, 1 << 32, (1 << 56) - 1, 1 << 56, u64::MAX - 1, u64::MAX];
    for x in samples {
        let mut buf = Vec::new();
        put_u64(&mut buf, x);
        assert_eq!(buf.len(), 8);
        assert_eq!(buf, x.to_le_bytes().to_vec());
        assert_eq!(to_u64(&buf), x);
    }
}

#[test]
fn byte_helpers_copy() {
    let mut buf = vec![1u8, 2];
    put_bytes(&mut buf, &[3, 4, 5]);
    assert_eq!(buf, vec![1u8, 2, 3, 4, 5]);
    assert_eq!(copy_range(&buf, 1, 4), vec![2u8, 3, 4]);
    assert_eq!(copy_range(&buf, 2, 2), Vec::<u8>::new());
    assert_eq!(copy_bytes(&buf), buf);
}

#[test]
fn bytes_order_is_lexicographic() {
    assert!(bytes_before(b"", b"a"));
    assert!(!bytes_before(b"", b""));
    assert!(!bytes_before(b"a", b""));
    assert!(bytes_before(b"a", b"b"));
    assert!(bytes_before(b"a", b"ab"));
    assert!(!bytes_before(b"ab", b"a"));
    assert!(bytes_before(b"ab", b"b"));
    assert!(!bytes_before(b"b", b"ab"));
    assert!(!bytes_before(b"abc", b"abc"));
    assert!(bytes_before(&[1, 255], &[2, 0]));
    assert!(bytes_equal(b"abc", b"abc"));
    assert!(!bytes_equal(b"abc", b"abd"));
    assert!(!bytes_equal(b"abc", b"ab"));
    assert!(bytes_equal(b"", b""));
}

#[test]
fn bytes_order_agrees_with_std() {
    let samples: Vec<&[u8]> = vec![b"", b"a", b"aa", b"ab", b"b", b"ba", &[0], &[0, 0], &[255], &[255, 0]];
    for a in &samples {
        for b in &samples {
            assert_eq!(bytes_before(a, b), a < b);
            assert_eq!(bytes_equal(a, b), a == b);
        }
    }
}

#[test]
fn internal_key_packs_sequence_number_and_type() {
    let key = InternalKey::new(b"k", 1, 0);
    assert_eq!(key.tail, 256);
    assert_eq!(key.get_seq_num(), 1);
    assert_eq!(key.get_type(), 0);
    let key = InternalKey::new(b"k", 0x1234, 3);
    assert_eq!(key.tail, 0x12_3403);
    assert_eq!(key.get_seq_num(), 0x1234);
    assert_eq!(key.get_type(), 3);
}

#[test]
fn internal_key_keeps_56_bits_of_the_sequence_number() {
    let key = InternalKey::new(b"k", (1u64 << 56) + 5, 2);
    assert_eq!(key.get_seq_num(), 5);
    assert_eq!(key.get_type(), 2);
    let key = InternalKey::new(b"k", u64::MAX, 255);
    assert_eq!(key.get_seq_num(), (1u64 << 56) - 1);
    assert_eq!(key.get_type(), 255);
    assert_eq!(key.tail, u64::MAX);
}

#[test]
fn internal_key_bytes() {
    let key = InternalKey::new(b"a", 1, 0);
    assert_eq!(key.encode_to(), vec![97u8, 0, 1, 0, 0, 0, 0, 0, 0]);
    let key = InternalKey::new(b"", 2, 1);
    assert_eq!(key.encode_to(), vec![1u8, 2, 0, 0, 0, 0, 0, 0]);
}

#[test]
fn internal_key_round_trip() {
    let key = InternalKey::new(b"apple", 7, 1);
    let bytes = key.encode_to();
    assert_eq!(bytes.len(), 5 + 8);
    let back = InternalKey::decode_from(&bytes);
    assert_eq!(back.user_key, b"apple".to_vec());
    assert_eq!(back.tail, key.tail);
    assert_eq!(back.get_type(), 1);
    assert_eq!(back.get_seq_num(), 7);
}

#[test]
fn internal_key_decodes_a_bare_tail() {
    let back = InternalKey::decode_from(&[3, 9, 0, 0, 0, 0, 0, 0]);
    assert_eq!(back.user_key, Vec::<u8>::new());
    assert_eq!(back.get_type(), 3);
    assert_eq!(back.get_seq_num(), 9);
}

#[test]
fn keys_sort_by_user_key_then_newest_first() {
    let a5 = InternalKey::new(b"a", 5, 0);
    let a9 = InternalKey::new(b"a", 9, 0);
    let b1 = InternalKey::new(b"b", 1, 0);
    assert!(a9.sorts_before(&a5));
    assert!(!a5.sorts_before(&a9));
    assert!(a5.sorts_before(&b1));
    assert!(a9.sorts_before(&b1));
    assert!(!b1.sorts_before(&a5));
    assert!(!a5.sorts_before(&a5));
    assert!(a5.sorts_at_or_before(&a5));
    assert!(a9.sorts_at_or_before(&a5));
    assert!(!a5.sorts_at_or_before(&a9));
}

#[test]
fn key_equality_ignores_the_operation_type() {
    let put = InternalKey::new(b"a", 5, 0);
    let del = InternalKey::new(b"a", 5, 1);
    let other = InternalKey::new(b"a", 6, 0);
    assert!(put.same_as(&del));
    assert!(!put.sorts_before(&del));
    assert!(!del.sorts_before(&put));
    assert!(!put.same_as(&other));
    assert!(!put.same_as(&InternalKey::new(b"b", 5, 0)));
}

#[test]
fn key_order_is_total() {
    let keys = vec![
        InternalKey::new(b"", 0, 0),
        InternalKey::new(b"", 3, 1),
        InternalKey::new(b"a", 1, 0),
        InternalKey::new(b"a", 2, 2),
        InternalKey::new(b"ab", 1, 0),
        InternalKey::new(b"b", 9, 3),
    ];
    for a in &keys {
        for b in &keys {
            let before = a.sorts_before(b);
            let after = b.sorts_before(a);
            let same = a.same_as(b);
            let count = [before, after, same].iter().filter(|x| **x).count();
            assert_eq!(count, 1);
            assert_eq!(a.sorts_at_or_before(b), before || same);
        }
    }
}

#[test]
fn look_up_key_frames_the_internal_key() {
    let key = LookUpKey::new(InternalKey::new(b"a", 1, 0));
    assert_eq!(key.key_len, 9);
    assert_eq!(
        key.encode_to(),
        vec![9u8, 0, 0, 0, 0, 0, 0, 0, 97, 0, 1, 0, 0, 0, 0, 0, 0]
    );
}

#[test]
fn look_up_key_round_trip() {
    let key = LookUpKey::new(InternalKey::new(b"pear", 300, 0));
    let bytes = key.encode_to();
    assert_eq!(bytes.len(), 8 + 4 + 8);
    let mut offset: u64 = 0;
    let back = LookUpKey::decode_from_bytes(&bytes, &mut offset).unwrap();
    assert_eq!(offset, 20);
    assert_eq!(back.key_len, 12);
    assert_eq!(back.get_user_key(), b"pear");
    assert_eq!(back.get_seq_num(), 300);
    assert_eq!(back.get_type(), 0);
}

#[test]
fn look_up_key_decodes_at_an_offset() {
    let mut bytes = vec![7u8, 7, 7];
    bytes.extend(LookUpKey::new(InternalKey::new(b"xy", 4, 1)).encode_to());
    bytes.extend(vec![1u8, 2, 3]);
    let mut offset: u64 = 3;
    let back = LookUpKey::decode_from_bytes(&bytes, &mut offset).unwrap();
    assert_eq!(offset, 3 + 8 + 2 + 8);
    assert_eq!(back.get_user_key(), b"xy");
    assert_eq!(back.get_seq_num(), 4);
    assert_eq!(back.get_type(), 1);
}

#[test]
fn look_up_key_rejects_bad_framing() {
    let good = LookUpKey::new(InternalKey::new(b"pear", 300, 0)).encode_to();
    // cut short
    for cut in 0..good.len() {
        let mut offset: u64 = 0;
        assert!(LookUpKey::decode_from_bytes(&good[..cut], &mut offset).is_none());
        assert_eq!(offset, 0);
    }
    // a length below that of a bare tail
    let mut short = vec![7u8, 0, 0, 0, 0, 0, 0, 0];
    short.extend(vec![0u8; 16]);
    let mut offset: u64 = 0;
    assert!(LookUpKey::decode_from_bytes(&short, &mut offset).is_none());
    // an offset behind the end
    let mut offset: u64 = 100;
    assert!(LookUpKey::decode_from_bytes(&good, &mut offset).is_none());
    assert_eq!(offset, 100);
    // a length that reaches far behind the end
    let mut huge = vec![0xffu8; 8];
    huge.extend(vec![0u8; 16]);
    let mut offset: u64 = 0;
    assert!(LookUpKey::decode_from_bytes(&huge, &mut offset).is_none());
}

#[test]
fn look_up_keys_sort_as_their_internal_keys() {
    let a5 = LookUpKey::new(InternalKey::new(b"a", 5, 0));
    let a9 = LookUpKey::new(InternalKey::new(b"a", 9, 1));
    let b1 = LookUpKey::new(InternalKey::new(b"b", 1, 0));
    assert!(a9.sorts_before(&a5));
    assert!(a5.sorts_before(&b1));
    assert!(!b1.sorts_before(&a9));
    assert!(a5.same_as(&a5.duplicate()));
    assert!(a5.sorts_at_or_before(&a5));
    assert!(!a5.same_as(&a9));
}

#[test]
fn keys_compare_with_the_operators() {
    let a5 = InternalKey::new(b"a", 5, 0);
    let a5_del = InternalKey::new(b"a", 5, 1);
    let a9 = InternalKey::new(b"a", 9, 0);
    let b1 = InternalKey::new(b"b", 1, 0);
    assert!(a5 == a5_del);
    assert!(a5 != a9);
    assert!(a9 < a5);
    assert!(a5 > a9);
    assert!(a5 < b1);
    assert!(a5 <= a5_del);
    assert!(a5 >= a5_del);
    assert!(!(a5 < a5_del));
    assert_eq!(a9.partial_cmp(&a5), Some(std::cmp::Ordering::Less));
    assert_eq!(a5.partial_cmp(&a5_del), Some(std::cmp::Ordering::Equal));
    assert_eq!(b1.partial_cmp(&a5), Some(std::cmp::Ordering::Greater));
    let la5 = LookUpKey::new(a5);
    let la9 = LookUpKey::new(a9);
    let lb1 = LookUpKey::new(b1);
    assert!(la9 < la5);
    assert!(la5 < lb1);
    assert!(la5 == LookUpKey::new(a5_del));
    assert!(la5 != la9);
}
