//! Internal keys and look-up keys: their bytes and their order.
//!
//! An internal key is a user key followed by a 64-bit tail that packs a
//! sequence number (the high 56 bits) and an operation type (the low byte).
//! Keys sort by user key ascending, then by sequence number descending, so
//! that the newest version of a user key comes first. The operation type
//! takes no part in the order.

use vstd::prelude::*;
use crate::bytes_order::{bytes_lt, bytes_before, bytes_equal};
use crate::bytes_order::{lemma_bytes_lt_asymmetric, lemma_bytes_lt_transitive, lemma_bytes_lt_total, lemma_bytes_lt_irreflexive};
use crate::utils::{le_bytes, le_value, put_bytes, put_u64, to_u64, copy_range, copy_bytes};
use crate::utils::{lemma_le_bytes_len, lemma_le_value_of_bytes, lemma_le_value_bound, lemma_pow256_8};

verus! {

/// Operation type of a plain put.
pub const OP_PUT: u8 = 0;

/// Operation type of a plain delete.
pub const OP_DELETE: u8 = 1;

/// Operation type of a put made by a transaction.
pub const OP_TX_PUT: u8 = 2;

/// Operation type of a delete made by a transaction.
pub const OP_TX_DELETE: u8 = 3;

/// The tail that packs a sequence number and an operation type. Only the low
/// 56 bits of the sequence number fit.
pub open spec fn tail_of(seq_num: u64, op_type: u8) -> u64 {
    ((seq_num % 0x100_0000_0000_0000) * 256 + op_type) as u64
}

/// What an internal key stands for.
pub struct KeyView {
    pub user_key: Seq<u8>,
    pub tail: u64,
}

impl KeyView {
    /// The sequence number: the high 56 bits of the tail.
    pub open spec fn seq_num(self) -> nat {
        (self.tail / 256) as nat
    }

    /// The operation type: the low byte of the tail.
    pub open spec fn op_type(self) -> nat {
        (self.tail % 256) as nat
    }

    /// The key's bytes: the user key, then the tail in little-endian order.
    pub open spec fn encoding(self) -> Seq<u8> {
        self.user_key + le_bytes(self.tail as nat, 8)
    }

    /// The key that a byte string of at least eight bytes spells.
    pub open spec fn decoding(bytes: Seq<u8>) -> KeyView {
        KeyView {
            user_key: bytes.subrange(0, bytes.len() - 8),
            tail: le_value(bytes.subrange(bytes.len() - 8, bytes.len() as int)) as u64,
        }
    }

    /// Equality of keys: same user key and same sequence number.
    pub open spec fn same(self, other: KeyView) -> bool {
        self.user_key == other.user_key && self.seq_num() == other.seq_num()
    }

    /// `self` sorts strictly before `other`.
    pub open spec fn lt(self, other: KeyView) -> bool {
        bytes_lt(self.user_key, other.user_key) || (self.user_key == other.user_key
            && self.seq_num() > other.seq_num())
    }

    /// `self` sorts before `other` or equals it.
    pub open spec fn le(self, other: KeyView) -> bool {
        self.lt(other) || self.same(other)
    }

    /// Of two keys at most one sorts before the other, and then they are not equal.
    pub proof fn lemma_lt_asymmetric(self, other: KeyView)
        requires
            self.lt(other),
        ensures
            !other.lt(self),
            !self.same(other),
    {
        if bytes_lt(self.user_key, other.user_key) {
            lemma_bytes_lt_asymmetric(self.user_key, other.user_key);
        } else {
            lemma_bytes_lt_irreflexive(self.user_key);
        }
    }

    /// The order of keys is transitive.
    pub proof fn lemma_lt_transitive(self, b: KeyView, c: KeyView)
        requires
            self.lt(b),
            b.lt(c),
        ensures
            self.lt(c),
    {
        if bytes_lt(self.user_key, b.user_key) && bytes_lt(b.user_key, c.user_key) {
            lemma_bytes_lt_transitive(self.user_key, b.user_key, c.user_key);
        }
    }

    /// The order of keys with equality is transitive.
    pub proof fn lemma_le_transitive(self, b: KeyView, c: KeyView)
        requires
            self.le(b),
            b.le(c),
        ensures
            self.le(c),
    {
        if self.lt(b) && b.lt(c) {
            self.lemma_lt_transitive(b, c);
        }
    }

    /// Of two keys one sorts first, or they are equal.
    pub proof fn lemma_total(self, other: KeyView)
        ensures
            self.lt(other) || self.same(other) || other.lt(self),
            self.le(other) || other.lt(self),
            self.le(other) <==> !other.lt(self),
    {
        lemma_bytes_lt_total(self.user_key, other.user_key);
        if self.lt(other) {
            self.lemma_lt_asymmetric(other);
        }
        if other.lt(self) {
            other.lemma_lt_asymmetric(self);
        }
    }

    /// Decoding the bytes of a key gives the key back.
    pub proof fn lemma_decode_encode(self)
        ensures
            self.encoding().len() == self.user_key.len() + 8,
            KeyView::decoding(self.encoding()) == self,
    {
        let e = self.encoding();
        lemma_le_bytes_len(self.tail as nat, 8);
        lemma_pow256_8();
        lemma_le_value_of_bytes(self.tail as nat, 8);
        assert(e.subrange(0, e.len() - 8) =~= self.user_key);
        assert(e.subrange(e.len() - 8, e.len() as int) =~= le_bytes(self.tail as nat, 8));
    }
}

/// A user key with the tail that gives its version and operation type.
#[derive(Clone, Debug, Default)]
pub struct InternalKey {
    pub user_key: Vec<u8>,
    pub tail: u64,
}

impl View for InternalKey {
    type V = KeyView;

    open spec fn view(&self) -> KeyView {
        KeyView { user_key: self.user_key@, tail: self.tail }
    }
}

impl InternalKey {
    /// The key for `user_key` at `seq_num` with `op_type`. Of the sequence
    /// number the low 56 bits are kept.
    pub fn new(user_key: &[u8], seq_num: u64, op_type: u8) -> (key: InternalKey)
        ensures
            key@.user_key == user_key@,
            key@.tail == tail_of(seq_num, op_type),
            key@.seq_num() == seq_num % 0x100_0000_0000_0000,
            key@.op_type() == op_type,
    {
        let op: u64 = op_type as u64;
        let tail: u64 = seq_num << 8 | op;
        assert(tail == (seq_num % 0x100_0000_0000_0000) * 256 + op) by (bit_vector)
            requires
                tail == seq_num << 8 | op,
                op < 256,
        ;
        InternalKey { user_key: copy_bytes(user_key), tail }
    }

    /// The operation type.
    pub fn get_type(&self) -> (op_type: u8)
        ensures
            op_type == self@.op_type(),
    {
        let tail: u64 = self.tail;
        let low: u64 = tail & 0xff;
        assert(low == tail % 256) by (bit_vector)
            requires
                low == tail & 0xff,
        ;
        low as u8
    }

    /// The sequence number.
    pub fn get_seq_num(&self) -> (seq_num: u64)
        ensures
            seq_num == self@.seq_num(),
    {
        let tail: u64 = self.tail;
        let high: u64 = tail >> 8;
        assert(high == tail / 256) by (bit_vector)
            requires
                high == tail >> 8,
        ;
        high
    }

    /// The key's bytes: the user key, then the tail in little-endian order.
    pub fn encode_to(&self) -> (bytes: Vec<u8>)
        ensures
            bytes@ == self@.encoding(),
    {
        let mut res: Vec<u8> = Vec::new();
        put_bytes(&mut res, self.user_key.as_slice());
        put_u64(&mut res, self.tail);
        assert(res@ =~= self@.encoding());
        res
    }

    /// The key that the bytes spell: the last eight bytes are the tail, the
    /// bytes before them the user key.
    pub fn decode_from(bytes: &[u8]) -> (key: InternalKey)
        requires
            bytes@.len() >= 8,
        ensures
            key@ == KeyView::decoding(bytes@),
    {
        let len: usize = bytes.len();
        let user_key = copy_range(bytes, 0, len - 8);
        let tail_bytes = copy_range(bytes, len - 8, len);
        proof {
            lemma_le_value_bound(tail_bytes@);
            lemma_pow256_8();
        }
        let tail: u64 = to_u64(tail_bytes.as_slice());
        InternalKey { user_key, tail }
    }

    /// A copy of the key.
    pub fn duplicate(&self) -> (key: InternalKey)
        ensures
            key@ == self@,
    {
        InternalKey { user_key: copy_bytes(self.user_key.as_slice()), tail: self.tail }
    }

    /// Whether the two keys have the same user key and sequence number.
    pub fn same_as(&self, other: &InternalKey) -> (r: bool)
        ensures
            r == self@.same(other@),
    {
        bytes_equal(self.user_key.as_slice(), other.user_key.as_slice()) && self.get_seq_num()
            == other.get_seq_num()
    }

    /// Whether `self` sorts strictly before `other`.
    pub fn sorts_before(&self, other: &InternalKey) -> (r: bool)
        ensures
            r == self@.lt(other@),
    {
        if bytes_before(self.user_key.as_slice(), other.user_key.as_slice()) {
            true
        } else if bytes_equal(self.user_key.as_slice(), other.user_key.as_slice()) {
            self.get_seq_num() > other.get_seq_num()
        } else {
            false
        }
    }

    /// Whether `self` sorts before `other` or equals it.
    pub fn sorts_at_or_before(&self, other: &InternalKey) -> (r: bool)
        ensures
            r == self@.le(other@),
    {
        proof {
            self@.lemma_total(other@);
        }
        !other.sorts_before(self)
    }
}

/// What a look-up key stands for: a key with the length that frames it.
pub struct LookUpKeyView {
    pub key_len: u64,
    pub key: KeyView,
}

impl LookUpKeyView {
    /// The framing is right: the length is that of the key's encoding.
    pub open spec fn wf(self) -> bool {
        self.key_len == self.key.user_key.len() + 8
    }

    /// The look-up key's bytes: the length in little-endian order, then the key.
    pub open spec fn encoding(self) -> Seq<u8> {
        le_bytes(self.key_len as nat, 8) + self.key.encoding()
    }

    /// The look-up key framed at `offset` in `bytes` and the place where it
    /// ends, or `None` where the bytes there frame no key.
    pub open spec fn parse(bytes: Seq<u8>, offset: int) -> Option<(LookUpKeyView, int)> {
        if 0 <= offset && offset + 8 <= bytes.len() {
            let n = le_value(bytes.subrange(offset, offset + 8));
            if 8 <= n && offset + 8 + n <= bytes.len() {
                Some(
                    (
                        LookUpKeyView {
                            key_len: n as u64,
                            key: KeyView::decoding(
                                bytes.subrange(offset + 8, offset + 8 + n as int),
                            ),
                        },
                        offset + 8 + n as int,
                    ),
                )
            } else {
                None
            }
        } else {
            None
        }
    }

    /// A well-formed look-up key written at the end of `prefix` is read back
    /// from there, and reading stops where its bytes end.
    pub proof fn lemma_parse_encoding(self, prefix: Seq<u8>, suffix: Seq<u8>)
        requires
            self.wf(),
        ensures
            self.encoding().len() == 16 + self.key.user_key.len(),
            LookUpKeyView::parse(prefix + self.encoding() + suffix, prefix.len() as int) == Some(
                (self, (prefix.len() + self.encoding().len()) as int),
            ),
    {
        let bytes = prefix + self.encoding() + suffix;
        let off = prefix.len() as int;
        self.key.lemma_decode_encode();
        lemma_le_bytes_len(self.key_len as nat, 8);
        lemma_pow256_8();
        lemma_le_value_of_bytes(self.key_len as nat, 8);
        assert(bytes.subrange(off, off + 8) =~= le_bytes(self.key_len as nat, 8));
        let n = self.key_len as int;
        assert(bytes.subrange(off + 8, off + 8 + n) =~= self.key.encoding());
    }
}

/// An internal key with the length of its encoding in front: the form in
/// which keys are framed inside a table.
#[derive(Clone, Debug, Default)]
pub struct LookUpKey {
    pub key_len: u64,
    pub internal_key: InternalKey,
}

impl View for LookUpKey {
    type V = LookUpKeyView;

    open spec fn view(&self) -> LookUpKeyView {
        LookUpKeyView { key_len: self.key_len, key: self.internal_key@ }
    }
}

impl LookUpKey {
    /// The key framed: with the length of its encoding.
    pub fn new(internal_key: InternalKey) -> (key: LookUpKey)
        requires
            internal_key@.user_key.len() + 8 <= u64::MAX,
        ensures
            key@.key == internal_key@,
            key@.wf(),
    {
        LookUpKey { key_len: internal_key.user_key.len() as u64 + 8, internal_key }
    }

    /// The look-up key's bytes: the length in little-endian order, then the key.
    pub fn encode_to(&self) -> (bytes: Vec<u8>)
        ensures
            bytes@ == self@.encoding(),
    {
        let mut res: Vec<u8> = Vec::new();
        put_u64(&mut res, self.key_len);
        put_bytes(&mut res, self.internal_key.user_key.as_slice());
        put_u64(&mut res, self.internal_key.tail);
        assert(res@ =~= self@.encoding());
        res
    }

    /// Reads the look-up key framed at `*offset` and moves `*offset` past it.
    /// Where the bytes there frame no key, returns `None` and leaves
    /// `*offset` as it was.
    pub fn decode_from_bytes(bytes: &[u8], offset: &mut u64) -> (key: Option<LookUpKey>)
        ensures
            match LookUpKeyView::parse(bytes@, *old(offset) as int) {
                Some((k, end)) => key.is_some() && key.unwrap()@ == k && *final(offset) == end,
                None => key.is_none() && *final(offset) == *old(offset),
            },
    {
        let len: usize = bytes.len();
        let start: u64 = *offset;
        if start > len as u64 || len as u64 - start < 8 {
            return None;
        }
        let cur: usize = start as usize;
        let len_bytes = copy_range(bytes, cur, cur + 8);
        proof {
            lemma_le_value_bound(len_bytes@);
            lemma_pow256_8();
        }
        let key_len: u64 = to_u64(len_bytes.as_slice());
        if key_len < 8 || key_len > (len - cur - 8) as u64 {
            return None;
        }
        let n: usize = key_len as usize;
        let key_bytes = copy_range(bytes, cur + 8, cur + 8 + n);
        let internal_key = InternalKey::decode_from(key_bytes.as_slice());
        *offset = start + 8 + key_len;
        Some(LookUpKey { key_len, internal_key })
    }

    /// The user key.
    pub fn get_user_key(&self) -> (user_key: &[u8])
        ensures
            user_key@ == self@.key.user_key,
    {
        self.internal_key.user_key.as_slice()
    }

    /// The sequence number.
    pub fn get_seq_num(&self) -> (seq_num: u64)
        ensures
            seq_num == self@.key.seq_num(),
    {
        self.internal_key.get_seq_num()
    }

    /// The operation type.
    pub fn get_type(&self) -> (op_type: u8)
        ensures
            op_type == self@.key.op_type(),
    {
        self.internal_key.get_type()
    }

    /// A copy of the key.
    pub fn duplicate(&self) -> (key: LookUpKey)
        ensures
            key@ == self@,
    {
        LookUpKey { key_len: self.key_len, internal_key: self.internal_key.duplicate() }
    }

    /// Whether the two keys have the same user key and sequence number.
    pub fn same_as(&self, other: &LookUpKey) -> (r: bool)
        ensures
            r == self@.key.same(other@.key),
    {
        self.internal_key.same_as(&other.internal_key)
    }

    /// Whether `self` sorts strictly before `other`.
    pub fn sorts_before(&self, other: &LookUpKey) -> (r: bool)
        ensures
            r == self@.key.lt(other@.key),
    {
        self.internal_key.sorts_before(&other.internal_key)
    }

    /// Whether `self` sorts before `other` or equals it.
    pub fn sorts_at_or_before(&self, other: &LookUpKey) -> (r: bool)
        ensures
            r == self@.key.le(other@.key),
    {
        self.internal_key.sorts_at_or_before(&other.internal_key)
    }
}

} // verus!
