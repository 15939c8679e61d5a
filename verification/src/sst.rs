//! The pieces of a sorted table's image: footer, data block entries and
//! index block entries, with their bytes.
//!
//! A table's image is a run of data blocks, then the index block, then the
//! smallest and the largest look-up key, then a footer of 48 bytes. A data
//! block is a run of entries: a look-up key, the value's length, the value.
//! The index block has for every data block the look-up key that ends it, the
//! block's offset and its length. All integers are eight bytes,
//! little-endian.

use vstd::prelude::*;
use crate::key::{LookUpKey, LookUpKeyView};
use crate::utils::{le_bytes, le_value, put_bytes, put_u64, to_u64, copy_range};
use crate::utils::{lemma_le_bytes_len, lemma_le_value_of_bytes, lemma_le_value_bound, lemma_pow256_8};

verus! {

/// The length of a footer's bytes.
pub const FOOTER_LEN: usize = 48;

/// The last part of a table's image: where its parts lie.
#[derive(Clone, Copy, Debug, Default, PartialEq, Eq, Structural)]
pub struct Footer {
    pub level: usize,
    pub min_key_addr: u64,
    pub max_key_addr: u64,
    pub last_seq_num: u64,
    pub meta_index_block_addr: u64,
    pub index_block_addr: u64,
    /// Where the footer starts; it is not part of the footer's bytes.
    pub foot_addr: u64,
}

impl Footer {
    /// The footer's 48 bytes.
    pub open spec fn encoding(self) -> Seq<u8> {
        le_bytes(self.level as nat, 8) + le_bytes(self.min_key_addr as nat, 8) + le_bytes(
            self.max_key_addr as nat,
            8,
        ) + le_bytes(self.last_seq_num as nat, 8) + le_bytes(self.meta_index_block_addr as nat, 8)
            + le_bytes(self.index_block_addr as nat, 8)
    }

    /// The footer in the last 48 bytes of `bytes`, or `None` where `bytes` is
    /// shorter than that or the level does not fit the machine's word.
    pub open spec fn parse(bytes: Seq<u8>) -> Option<Footer> {
        if bytes.len() < 48 || bytes.len() > u64::MAX {
            None
        } else {
            let at = bytes.len() - 48;
            let level = le_value(bytes.subrange(at, at + 8));
            if level > usize::MAX {
                None
            } else {
                Some(
                    Footer {
                        level: level as usize,
                        min_key_addr: le_value(bytes.subrange(at + 8, at + 16)) as u64,
                        max_key_addr: le_value(bytes.subrange(at + 16, at + 24)) as u64,
                        last_seq_num: le_value(bytes.subrange(at + 24, at + 32)) as u64,
                        meta_index_block_addr: le_value(bytes.subrange(at + 32, at + 40)) as u64,
                        index_block_addr: le_value(bytes.subrange(at + 40, at + 48)) as u64,
                        foot_addr: at as u64,
                    },
                )
            }
        }
    }

    /// A footer's bytes are 48.
    pub proof fn lemma_encoding_len(self)
        ensures
            self.encoding().len() == 48,
    {
        lemma_le_bytes_len(self.level as nat, 8);
        lemma_le_bytes_len(self.min_key_addr as nat, 8);
        lemma_le_bytes_len(self.max_key_addr as nat, 8);
        lemma_le_bytes_len(self.last_seq_num as nat, 8);
        lemma_le_bytes_len(self.meta_index_block_addr as nat, 8);
        lemma_le_bytes_len(self.index_block_addr as nat, 8);
    }

    /// A footer written at its own address behind `body` is read back.
    pub proof fn lemma_parse_encoding(self, body: Seq<u8>)
        requires
            self.foot_addr == body.len(),
            body.len() + 48 <= u64::MAX,
        ensures
            self.encoding().len() == 48,
            Footer::parse(body + self.encoding()) == Some(self),
    {
        let bytes = body + self.encoding();
        let at = body.len() as int;
        lemma_pow256_8();
        lemma_le_bytes_len(self.level as nat, 8);
        lemma_le_bytes_len(self.min_key_addr as nat, 8);
        lemma_le_bytes_len(self.max_key_addr as nat, 8);
        lemma_le_bytes_len(self.last_seq_num as nat, 8);
        lemma_le_bytes_len(self.meta_index_block_addr as nat, 8);
        lemma_le_bytes_len(self.index_block_addr as nat, 8);
        lemma_le_value_of_bytes(self.level as nat, 8);
        lemma_le_value_of_bytes(self.min_key_addr as nat, 8);
        lemma_le_value_of_bytes(self.max_key_addr as nat, 8);
        lemma_le_value_of_bytes(self.last_seq_num as nat, 8);
        lemma_le_value_of_bytes(self.meta_index_block_addr as nat, 8);
        lemma_le_value_of_bytes(self.index_block_addr as nat, 8);
        assert(bytes.subrange(at, at + 8) =~= le_bytes(self.level as nat, 8));
        assert(bytes.subrange(at + 8, at + 16) =~= le_bytes(self.min_key_addr as nat, 8));
        assert(bytes.subrange(at + 16, at + 24) =~= le_bytes(self.max_key_addr as nat, 8));
        assert(bytes.subrange(at + 24, at + 32) =~= le_bytes(self.last_seq_num as nat, 8));
        assert(bytes.subrange(at + 32, at + 40) =~= le_bytes(
            self.meta_index_block_addr as nat,
            8,
        ));
        assert(bytes.subrange(at + 40, at + 48) =~= le_bytes(self.index_block_addr as nat, 8));
    }

    /// Reads the footer from the last 48 bytes of a table's image.
    pub fn decode_from(bytes: &[u8]) -> (footer: Option<Footer>)
        ensures
            footer == Footer::parse(bytes@),
    {
        let len: usize = bytes.len();
        if len < FOOTER_LEN {
            return None;
        }
        let at: usize = len - FOOTER_LEN;
        let level = read_u64(bytes, at);
        let min_key_addr = read_u64(bytes, at + 8);
        let max_key_addr = read_u64(bytes, at + 16);
        let last_seq_num = read_u64(bytes, at + 24);
        let meta_index_block_addr = read_u64(bytes, at + 32);
        let index_block_addr = read_u64(bytes, at + 40);
        if level > usize::MAX as u64 {
            return None;
        }
        Some(
            Footer {
                level: level as usize,
                min_key_addr,
                max_key_addr,
                last_seq_num,
                meta_index_block_addr,
                index_block_addr,
                foot_addr: at as u64,
            },
        )
    }

    /// The footer's 48 bytes.
    pub fn encode_to(&self) -> (bytes: Vec<u8>)
        ensures
            bytes@ == self.encoding(),
    {
        let mut buf: Vec<u8> = Vec::with_capacity(FOOTER_LEN);
        put_u64(&mut buf, self.level as u64);
        put_u64(&mut buf, self.min_key_addr);
        put_u64(&mut buf, self.max_key_addr);
        put_u64(&mut buf, self.last_seq_num);
        put_u64(&mut buf, self.meta_index_block_addr);
        put_u64(&mut buf, self.index_block_addr);
        assert(buf@ =~= self.encoding());
        buf
    }
}

/// The little-endian number in the eight bytes at `at`.
pub fn read_u64(bytes: &[u8], at: usize) -> (r: u64)
    requires
        at + 8 <= bytes@.len(),
    ensures
        r == le_value(bytes@.subrange(at as int, at + 8)),
{
    let len: usize = bytes.len();
    assert(at + 8 <= len);
    let part = copy_range(bytes, at, at + 8);
    proof {
        lemma_le_value_bound(part@);
        lemma_pow256_8();
    }
    to_u64(part.as_slice())
}

/// What a data block entry stands for.
pub struct EntryView {
    pub key: LookUpKeyView,
    pub value: Seq<u8>,
}

impl EntryView {
    /// The key is framed rightly and the value's length fits in eight bytes.
    pub open spec fn wf(self) -> bool {
        self.key.wf() && self.value.len() <= u64::MAX
    }

    /// The entry's bytes: the look-up key, the value's length, the value.
    pub open spec fn encoding(self) -> Seq<u8> {
        self.key.encoding() + le_bytes(self.value.len(), 8) + self.value
    }

    /// The entry at `offset` in `bytes` and the place where it ends, or
    /// `None` where no whole entry lies there.
    pub open spec fn parse(bytes: Seq<u8>, offset: int) -> Option<(EntryView, int)> {
        match LookUpKeyView::parse(bytes, offset) {
            Some((key, at)) => {
                if at + 8 <= bytes.len() {
                    let n = le_value(bytes.subrange(at, at + 8)) as int;
                    if at + 8 + n <= bytes.len() {
                        Some((EntryView { key, value: bytes.subrange(at + 8, at + 8 + n) }, at + 8 + n))
                    } else {
                        None
                    }
                } else {
                    None
                }
            },
            None => None,
        }
    }

    /// A well-formed entry written at the end of `prefix` is read back from
    /// there, and reading stops where its bytes end.
    pub proof fn lemma_parse_encoding(self, prefix: Seq<u8>, suffix: Seq<u8>)
        requires
            self.wf(),
        ensures
            self.encoding().len() == self.key.encoding().len() + 8 + self.value.len(),
            self.encoding().len() >= 24,
            EntryView::parse(prefix + self.encoding() + suffix, prefix.len() as int) == Some(
                (self, (prefix.len() + self.encoding().len()) as int),
            ),
    {
        let bytes = prefix + self.encoding() + suffix;
        let rest = le_bytes(self.value.len(), 8) + self.value + suffix;
        assert(bytes =~= prefix + self.key.encoding() + rest);
        self.key.lemma_parse_encoding(prefix, rest);
        lemma_pow256_8();
        lemma_le_bytes_len(self.value.len(), 8);
        lemma_le_value_of_bytes(self.value.len(), 8);
        let at = (prefix.len() + self.key.encoding().len()) as int;
        let n = self.value.len() as int;
        assert(bytes.subrange(at, at + 8) =~= le_bytes(self.value.len(), 8));
        assert(bytes.subrange(at + 8, at + 8 + n) =~= self.value);
    }
}

/// One entry of a data block: a look-up key and the value stored under it.
#[derive(Clone, Debug, Default)]
pub struct DataBlockEntry {
    pub look_up_key: LookUpKey,
    pub value: Vec<u8>,
}

impl View for DataBlockEntry {
    type V = EntryView;

    open spec fn view(&self) -> EntryView {
        EntryView { key: self.look_up_key@, value: self.value@ }
    }
}

impl DataBlockEntry {
    /// The entry made of a key and a value.
    pub fn new(look_up_key: LookUpKey, value: Vec<u8>) -> (entry: DataBlockEntry)
        ensures
            entry@ == (EntryView { key: look_up_key@, value: value@ }),
    {
        DataBlockEntry { look_up_key, value }
    }

    /// Reads the entry at `*offset` and moves `*offset` past it. Where no
    /// whole entry lies there, returns `None` and leaves `*offset` as it was.
    pub fn decode_from(bytes: &[u8], offset: &mut u64) -> (entry: Option<DataBlockEntry>)
        ensures
            match EntryView::parse(bytes@, *old(offset) as int) {
                Some((e, end)) => entry.is_some() && entry.unwrap()@ == e && *final(offset) == end,
                None => entry.is_none() && *final(offset) == *old(offset),
            },
    {
        let start: u64 = *offset;
        let len: usize = bytes.len();
        let look_up_key = match LookUpKey::decode_from_bytes(bytes, offset) {
            Some(k) => k,
            None => {
                return None;
            },
        };
        let at: usize = *offset as usize;
        if len - at < 8 {
            *offset = start;
            return None;
        }
        let value_len: u64 = read_u64(bytes, at);
        if value_len > (len - at - 8) as u64 {
            *offset = start;
            return None;
        }
        let n: usize = value_len as usize;
        let value = copy_range(bytes, at + 8, at + 8 + n);
        *offset = (at + 8 + n) as u64;
        Some(DataBlockEntry { look_up_key, value })
    }

    /// The entry's bytes: the look-up key, the value's length, the value.
    pub fn encode_to(&self) -> (bytes: Vec<u8>)
        ensures
            bytes@ == self@.encoding(),
    {
        let mut buf = self.look_up_key.encode_to();
        put_u64(&mut buf, self.value.len() as u64);
        put_bytes(&mut buf, self.value.as_slice());
        buf
    }
}

/// What an index block entry stands for.
pub struct IndexEntryView {
    pub max_key: LookUpKeyView,
    pub offset: u64,
    pub length: u64,
}

impl IndexEntryView {
    /// The entry's bytes: the look-up key, the block's offset, its length.
    pub open spec fn encoding(self) -> Seq<u8> {
        self.max_key.encoding() + le_bytes(self.offset as nat, 8) + le_bytes(
            self.length as nat,
            8,
        )
    }

    /// The entry at `addr` in `bytes` and the place where it ends, or `None`
    /// where no whole entry lies there.
    pub open spec fn parse(bytes: Seq<u8>, addr: int) -> Option<(IndexEntryView, int)> {
        match LookUpKeyView::parse(bytes, addr) {
            Some((max_key, at)) => {
                if at + 16 <= bytes.len() {
                    Some(
                        (
                            IndexEntryView {
                                max_key,
                                offset: le_value(bytes.subrange(at, at + 8)) as u64,
                                length: le_value(bytes.subrange(at + 8, at + 16)) as u64,
                            },
                            at + 16,
                        ),
                    )
                } else {
                    None
                }
            },
            None => None,
        }
    }

    /// An entry with a rightly framed key written at the end of `prefix` is
    /// read back from there, and reading stops where its bytes end.
    pub proof fn lemma_parse_encoding(self, prefix: Seq<u8>, suffix: Seq<u8>)
        requires
            self.max_key.wf(),
        ensures
            self.encoding().len() == self.max_key.encoding().len() + 16,
            IndexEntryView::parse(prefix + self.encoding() + suffix, prefix.len() as int) == Some(
                (self, (prefix.len() + self.encoding().len()) as int),
            ),
    {
        let bytes = prefix + self.encoding() + suffix;
        let rest = le_bytes(self.offset as nat, 8) + le_bytes(self.length as nat, 8) + suffix;
        assert(bytes =~= prefix + self.max_key.encoding() + rest);
        self.max_key.lemma_parse_encoding(prefix, rest);
        lemma_pow256_8();
        lemma_le_bytes_len(self.offset as nat, 8);
        lemma_le_bytes_len(self.length as nat, 8);
        lemma_le_value_of_bytes(self.offset as nat, 8);
        lemma_le_value_of_bytes(self.length as nat, 8);
        let at = (prefix.len() + self.max_key.encoding().len()) as int;
        assert(bytes.subrange(at, at + 8) =~= le_bytes(self.offset as nat, 8));
        assert(bytes.subrange(at + 8, at + 16) =~= le_bytes(self.length as nat, 8));
    }
}

/// One entry of the index block: the look-up key that ends a data block, and
/// where the block lies.
#[derive(Clone, Debug, Default)]
pub struct IndexBlockEntry {
    pub max_key: LookUpKey,
    pub offset: u64,
    pub length: u64,
}

impl View for IndexBlockEntry {
    type V = IndexEntryView;

    open spec fn view(&self) -> IndexEntryView {
        IndexEntryView { max_key: self.max_key@, offset: self.offset, length: self.length }
    }
}

impl IndexBlockEntry {
    /// The entry for the block that ends with `max_key` and lies at `offset`
    /// with `length` bytes.
    pub fn new(max_key: LookUpKey, offset: u64, length: u64) -> (entry: IndexBlockEntry)
        ensures
            entry@ == (IndexEntryView { max_key: max_key@, offset, length }),
    {
        IndexBlockEntry { max_key, offset, length }
    }

    /// Reads the entry at `*addr` and moves `*addr` past it. Where no whole
    /// entry lies there, returns `None` and leaves `*addr` as it was.
    pub fn decode_from(bytes: &[u8], addr: &mut u64) -> (entry: Option<IndexBlockEntry>)
        ensures
            match IndexEntryView::parse(bytes@, *old(addr) as int) {
                Some((e, end)) => entry.is_some() && entry.unwrap()@ == e && *final(addr) == end,
                None => entry.is_none() && *final(addr) == *old(addr),
            },
    {
        let start: u64 = *addr;
        let len: usize = bytes.len();
        let max_key = match LookUpKey::decode_from_bytes(bytes, addr) {
            Some(k) => k,
            None => {
                return None;
            },
        };
        let at: usize = *addr as usize;
        if len - at < 16 {
            *addr = start;
            return None;
        }
        let offset: u64 = read_u64(bytes, at);
        let length: u64 = read_u64(bytes, at + 8);
        *addr = (at + 16) as u64;
        Some(IndexBlockEntry { max_key, offset, length })
    }

    /// The entry's bytes: the look-up key, the block's offset, its length.
    pub fn encode_to(&self) -> (bytes: Vec<u8>)
        ensures
            bytes@ == self@.encoding(),
    {
        let mut buf = self.max_key.encode_to();
        put_u64(&mut buf, self.offset);
        put_u64(&mut buf, self.length);
        buf
    }
}

} // verus!
