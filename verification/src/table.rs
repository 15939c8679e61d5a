//! The sorted table: an immutable image of sorted entries with an index.
//!
//! A table keeps the bytes of its file, the footer, the index block and the
//! smallest and largest key read from them. Building a table writes the image;
//! opening one reads an image back and checks it; look-up and enumeration read
//! the data blocks out of the image.

use vstd::prelude::*;
use vstd::std_specs::cmp::{PartialEqSpecImpl, PartialOrdSpecImpl};
use std::cmp::Ordering;
use crate::key::{InternalKey, KeyView, LookUpKey, LookUpKeyView};
use crate::sst::{DataBlockEntry, EntryView, Footer, IndexBlockEntry, IndexEntryView};
use crate::utils::{copy_bytes, copy_range, put_bytes};
use crate::bytes_order::bytes_equal;

verus! {

/// The entries that `bytes` holds from `pos` to its end, in order, or `None`
/// where the bytes from `pos` on do not split into whole entries.
pub open spec fn parse_entries(bytes: Seq<u8>, pos: int) -> Option<Seq<EntryView>>
    decreases bytes.len() - pos,
{
    if pos >= bytes.len() {
        Some(Seq::<EntryView>::empty())
    } else {
        match EntryView::parse(bytes, pos) {
            Some((e, next)) => if next > pos {
                match parse_entries(bytes, next) {
                    Some(rest) => Some(seq![e] + rest),
                    None => None,
                }
            } else {
                None
            },
            None => None,
        }
    }
}

/// The bytes of a run of entries, one after the other.
pub open spec fn encode_entries(entries: Seq<EntryView>) -> Seq<u8>
    decreases entries.len(),
{
    if entries.len() == 0 {
        Seq::<u8>::empty()
    } else {
        entries[0].encoding() + encode_entries(entries.drop_first())
    }
}

/// Every entry has a rightly framed key and a value whose length fits in
/// eight bytes.
pub open spec fn all_entries_wf(entries: Seq<EntryView>) -> bool {
    forall|i: int| 0 <= i < entries.len() ==> (#[trigger] entries[i]).wf()
}

/// A run of well-formed entries written after `prefix` is read back whole
/// from there.
pub proof fn lemma_parse_entries_encoding(prefix: Seq<u8>, entries: Seq<EntryView>)
    requires
        all_entries_wf(entries),
    ensures
        parse_entries(prefix + encode_entries(entries), prefix.len() as int) == Some(entries),
    decreases entries.len(),
{
    let bytes = prefix + encode_entries(entries);
    if entries.len() == 0 {
        assert(bytes =~= prefix);
    } else {
        let e = entries[0];
        let rest = entries.drop_first();
        let suffix = encode_entries(rest);
        assert(bytes =~= prefix + e.encoding() + suffix);
        e.lemma_parse_encoding(prefix, suffix);
        let next_prefix = prefix + e.encoding();
        assert(bytes =~= next_prefix + suffix);
        assert forall|i: int| 0 <= i < rest.len() implies (#[trigger] rest[i]).wf() by {
            assert(rest[i] == entries[i + 1]);
        }
        lemma_parse_entries_encoding(next_prefix, rest);
        assert(seq![e] + rest =~= entries);
    }
}

/// Appending one entry to a run appends its bytes.
pub proof fn lemma_encode_entries_push(entries: Seq<EntryView>, e: EntryView)
    ensures
        encode_entries(entries.push(e)) == encode_entries(entries) + e.encoding(),
    decreases entries.len(),
{
    if entries.len() == 0 {
        let s = entries.push(e);
        assert(s.drop_first() =~= Seq::<EntryView>::empty());
        assert(encode_entries(s.drop_first()) =~= Seq::<u8>::empty());
        assert(s[0] == e);
        assert(encode_entries(s) =~= e.encoding());
        assert(encode_entries(entries) + e.encoding() =~= e.encoding());
    } else {
        assert(entries.push(e).drop_first() =~= entries.drop_first().push(e));
        lemma_encode_entries_push(entries.drop_first(), e);
        assert(encode_entries(entries.push(e)) =~= encode_entries(entries) + e.encoding());
    }
}

/// The index entries that `bytes` holds from `pos` to its end, in order, or
/// `None` where the bytes from `pos` on do not split into whole entries.
pub open spec fn parse_index(bytes: Seq<u8>, pos: int) -> Option<Seq<IndexEntryView>>
    decreases bytes.len() - pos,
{
    if pos >= bytes.len() {
        Some(Seq::<IndexEntryView>::empty())
    } else {
        match IndexEntryView::parse(bytes, pos) {
            Some((e, next)) => if next > pos {
                match parse_index(bytes, next) {
                    Some(rest) => Some(seq![e] + rest),
                    None => None,
                }
            } else {
                None
            },
            None => None,
        }
    }
}

/// The bytes of a run of index entries, one after the other.
pub open spec fn encode_index(entries: Seq<IndexEntryView>) -> Seq<u8>
    decreases entries.len(),
{
    if entries.len() == 0 {
        Seq::<u8>::empty()
    } else {
        entries[0].encoding() + encode_index(entries.drop_first())
    }
}

/// A run of index entries with rightly framed keys written after `prefix` is
/// read back whole from there.
pub proof fn lemma_parse_index_encoding(prefix: Seq<u8>, entries: Seq<IndexEntryView>)
    requires
        forall|i: int| 0 <= i < entries.len() ==> (#[trigger] entries[i]).max_key.wf(),
    ensures
        parse_index(prefix + encode_index(entries), prefix.len() as int) == Some(entries),
    decreases entries.len(),
{
    let bytes = prefix + encode_index(entries);
    if entries.len() == 0 {
        assert(bytes =~= prefix);
    } else {
        let e = entries[0];
        let rest = entries.drop_first();
        let suffix = encode_index(rest);
        assert(bytes =~= prefix + e.encoding() + suffix);
        e.lemma_parse_encoding(prefix, suffix);
        let next_prefix = prefix + e.encoding();
        assert(bytes =~= next_prefix + suffix);
        assert forall|i: int| 0 <= i < rest.len() implies (#[trigger] rest[i]).max_key.wf() by {
            assert(rest[i] == entries[i + 1]);
        }
        lemma_parse_index_encoding(next_prefix, rest);
        assert(seq![e] + rest =~= entries);
    }
}

/// Appending one index entry to a run appends its bytes.
pub proof fn lemma_encode_index_push(entries: Seq<IndexEntryView>, e: IndexEntryView)
    ensures
        encode_index(entries.push(e)) == encode_index(entries) + e.encoding(),
    decreases entries.len(),
{
    if entries.len() == 0 {
        let s = entries.push(e);
        assert(s.drop_first() =~= Seq::<IndexEntryView>::empty());
        assert(encode_index(s.drop_first()) =~= Seq::<u8>::empty());
        assert(s[0] == e);
        assert(encode_index(s) =~= e.encoding());
        assert(encode_index(entries) + e.encoding() =~= e.encoding());
    } else {
        assert(entries.push(e).drop_first() =~= entries.drop_first().push(e));
        lemma_encode_index_push(entries.drop_first(), e);
        assert(encode_index(entries.push(e)) =~= encode_index(entries) + e.encoding());
    }
}

/// The look-up key that `bytes` spells from its first to its last byte.
pub open spec fn parse_key_exact(bytes: Seq<u8>) -> Option<LookUpKeyView> {
    match LookUpKeyView::parse(bytes, 0) {
        Some((k, end)) => if end == bytes.len() {
            Some(k)
        } else {
            None
        },
        None => None,
    }
}

/// The entries come in strictly ascending key order.
pub open spec fn entries_sorted(entries: Seq<EntryView>) -> bool {
    forall|i: int, j: int|
        0 <= i < j < entries.len() ==> (#[trigger] entries[i]).key.key.lt(
            (#[trigger] entries[j]).key.key,
        )
}

/// Every entry is a put or a delete, plain or made by a transaction.
pub open spec fn entries_typed(entries: Seq<EntryView>) -> bool {
    forall|i: int| 0 <= i < entries.len() ==> (#[trigger] entries[i]).key.key.op_type() <= 3
}

/// The largest sequence number among the entries, 0 where there is none.
pub open spec fn max_seq_num(entries: Seq<EntryView>) -> nat
    decreases entries.len(),
{
    if entries.len() == 0 {
        0
    } else {
        let rest = max_seq_num(entries.drop_last());
        let s = entries.last().key.key.seq_num();
        if s > rest {
            s
        } else {
            rest
        }
    }
}

/// The views of a run of pairs of key and value.
pub open spec fn pairs_view(pairs: Seq<(LookUpKey, Vec<u8>)>) -> Seq<EntryView> {
    pairs.map_values(|p: (LookUpKey, Vec<u8>)| EntryView { key: p.0@, value: p.1@ })
}

/// The views of a run of index entries.
pub open spec fn index_view(index: Seq<IndexBlockEntry>) -> Seq<IndexEntryView> {
    index.map_values(|e: IndexBlockEntry| e@)
}

/// Entry `i` sorts strictly before the entry behind it.
pub open spec fn adjacent_lt(entries: Seq<EntryView>, i: int) -> bool {
    entries[i].key.key.lt(entries[i + 1].key.key)
}

/// The last key of block `i` sorts strictly before the first key of the next block.
pub open spec fn block_follows(blocks: Seq<Seq<EntryView>>, i: int) -> bool {
    blocks[i].last().key.key.lt(blocks[i + 1][0].key.key)
}

/// The block behind block `k` starts where block `k` ends.
pub open spec fn offset_follows(index: Seq<IndexEntryView>, k: int) -> bool {
    index[k + 1].offset == index[k].offset + index[k].length
}

/// What a table's image holds.
pub struct TableView {
    pub footer: Footer,
    pub index: Seq<IndexEntryView>,
    pub blocks: Seq<Seq<EntryView>>,
    pub min_key: LookUpKeyView,
    pub max_key: LookUpKeyView,
}

/// The bytes of the block that an index entry points at.
pub open spec fn block_bytes(data: Seq<u8>, e: IndexEntryView) -> Seq<u8> {
    data.subrange(e.offset as int, e.offset + e.length)
}

/// Every index entry points at a run of whole entries before the index block.
pub open spec fn blocks_readable(data: Seq<u8>, index: Seq<IndexEntryView>, limit: int) -> bool {
    forall|i: int|
        0 <= i < index.len() ==> {
            &&& (#[trigger] index[i]).offset + index[i].length <= limit
            &&& parse_entries(block_bytes(data, index[i]), 0).is_some()
        }
}

/// What the image `data` holds, or `None` where it is no table's image: the
/// footer is read from the last 48 bytes, the index block from its address up
/// to the smallest key, the smallest and the largest key up to the footer,
/// and each data block from where its index entry points.
pub open spec fn parse_table(data: Seq<u8>) -> Option<TableView> {
    match Footer::parse(data) {
        Some(footer) => {
            let index_at = footer.index_block_addr as int;
            let min_at = footer.min_key_addr as int;
            let max_at = footer.max_key_addr as int;
            let foot_at = footer.foot_addr as int;
            if index_at <= min_at <= max_at <= foot_at && footer.meta_index_block_addr
                == footer.index_block_addr {
                match (
                    parse_index(data.subrange(index_at, min_at), 0),
                    parse_key_exact(data.subrange(min_at, max_at)),
                    parse_key_exact(data.subrange(max_at, foot_at)),
                ) {
                    (Some(index), Some(min_key), Some(max_key)) => {
                        if blocks_readable(data, index, index_at) {
                            Some(
                                TableView {
                                    footer,
                                    index,
                                    blocks: Seq::new(
                                        index.len(),
                                        |i: int|
                                            parse_entries(block_bytes(data, index[i]), 0).unwrap(),
                                    ),
                                    min_key,
                                    max_key,
                                },
                            )
                        } else {
                            None
                        }
                    },
                    _ => None,
                }
            } else {
                None
            }
        },
        None => None,
    }
}

/// What follows where `data` is a table's image: the parts lie in order
/// before the footer, and each block is what its index entry points at.
pub proof fn lemma_parse_table(data: Seq<u8>)
    requires
        parse_table(data).is_some(),
    ensures
        ({
            let v = parse_table(data).unwrap();
            &&& Footer::parse(data) == Some(v.footer)
            &&& data.len() >= 48
            &&& v.footer.foot_addr == data.len() - 48
            &&& v.footer.index_block_addr <= v.footer.min_key_addr <= v.footer.max_key_addr
                <= v.footer.foot_addr
            &&& v.blocks.len() == v.index.len()
            &&& blocks_readable(data, v.index, v.footer.index_block_addr as int)
            &&& forall|i: int|
                0 <= i < v.index.len() ==> (#[trigger] v.blocks[i]) == parse_entries(
                    block_bytes(data, v.index[i]),
                    0,
                ).unwrap()
        }),
{
}

/// The first entry of `block` that does not sort before `target` and has the
/// user key `user_key`.
pub open spec fn scan_block(block: Seq<EntryView>, target: KeyView, user_key: Seq<u8>) -> Option<
    EntryView,
>
    decreases block.len(),
{
    if block.len() == 0 {
        None
    } else if target.le(block[0].key.key) && block[0].key.key.user_key == user_key {
        Some(block[0])
    } else {
        scan_block(block.drop_first(), target, user_key)
    }
}

/// The place of the first index entry whose key does not sort before
/// `target`, or the number of entries where there is none.
pub open spec fn first_block_for(index: Seq<IndexEntryView>, target: KeyView) -> int
    decreases index.len(),
{
    if index.len() == 0 {
        0
    } else if !index[0].max_key.key.lt(target) {
        0
    } else {
        1 + first_block_for(index.drop_first(), target)
    }
}

/// What a look-up answers for an entry that it found: the value of a put, or
/// nothing for a delete.
pub open spec fn answer_of(e: EntryView) -> Option<Seq<u8>> {
    if e.key.key.op_type() == 0 || e.key.key.op_type() == 2 {
        Some(e.value)
    } else {
        None
    }
}

/// The key that a look-up for `user_key` as of `seq_num` starts from.
pub open spec fn target_key(user_key: Seq<u8>, seq_num: u64) -> KeyView {
    KeyView { user_key, tail: crate::key::tail_of(seq_num, 1) }
}

impl TableView {
    /// All entries of the table in the order of its blocks.
    pub open spec fn content(self) -> Seq<EntryView> {
        self.blocks.flatten()
    }

    /// The table is in order: there is a block for each index entry; no block
    /// is empty; each block is in strictly ascending key order, holds puts and
    /// deletes only, and ends with the key that its index entry names; each
    /// block's last key sorts strictly before the first key of the next
    /// block; and the smallest and the largest key are the first and the last
    /// key of all.
    pub open spec fn valid(self) -> bool {
        &&& self.blocks.len() == self.index.len()
        &&& self.blocks.len() >= 1
        &&& forall|i: int|
            0 <= i < self.blocks.len() ==> {
                &&& (#[trigger] self.blocks[i]).len() >= 1
                &&& entries_sorted(self.blocks[i])
                &&& entries_typed(self.blocks[i])
                &&& self.index[i].max_key == self.blocks[i].last().key
            }
        &&& forall|i: int| 0 <= i < self.blocks.len() - 1 ==> #[trigger] block_follows(self.blocks, i)
        &&& self.min_key == self.blocks[0][0].key
        &&& self.max_key == self.blocks.last().last().key
    }

    /// What a look-up for `user_key` as of `seq_num` finds in the table: in
    /// the first block whose last key does not sort before the target, the
    /// first entry that does not sort before the target and has the user key.
    /// `None` where there is no such block or no such entry in it;
    /// `Some(None)` where the entry is a delete.
    pub open spec fn lookup(self, user_key: Seq<u8>, seq_num: u64) -> Option<Option<Seq<u8>>> {
        let target = target_key(user_key, seq_num);
        let b = first_block_for(self.index, target);
        if b < self.blocks.len() {
            match scan_block(self.blocks[b], target, user_key) {
                Some(e) => Some(answer_of(e)),
                None => None,
            }
        } else {
            None
        }
    }
}

/// The index keys of a table in order do not decrease.
pub proof fn lemma_index_sorted(v: TableView, i: int, j: int)
    requires
        v.valid(),
        0 <= i <= j < v.index.len(),
    ensures
        v.index[i].max_key.key.le(v.index[j].max_key.key),
    decreases j - i,
{
    if i < j {
        lemma_index_sorted(v, i, j - 1);
        let a = v.blocks[j - 1];
        let b = v.blocks[j];
        assert(block_follows(v.blocks, j - 1));
        if b.len() > 1 {
            assert(b[0].key.key.lt(b[b.len() - 1].key.key));
        }
        a.last().key.key.lemma_le_transitive(b[0].key.key, b.last().key.key);
        v.index[i].max_key.key.lemma_le_transitive(
            v.index[j - 1].max_key.key,
            v.index[j].max_key.key,
        );
    }
}


/// Entries of which each sorts strictly before the next come in strictly
/// ascending key order.
pub proof fn lemma_adjacent_sorted(entries: Seq<EntryView>)
    requires
        forall|i: int| 0 <= i < entries.len() - 1 ==> #[trigger] adjacent_lt(entries, i),
    ensures
        entries_sorted(entries),
{
    assert forall|i: int, j: int| 0 <= i < j < entries.len() implies (#[trigger] entries[i]).key.key.lt(
        (#[trigger] entries[j]).key.key,
    ) by {
        lemma_adjacent_sorted_step(entries, i, j);
    }
}

/// Among entries of which each sorts before the next, each sorts before
/// all behind it.
proof fn lemma_adjacent_sorted_step(entries: Seq<EntryView>, i: int, j: int)
    requires
        forall|k: int| 0 <= k < entries.len() - 1 ==> #[trigger] adjacent_lt(entries, k),
        0 <= i < j < entries.len(),
    ensures
        entries[i].key.key.lt(entries[j].key.key),
    decreases j - i,
{
    if i + 1 < j {
        lemma_adjacent_sorted_step(entries, i, j - 1);
        assert(adjacent_lt(entries, j - 1));
        entries[i].key.key.lemma_lt_transitive(entries[j - 1].key.key, entries[j].key.key);
    } else {
        assert(adjacent_lt(entries, i));
    }
}

/// Reads a run of data block entries that fills `bytes`.
pub fn read_entries(bytes: &[u8]) -> (res: Option<Vec<DataBlockEntry>>)
    ensures
        match parse_entries(bytes@, 0) {
            Some(es) => res.is_some() && block_view(res.unwrap()@) == es,
            None => res.is_none(),
        },
{
    let mut block: Vec<DataBlockEntry> = Vec::new();
    let mut offset: u64 = 0;
    let len: u64 = bytes.len() as u64;
    assert(block_view(block@) =~= Seq::<EntryView>::empty());
    while offset < len
        invariant
            len == bytes@.len(),
            offset <= len,
            match parse_entries(bytes@, offset as int) {
                Some(rest) => parse_entries(bytes@, 0) == Some(block_view(block@) + rest),
                None => parse_entries(bytes@, 0).is_none(),
            },
        decreases len - offset,
    {
        let ghost before = block_view(block@);
        let ghost at = offset as int;
        match DataBlockEntry::decode_from(bytes, &mut offset) {
            Some(e) => {
                proof {
                    assert(offset > at);
                    assert(block_view(block@.push(e)) =~= before.push(e@));
                    match parse_entries(bytes@, offset as int) {
                        Some(rest) => {
                            assert(before.push(e@) + rest =~= before + (seq![e@] + rest));
                        },
                        None => {},
                    }
                }
                block.push(e);
            },
            None => {
                return None;
            },
        }
    }
    assert(block_view(block@) + Seq::<EntryView>::empty() =~= block_view(block@));
    Some(block)
}

/// Reads a run of index block entries that fills `bytes`.
pub fn read_index(bytes: &[u8]) -> (res: Option<Vec<IndexBlockEntry>>)
    ensures
        match parse_index(bytes@, 0) {
            Some(es) => res.is_some() && index_view(res.unwrap()@) == es,
            None => res.is_none(),
        },
{
    let mut index: Vec<IndexBlockEntry> = Vec::new();
    let mut addr: u64 = 0;
    let len: u64 = bytes.len() as u64;
    assert(index_view(index@) =~= Seq::<IndexEntryView>::empty());
    while addr < len
        invariant
            len == bytes@.len(),
            addr <= len,
            match parse_index(bytes@, addr as int) {
                Some(rest) => parse_index(bytes@, 0) == Some(index_view(index@) + rest),
                None => parse_index(bytes@, 0).is_none(),
            },
        decreases len - addr,
    {
        let ghost before = index_view(index@);
        let ghost at = addr as int;
        match IndexBlockEntry::decode_from(bytes, &mut addr) {
            Some(e) => {
                proof {
                    assert(addr > at);
                    assert(index_view(index@.push(e)) =~= before.push(e@));
                    match parse_index(bytes@, addr as int) {
                        Some(rest) => {
                            assert(before.push(e@) + rest =~= before + (seq![e@] + rest));
                        },
                        None => {},
                    }
                }
                index.push(e);
            },
            None => {
                return None;
            },
        }
    }
    assert(index_view(index@) + Seq::<IndexEntryView>::empty() =~= index_view(index@));
    Some(index)
}

/// Reads the look-up key that fills `bytes`.
pub fn read_key_exact(bytes: &[u8]) -> (res: Option<LookUpKey>)
    ensures
        match parse_key_exact(bytes@) {
            Some(k) => res.is_some() && res.unwrap()@ == k,
            None => res.is_none(),
        },
{
    let mut offset: u64 = 0;
    match LookUpKey::decode_from_bytes(bytes, &mut offset) {
        Some(k) => {
            if offset == bytes.len() as u64 {
                Some(k)
            } else {
                None
            }
        },
        None => None,
    }
}

/// Whether the two keys are the same in every part, the operation type too.
pub fn same_key(a: &LookUpKey, b: &LookUpKey) -> (r: bool)
    ensures
        r == (a@ == b@),
{
    a.key_len == b.key_len && a.internal_key.tail == b.internal_key.tail && bytes_equal(
        a.internal_key.user_key.as_slice(),
        b.internal_key.user_key.as_slice(),
    )
}

/// Whether the block is in strictly ascending key order and holds puts and
/// deletes only.
pub fn block_in_order(block: &Vec<DataBlockEntry>) -> (r: bool)
    ensures
        r == (entries_sorted(block_view(block@)) && entries_typed(block_view(block@))),
{
    let ghost es = block_view(block@);
    let m: usize = block.len();
    let mut j: usize = 0;
    while j < m
        invariant
            j <= m,
            m == block@.len(),
            es == block_view(block@),
            forall|i: int| 0 <= i < j ==> (#[trigger] es[i]).key.key.op_type() <= 3,
            forall|i: int| 0 <= i < j - 1 ==> #[trigger] adjacent_lt(es, i),
        decreases m - j,
    {
        assert(block@[j as int]@ == es[j as int]);
        if block[j].look_up_key.get_type() > 3 {
            return false;
        }
        if j > 0 {
            assert(block@[j as int - 1]@ == es[j as int - 1]);
            if !block[j - 1].look_up_key.sorts_before(&block[j].look_up_key) {
                return false;
            }
            assert(adjacent_lt(es, j as int - 1));
        }
        j = j + 1;
    }
    proof {
        lemma_adjacent_sorted(es);
    }
    true
}

/// Entries read from bytes have rightly framed keys and values whose lengths
/// fit in eight bytes.
pub proof fn lemma_parsed_entries_wf(bytes: Seq<u8>, pos: int)
    requires
        parse_entries(bytes, pos).is_some(),
        bytes.len() <= u64::MAX,
        0 <= pos,
    ensures
        all_entries_wf(parse_entries(bytes, pos).unwrap()),
    decreases bytes.len() - pos,
{
    if pos < bytes.len() {
        let (e, next) = EntryView::parse(bytes, pos).unwrap();
        let rest = parse_entries(bytes, next).unwrap();
        lemma_parsed_entries_wf(bytes, next);
        let all = parse_entries(bytes, pos).unwrap();
        assert(all =~= seq![e] + rest);
        assert(e.wf());
        assert forall|i: int| 0 <= i < all.len() implies (#[trigger] all[i]).wf() by {
            if i > 0 {
                assert(all[i] == rest[i - 1]);
            }
        }
    }
}

/// Blocks of which each is in order and sorts before the next make a run of
/// entries in order when put one after the other.
pub proof fn lemma_flatten_in_order(blocks: Seq<Seq<EntryView>>)
    requires
        blocks.len() >= 1,
        forall|i: int|
            0 <= i < blocks.len() ==> {
                &&& (#[trigger] blocks[i]).len() >= 1
                &&& entries_sorted(blocks[i])
                &&& entries_typed(blocks[i])
                &&& all_entries_wf(blocks[i])
            },
        forall|i: int| 0 <= i < blocks.len() - 1 ==> #[trigger] block_follows(blocks, i),
    ensures
        blocks.flatten().len() >= 1,
        blocks.flatten()[0] == blocks[0][0],
        blocks.flatten().last() == blocks.last().last(),
        entries_sorted(blocks.flatten()),
        entries_typed(blocks.flatten()),
        all_entries_wf(blocks.flatten()),
    decreases blocks.len(),
{
    let last = blocks.last();
    let front = blocks.drop_last();
    assert(blocks =~= front.push(last));
    front.lemma_flatten_push(last);
    let flat = blocks.flatten();
    if front.len() == 0 {
        assert(front.flatten() =~= Seq::<EntryView>::empty());
        assert(flat =~= last);
    } else {
        assert forall|i: int| 0 <= i < front.len() implies {
            &&& (#[trigger] front[i]).len() >= 1
            &&& entries_sorted(front[i])
            &&& entries_typed(front[i])
            &&& all_entries_wf(front[i])
        } by {
            assert(front[i] == blocks[i]);
        }
        assert forall|i: int| 0 <= i < front.len() - 1 implies #[trigger] block_follows(
            front,
            i,
        ) by {
            assert(block_follows(blocks, i));
            assert(front[i] == blocks[i]);
            assert(front[i + 1] == blocks[i + 1]);
        }
        lemma_flatten_in_order(front);
        let a = front.flatten();
        assert(flat =~= a + last);
        assert(block_follows(blocks, blocks.len() - 2));
        assert(front.last() == blocks[blocks.len() - 2]);
        let edge = a.last().key.key;
        assert(edge.lt(last[0].key.key));
        assert forall|i: int, j: int| 0 <= i < j < flat.len() implies (#[trigger] flat[i]).key.key.lt(
            (#[trigger] flat[j]).key.key,
        ) by {
            if j < a.len() {
                assert(flat[i] == a[i] && flat[j] == a[j]);
            } else if i >= a.len() {
                assert(flat[i] == last[i - a.len()] && flat[j] == last[j - a.len()]);
            } else {
                assert(flat[i] == a[i]);
                assert(flat[j] == last[j - a.len()]);
                if i < a.len() - 1 {
                    assert(a[i].key.key.lt(a[a.len() - 1].key.key));
                    a[i].key.key.lemma_lt_transitive(edge, last[0].key.key);
                }
                if j > a.len() {
                    assert(last[0].key.key.lt(last[j - a.len()].key.key));
                    flat[i].key.key.lemma_lt_transitive(last[0].key.key, flat[j].key.key);
                }
            }
        }
        assert forall|i: int| 0 <= i < flat.len() implies (#[trigger] flat[i]).key.key.op_type()
            <= 3 && flat[i].wf() by {
            if i < a.len() {
                assert(flat[i] == a[i]);
            } else {
                assert(flat[i] == last[i - a.len()]);
            }
        }
    }
}

/// The entries of a table in order are in strictly ascending key order, each
/// a put or a delete with a rightly framed key; the first has the table's
/// smallest key and the last its largest.
pub proof fn lemma_content_in_order(data: Seq<u8>)
    requires
        parse_table(data).is_some(),
        parse_table(data).unwrap().valid(),
    ensures
        ({
            let v = parse_table(data).unwrap();
            &&& v.content().len() >= 1
            &&& v.content()[0].key == v.min_key
            &&& v.content().last().key == v.max_key
            &&& entries_sorted(v.content())
            &&& entries_typed(v.content())
            &&& all_entries_wf(v.content())
        }),
{
    lemma_parse_table(data);
    let v = parse_table(data).unwrap();
    assert forall|i: int| 0 <= i < v.blocks.len() implies all_entries_wf(#[trigger] v.blocks[i]) by {
        assert(v.index[i].offset + v.index[i].length <= v.footer.index_block_addr);
        lemma_parsed_entries_wf(block_bytes(data, v.index[i]), 0);
    }
    lemma_flatten_in_order(v.blocks);
}

/// A sorted table: the bytes of its file and what was read from them.
#[derive(Debug)]
pub struct Table {
    file_num: u64,
    data: Vec<u8>,
    footer: Footer,
    index_block: Vec<IndexBlockEntry>,
    min_key: LookUpKey,
    max_key: LookUpKey,
}

impl View for Table {
    type V = TableView;

    /// What the table's image holds.
    closed spec fn view(&self) -> TableView {
        parse_table(self.image()).unwrap()
    }
}

impl Table {
    /// The number in the name of the table's file.
    pub closed spec fn id(&self) -> u64 {
        self.file_num
    }

    /// The bytes of the table's file.
    pub closed spec fn image(&self) -> Seq<u8> {
        self.data@
    }

    /// The image is a table's image, the table is in order, and what the
    /// table keeps beside the image is what the image holds.
    pub closed spec fn wf(&self) -> bool {
        &&& parse_table(self.data@).is_some()
        &&& self@.valid()
        &&& self.footer == self@.footer
        &&& index_view(self.index_block@) == self@.index
        &&& self.min_key@ == self@.min_key
        &&& self.max_key@ == self@.max_key
    }

    /// Tables with the same image hold the same.
    pub proof fn lemma_same_image(&self, other: &Table)
        requires
            self.image() == other.image(),
        ensures
            self@ == other@,
    {
    }

    /// A well-formed table's image is a table's image and the table is in order.
    pub proof fn lemma_wf(&self)
        requires
            self.wf(),
        ensures
            parse_table(self.image()) == Some(self@),
            self@.valid(),
    {
    }

    /// The level that the table belongs to.
    pub fn get_level(&self) -> (level: usize)
        requires
            self.wf(),
        ensures
            level == self@.footer.level,
    {
        self.footer.level
    }

    /// The length of the table's file.
    pub fn get_size(&self) -> (size: u64)
        ensures
            size == self.image().len(),
    {
        self.data.len() as u64
    }

    /// The number in the name of the table's file.
    pub fn get_file_num(&self) -> (file_num: u64)
        ensures
            file_num == self.id(),
    {
        self.file_num
    }

    /// The largest sequence number in the table, as its footer records it.
    pub fn get_last_seq_num(&self) -> (seq_num: u64)
        requires
            self.wf(),
        ensures
            seq_num == self@.footer.last_seq_num,
    {
        self.footer.last_seq_num
    }

    /// The table's smallest key.
    pub fn get_min_key(&self) -> (key: &LookUpKey)
        requires
            self.wf(),
        ensures
            key@ == self@.min_key,
    {
        &self.min_key
    }

    /// The table's largest key.
    pub fn get_max_key(&self) -> (key: &LookUpKey)
        requires
            self.wf(),
        ensures
            key@ == self@.max_key,
    {
        &self.max_key
    }

    /// The bytes of the table's file.
    pub fn get_data(&self) -> (data: &[u8])
        ensures
            data@ == self.image(),
    {
        self.data.as_slice()
    }

    /// The entries of the block that index entry `i` points at.
    fn read_block(&self, i: usize) -> (block: Vec<DataBlockEntry>)
        requires
            self.wf(),
            i < self@.index.len(),
        ensures
            block_view(block@) == self@.blocks[i as int],
    {
        let entry = &self.index_block[i];
        assert(entry@ == index_view(self.index_block@)[i as int]);
        assert(entry@ == self@.index[i as int]);
        let ghost want = self@.blocks[i as int];
        let total: usize = self.data.len();
        proof {
            lemma_parse_table(self.data@);
            assert(self@.index[i as int].offset + self@.index[i as int].length
                <= self@.footer.index_block_addr);
            assert(self@.footer.index_block_addr <= total);
            assert(entry.offset + entry.length <= total);
        }
        let from: usize = entry.offset as usize;
        let to: usize = (entry.offset + entry.length) as usize;
        let bytes = copy_range(self.data.as_slice(), from, to);
        assert(bytes@ == block_bytes(self.data@, entry@));
        match read_entries(bytes.as_slice()) {
            Some(block) => block,
            // a well-formed table's blocks split into entries
            None => Vec::new(),
        }
    }

    /// In a well-formed table the entries are in strictly ascending key
    /// order, each a put or a delete with a rightly framed key; the first has
    /// the table's smallest key and the last its largest.
    pub proof fn lemma_content(&self)
        requires
            self.wf(),
        ensures
            self@.content().len() >= 1,
            self@.content()[0].key == self@.min_key,
            self@.content().last().key == self@.max_key,
            entries_sorted(self@.content()),
            entries_typed(self@.content()),
            all_entries_wf(self@.content()),
    {
        lemma_content_in_order(self.data@);
    }

    /// In a well-formed table the table is in order and the entries of every
    /// block have rightly framed keys.
    pub proof fn lemma_blocks(&self)
        requires
            self.wf(),
        ensures
            self@.valid(),
            forall|i: int| 0 <= i < self@.blocks.len() ==> all_entries_wf(#[trigger] self@.blocks[i]),
    {
        lemma_parse_table(self.data@);
        let v = self@;
        assert forall|i: int| 0 <= i < v.blocks.len() implies all_entries_wf(#[trigger] v.blocks[i]) by {
            assert(v.index[i].offset + v.index[i].length <= v.footer.index_block_addr);
            lemma_parsed_entries_wf(block_bytes(self.data@, v.index[i]), 0);
        }
    }

    /// All entries of the table, in the order of its blocks.
    pub fn content(&self) -> (res: Vec<(LookUpKey, Vec<u8>)>)
        requires
            self.wf(),
        ensures
            pairs_view(res@) == self@.content(),
    {
        let mut res: Vec<(LookUpKey, Vec<u8>)> = Vec::new();
        let n: usize = self.index_block.len();
        assert(index_view(self.index_block@).len() == n);
        let mut i: usize = 0;
        assert(pairs_view(res@) =~= Seq::<EntryView>::empty());
        assert(self@.blocks.take(0) =~= Seq::<Seq<EntryView>>::empty());
        while i < n
            invariant
                self.wf(),
                n == self@.index.len(),
                n == self@.blocks.len(),
                i <= n,
                pairs_view(res@) == self@.blocks.take(i as int).flatten(),
            decreases n - i,
        {
            let mut block = self.read_block(i);
            let ghost done = pairs_view(res@);
            let ghost whole = block_view(block@);
            let m: usize = block.len();
            let mut j: usize = 0;
            assert(whole.take(0) =~= Seq::<EntryView>::empty());
            assert(done + Seq::<EntryView>::empty() =~= done);
            while j < m
                invariant
                    j <= m,
                    m == block@.len(),
                    block_view(block@) == whole,
                    pairs_view(res@) == done + whole.take(j as int),
                decreases m - j,
            {
                let key = block[j].look_up_key.duplicate();
                let value = copy_bytes(block[j].value.as_slice());
                proof {
                    let e = EntryView { key: key@, value: value@ };
                    assert(e == whole[j as int]);
                    assert(pairs_view(res@.push((key, value))) =~= pairs_view(res@).push(e));
                    assert(whole.take(j as int + 1) =~= whole.take(j as int).push(e));
                    assert((done + whole.take(j as int)).push(e) =~= done + whole.take(
                        j as int + 1,
                    ));
                }
                res.push((key, value));
                j = j + 1;
            }
            proof {
                assert(whole.take(m as int) =~= whole);
                let blocks = self@.blocks;
                assert(blocks.take(i as int + 1) =~= blocks.take(i as int).push(blocks[i as int]));
                blocks.take(i as int).lemma_flatten_push(blocks[i as int]);
            }
            i = i + 1;
        }
        assert(self@.blocks.take(n as int) =~= self@.blocks);
        res
    }

    /// Looks `key` up as of `seq_num`: `Some(Some(value))` where the table
    /// holds a put for it, `Some(None)` where it holds a delete, `None` where
    /// it holds neither.
    pub fn search(&self, key: &[u8], seq_num: u64) -> (res: Option<Option<Vec<u8>>>)
        requires
            self.wf(),
        ensures
            match self@.lookup(key@, seq_num) {
                Some(Some(v)) => res.is_some() && res.unwrap().is_some() && res.unwrap().unwrap()@
                    == v,
                Some(None) => res == Some(None::<Vec<u8>>),
                None => res.is_none(),
            },
    {
        let target = InternalKey::new(key, seq_num, 1);
        assert(target@ == target_key(key@, seq_num));
        let n: usize = self.index_block.len();
        let ghost index = self@.index;
        assert(index_view(self.index_block@).len() == n);
        // the first index entry whose key does not sort before the target
        let mut lo: usize = 0;
        let mut hi: usize = n;
        while lo < hi
            invariant
                self.wf(),
                index == self@.index,
                n == index.len(),
                n == self.index_block@.len(),
                lo <= hi <= n,
                forall|k: int| 0 <= k < lo ==> (#[trigger] index[k]).max_key.key.lt(target@),
                forall|k: int| hi <= k < n ==> !(#[trigger] index[k]).max_key.key.lt(target@),
            decreases hi - lo,
        {
            let mid: usize = lo + (hi - lo) / 2;
            assert(self.index_block@[mid as int]@ == index_view(self.index_block@)[mid as int]);
            if self.index_block[mid].max_key.internal_key.sorts_before(&target) {
                proof {
                    assert forall|k: int| 0 <= k < mid + 1 implies (#[trigger] index[k]).max_key.key.lt(
                        target@,
                    ) by {
                        lemma_index_sorted(self@, k, mid as int);
                        let a = index[k].max_key.key;
                        let b = index[mid as int].max_key.key;
                        if a.lt(b) {
                            a.lemma_lt_transitive(b, target@);
                        }
                    }
                }
                lo = mid + 1;
            } else {
                proof {
                    assert forall|k: int| mid <= k < n implies !(#[trigger] index[k]).max_key.key.lt(
                        target@,
                    ) by {
                        lemma_index_sorted(self@, mid as int, k);
                        let a = index[mid as int].max_key.key;
                        let b = index[k].max_key.key;
                        if b.lt(target@) {
                            if a.lt(b) {
                                a.lemma_lt_transitive(b, target@);
                            }
                        }
                    }
                }
                hi = mid;
            }
        }
        proof {
            lemma_first_block_for(index, target@, lo as int);
        }
        if lo >= n {
            return None;
        }
        let block = self.read_block(lo);
        let ghost whole = block_view(block@);
        let m: usize = block.len();
        let mut j: usize = 0;
        assert(whole.skip(0) =~= whole);
        proof {
            lemma_parse_table(self.data@);
        }
        while j < m
            invariant
                j <= m,
                m == block@.len(),
                block_view(block@) == whole,
                target@ == target_key(key@, seq_num),
                lo < self@.blocks.len(),
                whole == self@.blocks[lo as int],
                first_block_for(self@.index, target@) == lo,
                scan_block(whole, target@, key@) == scan_block(
                    whole.skip(j as int),
                    target@,
                    key@,
                ),
            decreases m - j,
        {
            let e = &block[j];
            proof {
                assert(e@ == whole[j as int]);
                assert(whole.skip(j as int)[0] == whole[j as int]);
                assert(whole.skip(j as int).drop_first() =~= whole.skip(j as int + 1));
            }
            if target.sorts_at_or_before(&e.look_up_key.internal_key) && bytes_equal(
                e.look_up_key.get_user_key(),
                key,
            ) {
                let op: u8 = e.look_up_key.get_type();
                if op == 0 || op == 2 {
                    return Some(Some(copy_bytes(e.value.as_slice())));
                } else {
                    return Some(None);
                }
            }
            j = j + 1;
        }
        None
    }
}

/// The views of a run of data block entries.
pub open spec fn block_view(block: Seq<DataBlockEntry>) -> Seq<EntryView> {
    block.map_values(|e: DataBlockEntry| e@)
}

/// `at` is the first place in `index` whose key does not sort before `target`.
pub proof fn lemma_first_block_for(index: Seq<IndexEntryView>, target: KeyView, at: int)
    requires
        0 <= at <= index.len(),
        forall|k: int| 0 <= k < at ==> (#[trigger] index[k]).max_key.key.lt(target),
        at < index.len() ==> !index[at].max_key.key.lt(target),
    ensures
        first_block_for(index, target) == at,
    decreases index.len(),
{
    if index.len() > 0 && at > 0 {
        let rest = index.drop_first();
        assert(index[0].max_key.key.lt(target));
        assert forall|k: int| 0 <= k < at - 1 implies (#[trigger] rest[k]).max_key.key.lt(
            target,
        ) by {
            assert(rest[k] == index[k + 1]);
        }
        lemma_first_block_for(rest, target, at - 1);
    }
}

/// The entries of the block that the index entry `e` points at.
pub open spec fn block_of(data: Seq<u8>, e: IndexEntryView) -> Seq<EntryView> {
    parse_entries(block_bytes(data, e), 0).unwrap()
}

/// The block that `e` points at lies before `limit`, splits into whole
/// entries, is not empty, is in strictly ascending key order, holds puts and
/// deletes only and ends
/// with the key that `e` names.
pub open spec fn block_ok(data: Seq<u8>, e: IndexEntryView, limit: int) -> bool {
    &&& e.offset + e.length <= limit
    &&& parse_entries(block_bytes(data, e), 0).is_some()
    &&& block_of(data, e).len() >= 1
    &&& entries_sorted(block_of(data, e))
    &&& entries_typed(block_of(data, e))
    &&& e.max_key == block_of(data, e).last().key
}

/// The last key of the block that index entry `i` points at sorts strictly
/// before the first key of the block that the next entry points at.
pub open spec fn index_follows(data: Seq<u8>, index: Seq<IndexEntryView>, i: int) -> bool {
    block_of(data, index[i]).last().key.key.lt(block_of(data, index[i + 1])[0].key.key)
}

/// The footer, the index block and the end keys of `data` are these.
pub open spec fn table_frame(
    data: Seq<u8>,
    footer: Footer,
    index: Seq<IndexEntryView>,
    min_key: LookUpKeyView,
    max_key: LookUpKeyView,
) -> bool {
    &&& Footer::parse(data) == Some(footer)
    &&& footer.index_block_addr <= footer.min_key_addr <= footer.max_key_addr <= footer.foot_addr
    &&& footer.meta_index_block_addr == footer.index_block_addr
    &&& parse_index(
        data.subrange(footer.index_block_addr as int, footer.min_key_addr as int),
        0,
    ) == Some(index)
    &&& parse_key_exact(data.subrange(footer.min_key_addr as int, footer.max_key_addr as int))
        == Some(min_key)
    &&& parse_key_exact(data.subrange(footer.max_key_addr as int, footer.foot_addr as int))
        == Some(max_key)
}

/// An image with a block that is not in order is no image of a table in order.
proof fn lemma_bad_block(
    data: Seq<u8>,
    footer: Footer,
    index: Seq<IndexEntryView>,
    min_key: LookUpKeyView,
    max_key: LookUpKeyView,
    k: int,
)
    requires
        table_frame(data, footer, index, min_key, max_key),
        0 <= k < index.len(),
        !block_ok(data, index[k], footer.index_block_addr as int),
    ensures
        !(parse_table(data).is_some() && parse_table(data).unwrap().valid()),
{
    if parse_table(data).is_some() {
        lemma_parse_table(data);
        let v = parse_table(data).unwrap();
        assert(v.index == index);
        assert(v.blocks[k] == block_of(data, index[k]));
        assert(index[k].offset + index[k].length <= footer.index_block_addr);
    }
}

/// An image whose blocks or end keys do not follow one another in order is
/// no image of a table in order.
proof fn lemma_bad_order(
    data: Seq<u8>,
    footer: Footer,
    index: Seq<IndexEntryView>,
    min_key: LookUpKeyView,
    max_key: LookUpKeyView,
    k: int,
)
    requires
        table_frame(data, footer, index, min_key, max_key),
        0 <= k < index.len(),
        block_ok(data, index[k], footer.index_block_addr as int),
        ({
            ||| k == 0 && min_key != block_of(data, index[0])[0].key
            ||| k > 0 && block_ok(data, index[k - 1], footer.index_block_addr as int) && !block_of(
                data,
                index[k - 1],
            ).last().key.key.lt(block_of(data, index[k])[0].key.key)
            ||| k == index.len() - 1 && max_key != block_of(data, index[k]).last().key
        }),
    ensures
        !(parse_table(data).is_some() && parse_table(data).unwrap().valid()),
{
    if parse_table(data).is_some() {
        lemma_parse_table(data);
        let v = parse_table(data).unwrap();
        assert(v.index == index);
        assert(v.blocks[k] == block_of(data, index[k]));
        if k > 0 {
            assert(v.blocks[k - 1] == block_of(data, index[k - 1]));
            assert(v.valid() ==> block_follows(v.blocks, k - 1));
        }
        assert(v.blocks[0] == block_of(data, index[0]));
    }
}

/// An image whose blocks are each in order and follow one another in order,
/// from the smallest key to the largest, is the image of a table in order.
proof fn lemma_good_table(
    data: Seq<u8>,
    footer: Footer,
    index: Seq<IndexEntryView>,
    min_key: LookUpKeyView,
    max_key: LookUpKeyView,
)
    requires
        table_frame(data, footer, index, min_key, max_key),
        index.len() >= 1,
        forall|i: int|
            0 <= i < index.len() ==> block_ok(
                data,
                #[trigger] index[i],
                footer.index_block_addr as int,
            ),
        forall|i: int| 0 <= i < index.len() - 1 ==> #[trigger] index_follows(data, index, i),
        min_key == block_of(data, index[0])[0].key,
        max_key == block_of(data, index[index.len() - 1]).last().key,
    ensures
        parse_table(data).is_some(),
        parse_table(data).unwrap().valid(),
        parse_table(data).unwrap().footer == footer,
        parse_table(data).unwrap().index == index,
        parse_table(data).unwrap().min_key == min_key,
        parse_table(data).unwrap().max_key == max_key,
{
    assert(blocks_readable(data, index, footer.index_block_addr as int)) by {
        assert forall|i: int| 0 <= i < index.len() implies {
            &&& (#[trigger] index[i]).offset + index[i].length <= footer.index_block_addr as int
            &&& parse_entries(block_bytes(data, index[i]), 0).is_some()
        } by {
            assert(block_ok(data, index[i], footer.index_block_addr as int));
        }
    }
    assert(parse_table(data).is_some());
    lemma_parse_table(data);
    let v = parse_table(data).unwrap();
    assert forall|i: int| 0 <= i < v.blocks.len() implies {
        &&& (#[trigger] v.blocks[i]).len() >= 1
        &&& entries_sorted(v.blocks[i])
        &&& entries_typed(v.blocks[i])
        &&& v.index[i].max_key == v.blocks[i].last().key
    } by {
        assert(block_ok(data, index[i], footer.index_block_addr as int));
        assert(v.blocks[i] == block_of(data, index[i]));
    }
    assert forall|i: int| 0 <= i < v.blocks.len() - 1 implies #[trigger] block_follows(
        v.blocks,
        i,
    ) by {
        assert(v.blocks[i] == block_of(data, index[i]));
        assert(v.blocks[i + 1] == block_of(data, index[i + 1]));
        assert(index_follows(data, index, i));
    }
    assert(v.blocks[0] == block_of(data, index[0]));
    assert(v.blocks[index.len() - 1] == block_of(data, index[index.len() - 1]));
}

/// Reads the block that `e` points at and checks that it is in order.
fn open_block(data: &[u8], e: &IndexBlockEntry, limit: usize) -> (res: Option<Vec<DataBlockEntry>>)
    requires
        limit <= data@.len(),
    ensures
        match res {
            Some(b) => block_ok(data@, e@, limit as int) && block_view(b@) == block_of(data@, e@),
            None => !block_ok(data@, e@, limit as int),
        },
{
    if e.offset > limit as u64 || e.length > limit as u64 - e.offset {
        return None;
    }
    let from: usize = e.offset as usize;
    let to: usize = (e.offset + e.length) as usize;
    let bytes = copy_range(data, from, to);
    assert(bytes@ == block_bytes(data@, e@));
    let block = match read_entries(bytes.as_slice()) {
        Some(b) => b,
        None => {
            return None;
        },
    };
    let m: usize = block.len();
    if m == 0 || !block_in_order(&block) {
        return None;
    }
    assert(block@[m - 1]@ == block_view(block@)[m - 1]);
    if !same_key(&e.max_key, &block[m - 1].look_up_key) {
        return None;
    }
    Some(block)
}

impl Table {
    /// Reads a table back from the bytes of its file. `None` where the bytes
    /// are no table's image or the table that they hold is not in order.
    pub fn open(file_num: u64, data: Vec<u8>) -> (res: Option<Table>)
        ensures
            res.is_some() <==> (parse_table(data@).is_some() && parse_table(data@).unwrap().valid()),
            res matches Some(t) ==> t.wf() && t.image() == data@ && t.id() == file_num && t@
                == parse_table(data@).unwrap(),
    {
        let footer = match Footer::decode_from(data.as_slice()) {
            Some(f) => f,
            None => {
                return None;
            },
        };
        if footer.index_block_addr > footer.min_key_addr || footer.min_key_addr
            > footer.max_key_addr || footer.max_key_addr > footer.foot_addr
            || footer.meta_index_block_addr != footer.index_block_addr {
            return None;
        }
        let total: usize = data.len();
        let index_at: usize = footer.index_block_addr as usize;
        let min_at: usize = footer.min_key_addr as usize;
        let max_at: usize = footer.max_key_addr as usize;
        let foot_at: usize = footer.foot_addr as usize;
        let index_bytes = copy_range(data.as_slice(), index_at, min_at);
        let index_block = match read_index(index_bytes.as_slice()) {
            Some(ix) => ix,
            None => {
                return None;
            },
        };
        let min_bytes = copy_range(data.as_slice(), min_at, max_at);
        let min_key = match read_key_exact(min_bytes.as_slice()) {
            Some(k) => k,
            None => {
                return None;
            },
        };
        let max_bytes = copy_range(data.as_slice(), max_at, foot_at);
        let max_key = match read_key_exact(max_bytes.as_slice()) {
            Some(k) => k,
            None => {
                return None;
            },
        };
        let n: usize = index_block.len();
        let ghost index = index_view(index_block@);
        assert(table_frame(data@, footer, index, min_key@, max_key@));
        if n == 0 {
            return None;
        }
        let mut prev_last: LookUpKey = min_key.duplicate();
        let mut k: usize = 0;
        while k < n
            invariant
                k <= n,
                n == index_block@.len(),
                index == index_view(index_block@),
                index_at <= data@.len(),
                index_at == footer.index_block_addr,
                table_frame(data@, footer, index, min_key@, max_key@),
                forall|i: int|
                    0 <= i < k ==> block_ok(data@, #[trigger] index[i], index_at as int),
                forall|i: int| 0 <= i < k - 1 ==> #[trigger] index_follows(data@, index, i),
                k > 0 ==> prev_last@ == block_of(data@, index[k - 1]).last().key,
                k > 0 ==> min_key@ == block_of(data@, index[0])[0].key,
            decreases n - k,
        {
            let e = &index_block[k];
            assert(e@ == index[k as int]);
            let block = match open_block(data.as_slice(), e, index_at) {
                Some(b) => b,
                None => {
                    proof {
                        lemma_bad_block(data@, footer, index, min_key@, max_key@, k as int);
                    }
                    return None;
                },
            };
            let m: usize = block.len();
            assert(block@[m - 1]@ == block_view(block@)[m - 1]);
            assert(block@[0]@ == block_view(block@)[0]);
            let ok = if k == 0 {
                same_key(&min_key, &block[0].look_up_key)
            } else {
                prev_last.sorts_before(&block[0].look_up_key)
            };
            if !ok {
                proof {
                    lemma_bad_order(data@, footer, index, min_key@, max_key@, k as int);
                }
                return None;
            }
            proof {
                if k > 0 {
                    assert(index_follows(data@, index, k as int - 1));
                }
            }
            prev_last = block[m - 1].look_up_key.duplicate();
            k = k + 1;
        }
        if !same_key(&max_key, &prev_last) {
            proof {
                lemma_bad_order(data@, footer, index, min_key@, max_key@, n as int - 1);
            }
            return None;
        }
        proof {
            lemma_good_table(data@, footer, index, min_key@, max_key@);
        }
        Some(Table { file_num, data, footer, index_block, min_key, max_key })
    }
}

/// The bytes of the image of a table: the entries, the index block, the
/// smallest key, the largest key and the footer, one after the other.
pub open spec fn table_image(v: TableView) -> Seq<u8> {
    encode_entries(v.content()) + encode_index(v.index) + v.min_key.encoding()
        + v.max_key.encoding() + v.footer.encoding()
}

/// Where a table's blocks end: every block but the last is longer than
/// `block_size`, and no block is longer than that without its last entry.
pub open spec fn blocks_cut_at(blocks: Seq<Seq<EntryView>>, block_size: nat) -> bool {
    &&& forall|k: int|
        0 <= k < blocks.len() ==> encode_entries((#[trigger] blocks[k]).drop_last()).len()
            <= block_size
    &&& forall|k: int|
        0 <= k < blocks.len() - 1 ==> encode_entries(#[trigger] blocks[k]).len() > block_size
}

/// Where the parts of a table's image lie: the blocks one after the other
/// from the start, then the index block, the smallest key, the largest key
/// and the footer.
pub open spec fn laid_out(v: TableView) -> bool {
    &&& v.index.len() == v.blocks.len()
    &&& v.index.len() >= 1
    &&& v.index[0].offset == 0
    &&& forall|k: int|
        0 <= k < v.index.len() ==> (#[trigger] v.index[k]).length == encode_entries(
            v.blocks[k],
        ).len()
    &&& forall|k: int| 0 <= k < v.index.len() - 1 ==> #[trigger] offset_follows(v.index, k)
    &&& v.footer.index_block_addr == v.index.last().offset + v.index.last().length
    &&& v.footer.meta_index_block_addr == v.footer.index_block_addr
    &&& v.footer.min_key_addr == v.footer.index_block_addr + encode_index(v.index).len()
    &&& v.footer.max_key_addr == v.footer.min_key_addr + v.min_key.encoding().len()
    &&& v.footer.foot_addr == v.footer.max_key_addr + v.max_key.encoding().len()
}

/// A run of well-formed entries that is not empty has bytes.
pub proof fn lemma_encode_entries_nonempty(entries: Seq<EntryView>)
    requires
        all_entries_wf(entries),
        entries.len() > 0,
    ensures
        encode_entries(entries).len() >= 24,
{
    entries[0].lemma_parse_encoding(Seq::<u8>::empty(), Seq::<u8>::empty());
}

/// The state of a table under construction: block `k` is the run of entries
/// between two bounds, its bytes lie in `buf` where its index entry says, and
/// the blocks follow one another from the start of `buf` to its end.
pub open spec fn block_built(
    buf: Seq<u8>,
    index: Seq<IndexEntryView>,
    blocks: Seq<Seq<EntryView>>,
    bounds: Seq<int>,
    all: Seq<EntryView>,
    k: int,
) -> bool {
    &&& 0 <= bounds[k] < bounds[k + 1] <= all.len()
    &&& blocks[k] == all.subrange(bounds[k], bounds[k + 1])
    &&& index[k].max_key == all[bounds[k + 1] - 1].key
    &&& index[k].length == encode_entries(blocks[k]).len()
    &&& index[k].offset + index[k].length <= buf.len()
    &&& buf.subrange(index[k].offset as int, index[k].offset + index[k].length) == encode_entries(
        blocks[k],
    )
    &&& k == 0 ==> index[k].offset == 0
    &&& k > 0 ==> index[k].offset == index[k - 1].offset + index[k - 1].length
    &&& k == blocks.len() - 1 ==> index[k].offset + index[k].length == buf.len()
}

/// The state of a table under construction: every block is built, and the
/// bounds start at the first entry.
pub open spec fn blocks_built(
    buf: Seq<u8>,
    index: Seq<IndexEntryView>,
    blocks: Seq<Seq<EntryView>>,
    bounds: Seq<int>,
    all: Seq<EntryView>,
) -> bool {
    &&& index.len() == blocks.len()
    &&& bounds.len() == blocks.len() + 1
    &&& bounds[0] == 0
    &&& blocks.len() == 0 ==> buf.len() == 0
    &&& forall|k: int| 0 <= k < blocks.len() ==> #[trigger] block_built(buf, index, blocks, bounds, all, k)
}

/// Closing a block keeps the blocks built: the block's bytes go behind `buf`
/// and its index entry behind the index.
pub proof fn lemma_close_block(
    buf: Seq<u8>,
    index: Seq<IndexEntryView>,
    blocks: Seq<Seq<EntryView>>,
    bounds: Seq<int>,
    all: Seq<EntryView>,
    end: int,
    e: IndexEntryView,
)
    requires
        blocks_built(buf, index, blocks, bounds, all),
        bounds.last() < end <= all.len(),
        e.max_key == all[end - 1].key,
        e.offset == buf.len(),
        e.length == encode_entries(all.subrange(bounds.last(), end)).len(),
    ensures
        blocks_built(
            buf + encode_entries(all.subrange(bounds.last(), end)),
            index.push(e),
            blocks.push(all.subrange(bounds.last(), end)),
            bounds.push(end),
            all,
        ),
{
    let block = all.subrange(bounds.last(), end);
    let buf2 = buf + encode_entries(block);
    let index2 = index.push(e);
    let blocks2 = blocks.push(block);
    let bounds2 = bounds.push(end);
    let n = blocks.len() as int;
    assert forall|k: int| 0 <= k < blocks2.len() implies #[trigger] block_built(
        buf2,
        index2,
        blocks2,
        bounds2,
        all,
        k,
    ) by {
        if k < n {
            assert(block_built(buf, index, blocks, bounds, all, k));
            assert(buf2.subrange(index[k].offset as int, index[k].offset + index[k].length)
                =~= buf.subrange(index[k].offset as int, index[k].offset + index[k].length));
        } else {
            if n > 0 {
                assert(block_built(buf, index, blocks, bounds, all, n - 1));
            }
            assert(buf2.subrange(e.offset as int, e.offset + e.length) =~= encode_entries(block));
        }
    }
}

/// The bytes of the entry made of `key` and `value`.
pub fn encode_pair(key: &LookUpKey, value: &[u8]) -> (bytes: Vec<u8>)
    ensures
        bytes@ == (EntryView { key: key@, value: value@ }).encoding(),
{
    let mut buf = key.encode_to();
    crate::utils::put_u64(&mut buf, value.len() as u64);
    put_bytes(&mut buf, value);
    buf
}

/// The data blocks of a table under construction, with their index.
struct Built {
    buf: Vec<u8>,
    index_block: Vec<IndexBlockEntry>,
    last_seq_num: u64,
    blocks: Ghost<Seq<Seq<EntryView>>>,
    bounds: Ghost<Seq<int>>,
}

/// Cuts the entries into data blocks and writes the blocks one after the
/// other.
fn build_blocks(data: &Vec<(LookUpKey, Vec<u8>)>, block_size: usize) -> (built: Built)
    requires
        data@.len() > 0,
        all_entries_wf(pairs_view(data@)),
    ensures
        blocks_built(
            built.buf@,
            index_view(built.index_block@),
            built.blocks@,
            built.bounds@,
            pairs_view(data@),
        ),
        built.blocks@.len() >= 1,
        built.bounds@.last() == data@.len(),
        built.blocks@.flatten() == pairs_view(data@),
        built.buf@ == encode_entries(pairs_view(data@)),
        blocks_cut_at(built.blocks@, block_size as nat),
        built.last_seq_num == max_seq_num(pairs_view(data@)),
{
    let n: usize = data.len();
    let ghost all = pairs_view(data@);
    let mut buf: Vec<u8> = Vec::new();
    let mut index_block: Vec<IndexBlockEntry> = Vec::new();
    let mut data_block: Vec<u8> = Vec::new();
    let mut last_seq_num: u64 = 0;
    let ghost mut blocks: Seq<Seq<EntryView>> = Seq::empty();
    let ghost mut bounds: Seq<int> = seq![0int];
    let mut i: usize = 0;
    proof {
        assert(all.subrange(0, 0) =~= Seq::<EntryView>::empty());
        assert(all.take(0) =~= Seq::<EntryView>::empty());
        assert(blocks.flatten() =~= Seq::<EntryView>::empty());
    }
    while i < n
        invariant
            n == data@.len(),
            all == pairs_view(data@),
            i <= n,
            all_entries_wf(all),
            bounds.len() >= 1,
            0 <= bounds.last() <= i,
            last_seq_num == max_seq_num(all.take(i as int)),
            data_block@ == encode_entries(all.subrange(bounds.last(), i as int)),
            buf@ + data_block@ == encode_entries(all.take(i as int)),
            data_block@.len() <= block_size,
            blocks.flatten() == all.take(bounds.last()),
            blocks_built(buf@, index_view(index_block@), blocks, bounds, all),
            blocks_cut_at(blocks, block_size as nat),
            forall|k: int|
                0 <= k < blocks.len() ==> encode_entries(#[trigger] blocks[k]).len() > block_size,
        decreases n - i,
    {
        let key = &data[i].0;
        let value = &data[i].1;
        let ghost start = bounds.last();
        let ghost cur = all.subrange(start, i as int);
        let ghost cur2 = all.subrange(start, i as int + 1);
        let ghost e = all[i as int];
        assert(e == (EntryView { key: key@, value: value@ }));
        let s: u64 = key.get_seq_num();
        if s > last_seq_num {
            last_seq_num = s;
        }
        let entry_bytes = encode_pair(key, value.as_slice());
        let ghost written = buf@ + data_block@;
        put_bytes(&mut data_block, entry_bytes.as_slice());
        proof {
            assert(cur2 =~= cur.push(e));
            lemma_encode_entries_push(cur, e);
            lemma_encode_entries_push(all.take(i as int), e);
            assert(all.take(i as int + 1) =~= all.take(i as int).push(e));
            assert(buf@ + data_block@ =~= written + e.encoding());
            assert(all.take(i as int + 1).drop_last() =~= all.take(i as int));
            assert(all.take(i as int + 1).last() == e);
            assert(cur2.drop_last() =~= cur);
        }
        if data_block.len() > block_size {
            let offset: u64 = buf.len() as u64;
            let length: u64 = data_block.len() as u64;
            let ghost old_index = index_view(index_block@);
            let entry = IndexBlockEntry::new(key.duplicate(), offset, length);
            proof {
                lemma_close_block(buf@, old_index, blocks, bounds, all, i as int + 1, entry@);
                assert(index_view(index_block@.push(entry)) =~= old_index.push(entry@));
                blocks.lemma_flatten_push(cur2);
                assert(all.take(start) + cur2 =~= all.take(i as int + 1));
                lemma_cut_push(blocks, cur2, block_size as nat);
            }
            let ghost whole = buf@ + data_block@;
            index_block.push(entry);
            buf.append(&mut data_block);
            proof {
                blocks = blocks.push(cur2);
                bounds = bounds.push(i as int + 1);
                assert(all.subrange(i as int + 1, i as int + 1) =~= Seq::<EntryView>::empty());
                assert(buf@ + data_block@ =~= whole);
            }
        }
        i = i + 1;
    }
    if data_block.len() > 0 {
        let ghost start = bounds.last();
        let ghost cur = all.subrange(start, n as int);
        let offset: u64 = buf.len() as u64;
        let length: u64 = data_block.len() as u64;
        let ghost old_index = index_view(index_block@);
        let entry = IndexBlockEntry::new(data[n - 1].0.duplicate(), offset, length);
        proof {
            assert(start < n);
            lemma_close_block(buf@, old_index, blocks, bounds, all, n as int, entry@);
            assert(index_view(index_block@.push(entry)) =~= old_index.push(entry@));
            blocks.lemma_flatten_push(cur);
            assert(all.take(start) + cur =~= all.take(n as int));
            lemma_encode_entries_push(cur.drop_last(), cur.last());
            assert(cur.drop_last().push(cur.last()) =~= cur);
            lemma_cut_last(blocks, cur, block_size as nat);
        }
        let ghost whole = buf@ + data_block@;
        index_block.push(entry);
        buf.append(&mut data_block);
        proof {
            blocks = blocks.push(cur);
            bounds = bounds.push(n as int);
            assert(buf@ =~= whole);
        }
    } else {
        assert(buf@ + data_block@ =~= buf@);
        proof {
            let start = bounds.last();
            if start < n {
                let cur = all.subrange(start, n as int);
                assert forall|j: int| 0 <= j < cur.len() implies (#[trigger] cur[j]).wf() by {
                    assert(cur[j] == all[start + j]);
                }
                lemma_encode_entries_nonempty(cur);
            }
            assert(start == n);
        }
    }
    proof {
        assert(all.take(n as int) =~= all);
        if blocks.len() == 0 {
            assert(bounds[0] == 0);
            assert(bounds.last() == bounds[0]);
        }
    }
    Built { buf, index_block, last_seq_num, blocks: Ghost(blocks), bounds: Ghost(bounds) }
}

/// Blocks that are all longer than the block size stay cut rightly when one
/// more block that is longer goes behind them.
proof fn lemma_cut_push(blocks: Seq<Seq<EntryView>>, block: Seq<EntryView>, block_size: nat)
    requires
        blocks_cut_at(blocks, block_size),
        forall|k: int| 0 <= k < blocks.len() ==> encode_entries(#[trigger] blocks[k]).len() > block_size,
        encode_entries(block.drop_last()).len() <= block_size,
        encode_entries(block).len() > block_size,
    ensures
        blocks_cut_at(blocks.push(block), block_size),
        forall|k: int|
            0 <= k < blocks.push(block).len() ==> encode_entries(#[trigger] blocks.push(block)[k]).len()
                > block_size,
{
    let next = blocks.push(block);
    assert forall|k: int| 0 <= k < next.len() implies encode_entries(
        (#[trigger] next[k]).drop_last(),
    ).len() <= block_size && encode_entries(next[k]).len() > block_size by {
        if k < blocks.len() {
            assert(next[k] == blocks[k]);
        }
    }
}

/// Blocks that are all longer than the block size stay cut rightly when a
/// last block that is not longer without its last entry goes behind them.
proof fn lemma_cut_last(blocks: Seq<Seq<EntryView>>, block: Seq<EntryView>, block_size: nat)
    requires
        blocks_cut_at(blocks, block_size),
        forall|k: int| 0 <= k < blocks.len() ==> encode_entries(#[trigger] blocks[k]).len() > block_size,
        encode_entries(block.drop_last()).len() <= block_size,
    ensures
        blocks_cut_at(blocks.push(block), block_size),
{
    let next = blocks.push(block);
    assert forall|k: int| 0 <= k < next.len() implies encode_entries(
        (#[trigger] next[k]).drop_last(),
    ).len() <= block_size by {
        if k < blocks.len() {
            assert(next[k] == blocks[k]);
        }
    }
    assert forall|k: int| 0 <= k < next.len() - 1 implies encode_entries(#[trigger] next[k]).len()
        > block_size by {
        assert(next[k] == blocks[k]);
    }
}

/// Writes the index block behind the data blocks.
fn append_index(buf: &mut Vec<u8>, index_block: &Vec<IndexBlockEntry>)
    ensures
        final(buf)@ == old(buf)@ + encode_index(index_view(index_block@)),
{
    let ghost body = buf@;
    let ghost index = index_view(index_block@);
    let mut k: usize = 0;
    proof {
        assert(index.take(0) =~= Seq::<IndexEntryView>::empty());
        assert(body + encode_index(index.take(0)) =~= body);
    }
    while k < index_block.len()
        invariant
            k <= index_block@.len(),
            index == index_view(index_block@),
            buf@ == body + encode_index(index.take(k as int)),
        decreases index_block@.len() - k,
    {
        let bytes = index_block[k].encode_to();
        proof {
            assert(index_block@[k as int]@ == index[k as int]);
            lemma_encode_index_push(index.take(k as int), index[k as int]);
            assert(index.take(k as int + 1) =~= index.take(k as int).push(index[k as int]));
            assert(buf@ + bytes@ =~= body + encode_index(index.take(k as int + 1)));
        }
        put_bytes(buf, bytes.as_slice());
        k = k + 1;
    }
    proof {
        assert(index.take(k as int) =~= index);
    }
}

impl Table {
    /// Builds the table that holds the entries of `data` at `level`, in
    /// blocks cut at `block_size`. The entries must come in strictly
    /// ascending key order, there must be one at least, and each must be a
    /// put or a delete with a rightly framed key.
    pub fn new(file_num: u64, data: Vec<(LookUpKey, Vec<u8>)>, level: usize, block_size: usize) -> (table: Table)
        requires
            data@.len() > 0,
            all_entries_wf(pairs_view(data@)),
            entries_sorted(pairs_view(data@)),
            entries_typed(pairs_view(data@)),
        ensures
            table.wf(),
            table.id() == file_num,
            table@.content() == pairs_view(data@),
            table@.footer.level == level,
            table@.footer.last_seq_num == max_seq_num(pairs_view(data@)),
            blocks_cut_at(table@.blocks, block_size as nat),
            laid_out(table@),
            table.image() == table_image(table@),
    {
        let n: usize = data.len();
        let ghost all = pairs_view(data@);
        let built = build_blocks(&data, block_size);
        let mut buf = built.buf;
        let index_block = built.index_block;
        let last_seq_num = built.last_seq_num;
        let ghost blocks = built.blocks@;
        let ghost bounds = built.bounds@;
        let ghost index = index_view(index_block@);
        let ghost body = buf@;
        let index_block_addr: u64 = buf.len() as u64;
        append_index(&mut buf, &index_block);
        let min_key = data[0].0.duplicate();
        let max_key = data[n - 1].0.duplicate();
        let min_key_addr: u64 = buf.len() as u64;
        let min_bytes = min_key.encode_to();
        put_bytes(&mut buf, min_bytes.as_slice());
        let max_key_addr: u64 = buf.len() as u64;
        let max_bytes = max_key.encode_to();
        put_bytes(&mut buf, max_bytes.as_slice());
        let foot_addr: u64 = buf.len() as u64;
        let footer = Footer {
            level,
            min_key_addr,
            max_key_addr,
            last_seq_num,
            meta_index_block_addr: index_block_addr,
            index_block_addr,
            foot_addr,
        };
        let foot_bytes = footer.encode_to();
        put_bytes(&mut buf, foot_bytes.as_slice());
        let total: usize = buf.len();
        proof {
            assert(min_key@ == all[0].key);
            assert(max_key@ == all[n - 1].key);
            lemma_built_table(
                buf@,
                body,
                footer,
                index,
                blocks,
                bounds,
                all,
                min_key@,
                max_key@,
            );
        }
        Table { file_num, data: buf, footer, index_block, min_key, max_key }
    }
}

/// The parts of an image put together from a body, an index block, two end
/// keys and a footer lie where the footer says.
proof fn lemma_built_regions(
    image: Seq<u8>,
    body: Seq<u8>,
    footer: Footer,
    index_bytes: Seq<u8>,
    min_bytes: Seq<u8>,
    max_bytes: Seq<u8>,
)
    requires
        image == body + index_bytes + min_bytes + max_bytes + footer.encoding(),
        image.len() <= u64::MAX,
        footer.index_block_addr == body.len(),
        footer.min_key_addr == body.len() + index_bytes.len(),
        footer.max_key_addr == footer.min_key_addr + min_bytes.len(),
        footer.foot_addr == footer.max_key_addr + max_bytes.len(),
    ensures
        Footer::parse(image) == Some(footer),
        image.subrange(footer.index_block_addr as int, footer.min_key_addr as int) == index_bytes,
        image.subrange(footer.min_key_addr as int, footer.max_key_addr as int) == min_bytes,
        image.subrange(footer.max_key_addr as int, footer.foot_addr as int) == max_bytes,
        image.subrange(0, body.len() as int) == body,
{
    let before_footer = body + index_bytes + min_bytes + max_bytes;
    footer.lemma_encoding_len();
    footer.lemma_parse_encoding(before_footer);
    assert(image.subrange(footer.index_block_addr as int, footer.min_key_addr as int)
        =~= index_bytes);
    assert(image.subrange(footer.min_key_addr as int, footer.max_key_addr as int) =~= min_bytes);
    assert(image.subrange(footer.max_key_addr as int, footer.foot_addr as int) =~= max_bytes);
    assert(image.subrange(0, body.len() as int) =~= body);
}

/// Built blocks are in order where the entries that they were cut from are.
proof fn lemma_built_valid(
    body: Seq<u8>,
    footer: Footer,
    index: Seq<IndexEntryView>,
    blocks: Seq<Seq<EntryView>>,
    bounds: Seq<int>,
    all: Seq<EntryView>,
)
    requires
        blocks_built(body, index, blocks, bounds, all),
        blocks.len() >= 1,
        all.len() >= 1,
        bounds.last() == all.len(),
        entries_sorted(all),
        entries_typed(all),
    ensures
        (TableView { footer, index, blocks, min_key: all[0].key, max_key: all.last().key }).valid(),
{
    let v = TableView { footer, index, blocks, min_key: all[0].key, max_key: all.last().key };
    assert forall|k: int| 0 <= k < blocks.len() implies {
        &&& (#[trigger] blocks[k]).len() >= 1
        &&& entries_sorted(blocks[k])
        &&& entries_typed(blocks[k])
        &&& index[k].max_key == blocks[k].last().key
    } by {
        assert(block_built(body, index, blocks, bounds, all, k));
        let b = blocks[k];
        assert forall|i: int, j: int| 0 <= i < j < b.len() implies (#[trigger] b[i]).key.key.lt(
            (#[trigger] b[j]).key.key,
        ) by {
            assert(b[i] == all[bounds[k] + i]);
            assert(b[j] == all[bounds[k] + j]);
        }
        assert forall|i: int| 0 <= i < b.len() implies (#[trigger] b[i]).key.key.op_type()
            <= 3 by {
            assert(b[i] == all[bounds[k] + i]);
        }
        assert(b.last() == all[bounds[k + 1] - 1]);
    }
    assert forall|k: int| 0 <= k < blocks.len() - 1 implies #[trigger] block_follows(blocks, k) by {
        assert(block_built(body, index, blocks, bounds, all, k));
        assert(block_built(body, index, blocks, bounds, all, k + 1));
        assert(blocks[k].last() == all[bounds[k + 1] - 1]);
        assert(blocks[k + 1][0] == all[bounds[k + 1]]);
    }
    assert(block_built(body, index, blocks, bounds, all, 0));
    assert(block_built(body, index, blocks, bounds, all, blocks.len() - 1));
    assert(blocks[0][0] == all[0]);
    assert(blocks.last().last() == all[all.len() - 1]);
}

/// Built blocks lie one after the other from the start of the body to its end.
proof fn lemma_built_laid_out(
    body: Seq<u8>,
    index: Seq<IndexEntryView>,
    blocks: Seq<Seq<EntryView>>,
    bounds: Seq<int>,
    all: Seq<EntryView>,
)
    requires
        blocks_built(body, index, blocks, bounds, all),
        blocks.len() >= 1,
    ensures
        index[0].offset == 0,
        index.last().offset + index.last().length == body.len(),
        forall|k: int|
            0 <= k < index.len() ==> (#[trigger] index[k]).length == encode_entries(
                blocks[k],
            ).len(),
        forall|k: int| 0 <= k < index.len() - 1 ==> #[trigger] offset_follows(index, k),
{
    assert(block_built(body, index, blocks, bounds, all, 0));
    assert(block_built(body, index, blocks, bounds, all, blocks.len() - 1));
    assert forall|k: int| 0 <= k < index.len() implies (#[trigger] index[k]).length
        == encode_entries(blocks[k]).len() by {
        assert(block_built(body, index, blocks, bounds, all, k));
    }
    assert forall|k: int| 0 <= k < index.len() - 1 implies #[trigger] offset_follows(index, k) by {
        assert(block_built(body, index, blocks, bounds, all, k + 1));
    }
}

/// Built blocks are read back from where their index entries point.
proof fn lemma_built_blocks_readable(
    image: Seq<u8>,
    body: Seq<u8>,
    index: Seq<IndexEntryView>,
    blocks: Seq<Seq<EntryView>>,
    bounds: Seq<int>,
    all: Seq<EntryView>,
)
    requires
        blocks_built(body, index, blocks, bounds, all),
        all_entries_wf(all),
        body.len() <= image.len(),
        image.subrange(0, body.len() as int) == body,
    ensures
        forall|k: int|
            0 <= k < index.len() ==> {
                &&& (#[trigger] index[k]).offset + index[k].length <= body.len()
                &&& parse_entries(block_bytes(image, index[k]), 0) == Some(blocks[k])
            },
        forall|k: int| 0 <= k < index.len() ==> (#[trigger] index[k]).max_key.wf(),
{
    let empty = Seq::<u8>::empty();
    assert forall|k: int| 0 <= k < index.len() implies {
        &&& (#[trigger] index[k]).offset + index[k].length <= body.len()
        &&& parse_entries(block_bytes(image, index[k]), 0) == Some(blocks[k])
        &&& index[k].max_key.wf()
    } by {
        assert(block_built(body, index, blocks, bounds, all, k));
        let from = index[k].offset as int;
        let to = index[k].offset + index[k].length;
        assert(body.subrange(from, to) =~= image.subrange(0, body.len() as int).subrange(
            from,
            to,
        ));
        assert(block_bytes(image, index[k]) =~= body.subrange(from, to));
        assert forall|j: int| 0 <= j < blocks[k].len() implies (#[trigger] blocks[k][j]).wf() by {
            assert(blocks[k][j] == all[bounds[k] + j]);
        }
        lemma_parse_entries_encoding(empty, blocks[k]);
        assert(empty + encode_entries(blocks[k]) =~= encode_entries(blocks[k]));
        assert(all[bounds[k + 1] - 1].wf());
    }
}

/// The image put together from built blocks, their index, the end keys and
/// the footer is the image of a table in order that holds the blocks.
pub proof fn lemma_built_table(
    image: Seq<u8>,
    body: Seq<u8>,
    footer: Footer,
    index: Seq<IndexEntryView>,
    blocks: Seq<Seq<EntryView>>,
    bounds: Seq<int>,
    all: Seq<EntryView>,
    min_key: LookUpKeyView,
    max_key: LookUpKeyView,
)
    requires
        blocks_built(body, index, blocks, bounds, all),
        blocks.len() >= 1,
        all.len() >= 1,
        bounds.last() == all.len(),
        all_entries_wf(all),
        entries_sorted(all),
        entries_typed(all),
        min_key == all[0].key,
        max_key == all.last().key,
        image == body + encode_index(index) + min_key.encoding() + max_key.encoding()
            + footer.encoding(),
        image.len() <= u64::MAX,
        footer.index_block_addr == body.len(),
        footer.meta_index_block_addr == body.len(),
        footer.min_key_addr == body.len() + encode_index(index).len(),
        footer.max_key_addr == footer.min_key_addr + min_key.encoding().len(),
        footer.foot_addr == footer.max_key_addr + max_key.encoding().len(),
    ensures
        parse_table(image) == Some(
            TableView { footer, index, blocks, min_key, max_key },
        ),
        (TableView { footer, index, blocks, min_key, max_key }).valid(),
        laid_out(TableView { footer, index, blocks, min_key, max_key }),
{
    let v = TableView { footer, index, blocks, min_key, max_key };
    let empty = Seq::<u8>::empty();
    lemma_built_regions(
        image,
        body,
        footer,
        encode_index(index),
        min_key.encoding(),
        max_key.encoding(),
    );
    lemma_built_blocks_readable(image, body, index, blocks, bounds, all);
    lemma_built_valid(body, footer, index, blocks, bounds, all);
    lemma_built_laid_out(body, index, blocks, bounds, all);
    lemma_parse_index_encoding(empty, index);
    assert(empty + encode_index(index) =~= encode_index(index));
    assert(all[0].wf());
    assert(all[all.len() - 1].wf());
    min_key.lemma_parse_encoding(empty, empty);
    max_key.lemma_parse_encoding(empty, empty);
    assert(empty + min_key.encoding() + empty =~= min_key.encoding());
    assert(empty + max_key.encoding() + empty =~= max_key.encoding());
    assert(parse_key_exact(min_key.encoding()) == Some(min_key));
    assert(parse_key_exact(max_key.encoding()) == Some(max_key));
    assert(blocks_readable(image, index, footer.index_block_addr as int));
    let parsed = parse_table(image).unwrap();
    assert(parsed.blocks =~= blocks);
    assert(parsed == v);
}

impl Table {
    /// The table comes strictly before `other` in the order of the table's
    /// level: in level 0 the table with the larger last sequence number, in
    /// a deeper level the table with the smaller smallest key.
    pub closed spec fn before(&self, other: &Table) -> bool {
        if self.footer.level == 0 {
            self.footer.last_seq_num > other.footer.last_seq_num
        } else {
            self.min_key@.key.lt(other.min_key@.key)
        }
    }

    /// Neither table comes before the other in the order of the table's level.
    pub closed spec fn same(&self, other: &Table) -> bool {
        if self.footer.level == 0 {
            self.footer.last_seq_num == other.footer.last_seq_num
        } else {
            self.min_key@.key.same(other.min_key@.key)
        }
    }

    /// The order of well-formed tables goes by what their images hold.
    pub proof fn lemma_order(&self, other: &Table)
        requires
            self.wf(),
            other.wf(),
        ensures
            self.before(other) == (if self@.footer.level == 0 {
                self@.footer.last_seq_num > other@.footer.last_seq_num
            } else {
                self@.min_key.key.lt(other@.min_key.key)
            }),
            self.same(other) == (if self@.footer.level == 0 {
                self@.footer.last_seq_num == other@.footer.last_seq_num
            } else {
                self@.min_key.key.same(other@.min_key.key)
            }),
    {
    }
}

impl PartialEq for Table {
    fn eq(&self, other: &Self) -> (r: bool) {
        if self.footer.level == 0 {
            self.footer.last_seq_num == other.footer.last_seq_num
        } else {
            self.min_key.same_as(&other.min_key)
        }
    }
}

impl PartialEqSpecImpl for Table {
    open spec fn obeys_eq_spec() -> bool {
        true
    }

    open spec fn eq_spec(&self, other: &Self) -> bool {
        self.same(other)
    }
}

impl Eq for Table {

}

impl PartialOrd for Table {
    fn partial_cmp(&self, other: &Self) -> (r: Option<Ordering>) {
        if self.footer.level == 0 {
            if self.footer.last_seq_num > other.footer.last_seq_num {
                Some(Ordering::Less)
            } else if self.footer.last_seq_num == other.footer.last_seq_num {
                Some(Ordering::Equal)
            } else {
                Some(Ordering::Greater)
            }
        } else if self.min_key.sorts_before(&other.min_key) {
            Some(Ordering::Less)
        } else if self.min_key.same_as(&other.min_key) {
            Some(Ordering::Equal)
        } else {
            Some(Ordering::Greater)
        }
    }
}

impl PartialOrdSpecImpl for Table {
    open spec fn obeys_partial_cmp_spec() -> bool {
        true
    }

    open spec fn partial_cmp_spec(&self, other: &Self) -> Option<Ordering> {
        if self.before(other) {
            Some(Ordering::Less)
        } else if self.same(other) {
            Some(Ordering::Equal)
        } else {
            Some(Ordering::Greater)
        }
    }
}

} // verus!
