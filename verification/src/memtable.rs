//! The in-memory table: the newest writes, ordered, with the log that
//! records them.
//!
//! The table maps a user key and a sequence number to an operation type and a
//! value. A delete is stored with an empty value. A look-up as of a sequence
//! number finds the newest version of the user key that is not newer than
//! that number.

use vstd::prelude::*;
use std::collections::HashMap;
use crate::bytes_order::{bytes_equal, bytes_lt, lemma_bytes_lt_asymmetric, lemma_bytes_lt_irreflexive};
use crate::key::{InternalKey, KeyView, LookUpKey, LookUpKeyView, tail_of};
use crate::ordered_map::{skipmap_contents, skipmap_drain, skipmap_first_from, skipmap_insert, skipmap_new};
use crate::ordered_map::{item_key, item_value, items_of, pair_le, pair_lt, KeyModel, MapKey, MapValue, ValueModel};
use crate::sst::EntryView;
use crate::table::{all_entries_wf, entries_typed, pairs_view};
use crate::utils::copy_bytes;
use crate::wal::{entries_view, parse_log, Log, LogEntry, LogEntryView};

verus! {

/// Sequence numbers are kept in 56 bits: this is the first number that does
/// not fit.
pub const SEQ_LIMIT: u64 = 0x100_0000_0000_0000;

/// What an in-memory table holds: under a user key and a sequence number, an
/// operation type and a value.
pub type MemView = Map<(Seq<u8>, u64), (u8, Seq<u8>)>;

/// The table after an operation of type `op` on `user_key` at `seq_num` with
/// `value`. Where the table holds a version of the user key at that sequence
/// number already, the version keeps its operation type and takes the value.
pub open spec fn mem_put(m: MemView, user_key: Seq<u8>, seq_num: u64, op: u8, value: Seq<u8>) -> MemView {
    let k = (user_key, (seq_num % SEQ_LIMIT) as u64);
    m.insert(
        k,
        (
            if m.contains_key(k) {
                m[k].0
            } else {
                op
            },
            value,
        ),
    )
}

/// `s` is the sequence number of the newest version of `user_key` in `m` that
/// is not newer than `snapshot`.
pub open spec fn is_newest(m: MemView, user_key: Seq<u8>, snapshot: u64, s: u64) -> bool {
    &&& m.contains_key((user_key, s))
    &&& s <= snapshot
    &&& forall|t: u64| m.contains_key((user_key, t)) && t <= snapshot ==> t <= s
}

/// What a version answers to a look-up: the value of a put, nothing for a delete.
pub open spec fn answer(version: (u8, Seq<u8>)) -> Option<Seq<u8>> {
    if version.0 == 0 || version.0 == 2 {
        Some(version.1)
    } else {
        None
    }
}

/// What a look-up for `user_key` as of `seq_num` finds in `m`: `None` where
/// `m` holds no version of the user key that is not newer; else the answer
/// of the newest such version.
pub open spec fn mem_lookup(m: MemView, user_key: Seq<u8>, seq_num: u64) -> Option<Option<Seq<u8>>> {
    let snapshot = (seq_num % SEQ_LIMIT) as u64;
    if exists|s: u64| is_newest(m, user_key, snapshot, s) {
        let s = choose|s: u64| is_newest(m, user_key, snapshot, s);
        Some(answer(m[(user_key, s)]))
    } else {
        None
    }
}

/// The entry that stands for a version when the table is written out.
pub open spec fn entry_of(user_key: Seq<u8>, seq_num: u64, version: (u8, Seq<u8>)) -> EntryView {
    EntryView {
        key: LookUpKeyView {
            key_len: (user_key.len() + 8) as u64,
            key: KeyView { user_key, tail: tail_of(seq_num, version.0) },
        },
        value: version.1,
    }
}

/// `entries` are the versions of `m`, each once, in strictly ascending key order.
pub open spec fn entries_of(entries: Seq<EntryView>, m: MemView) -> bool {
    &&& forall|i: int|
        0 <= i < entries.len() ==> {
            let k = (#[trigger] entries[i]).key.key;
            &&& m.contains_key((k.user_key, k.seq_num() as u64))
            &&& entries[i] == entry_of(k.user_key, k.seq_num() as u64, m[(k.user_key, k.seq_num() as u64)])
        }
    &&& forall|k: (Seq<u8>, u64)|
        m.contains_key(k) ==> exists|i: int|
            0 <= i < entries.len() && #[trigger] entries[i] == entry_of(k.0, k.1, m[k])
    &&& forall|i: int, j: int|
        0 <= i < j < entries.len() ==> (#[trigger] entries[i]).key.key.lt(
            (#[trigger] entries[j]).key.key,
        )
}

/// The key under which the skip map keeps a version: the sequence number is
/// turned round, so that newer versions come first.
pub open spec fn stored_key(k: (Seq<u8>, u64)) -> KeyModel {
    (k.0, (u64::MAX - k.1) as u64)
}

/// The table that a skip map's contents stand for.
pub open spec fn mem_view_of(contents: Map<KeyModel, ValueModel>) -> MemView {
    Map::new(
        |k: (Seq<u8>, u64)| contents.contains_key(stored_key(k)),
        |k: (Seq<u8>, u64)| contents[stored_key(k)],
    )
}

/// Every version is a put or a delete at a sequence number that fits, under
/// a user key that can be framed.
pub open spec fn versions_ok(m: MemView) -> bool {
    forall|k: (Seq<u8>, u64)|
        m.contains_key(k) ==> (#[trigger] m[k]).0 <= 3 && k.1 < SEQ_LIMIT && k.0.len() + 8
            <= u64::MAX
}

/// The in-memory table: the versions written and not yet written out, in
/// key order, the log that records the writes, and a count of the bytes
/// written.
pub struct MemTable {
    inner: skiplist::SkipMap<MapKey, MapValue>,
    writer: Option<Log>,
    size: usize,
}

impl View for MemTable {
    type V = MemView;

    closed spec fn view(&self) -> MemView {
        mem_view_of(skipmap_contents(self.inner))
    }
}

impl MemTable {
    /// The number of the log that records the table's writes, if it has one.
    pub closed spec fn log_num(&self) -> Option<u64> {
        match self.writer {
            Some(log) => Some(log.num()),
            None => None,
        }
    }

    /// The bytes written to the log and not yet taken.
    pub closed spec fn logged(&self) -> Seq<u8> {
        match self.writer {
            Some(log) => log.pending(),
            None => Seq::<u8>::empty(),
        }
    }

    /// The table's count of the bytes written to it.
    pub closed spec fn bytes(&self) -> usize {
        self.size
    }

    /// Every key that the skip map holds stands for a version.
    pub closed spec fn wf(&self) -> bool {
        &&& versions_ok(self@)
        &&& forall|k: KeyModel|
            skipmap_contents(self.inner).contains_key(k) ==> self@.contains_key(
                (k.0, (u64::MAX - k.1) as u64),
            )
    }

    /// In a well-formed table every version is a put or a delete at a
    /// sequence number that fits, under a user key that can be framed.
    pub proof fn lemma_wf(&self)
        requires
            self.wf(),
        ensures
            versions_ok(self@),
    {
    }

    /// A table that holds nothing and has no log.
    pub fn new() -> (table: MemTable)
        ensures
            table.wf(),
            table@ == Map::<(Seq<u8>, u64), (u8, Seq<u8>)>::empty(),
            table.log_num().is_none(),
            table.logged() == Seq::<u8>::empty(),
            table.bytes() == 0,
    {
        let table = MemTable { inner: skipmap_new(), writer: None, size: 0 };
        assert(table@ =~= Map::<(Seq<u8>, u64), (u8, Seq<u8>)>::empty());
        table
    }

    /// The table's count of the bytes written to it.
    pub fn get_size(&self) -> (size: usize)
        ensures
            size == self.bytes(),
    {
        self.size
    }

    /// The number of the table's log, if it has one.
    pub fn get_log_num(&self) -> (log_num: Option<u64>)
        ensures
            log_num == self.log_num(),
    {
        match &self.writer {
            Some(log) => Some(log.get_num()),
            None => None,
        }
    }

    /// Gives the table a log with the number `log_num`, unless it has one.
    pub fn set_writer(&mut self, log_num: u64)
        ensures
            final(self)@ == old(self)@,
            final(self).wf() == old(self).wf(),
            final(self).bytes() == old(self).bytes(),
            final(self).logged() == old(self).logged(),
            final(self).log_num() == (if old(self).log_num().is_none() {
                Some(log_num)
            } else {
                old(self).log_num()
            }),
    {
        if self.writer.is_none() {
            self.writer = Some(Log::open(log_num));
        }
    }

    /// Takes the log away from the table and returns its number: the log's
    /// file is no longer needed. Bytes written and not yet taken are dropped.
    pub fn remove_writer(&mut self) -> (log_num: u64)
        requires
            old(self).log_num().is_some(),
        ensures
            Some(log_num) == old(self).log_num(),
            final(self)@ == old(self)@,
            final(self).wf() == old(self).wf(),
            final(self).bytes() == old(self).bytes(),
            final(self).log_num().is_none(),
            final(self).logged() == Seq::<u8>::empty(),
    {
        let log = self.writer.take();
        match log {
            Some(l) => l.get_num(),
            None => 0,
        }
    }

    /// Takes the bytes written to the log since they were last taken, with
    /// the log's number. `None` where the table has no log.
    pub fn take_logged(&mut self) -> (out: Option<(u64, Vec<u8>)>)
        ensures
            final(self)@ == old(self)@,
            final(self).wf() == old(self).wf(),
            final(self).bytes() == old(self).bytes(),
            final(self).log_num() == old(self).log_num(),
            final(self).logged() == Seq::<u8>::empty(),
            match out {
                Some((n, bytes)) => old(self).log_num() == Some(n) && bytes@ == old(self).logged(),
                None => old(self).log_num().is_none(),
            },
    {
        let mut writer = self.writer.take();
        let out = match &mut writer {
            Some(log) => {
                let n = log.get_num();
                let bytes = log.take_pending();
                Some((n, bytes))
            },
            None => None,
        };
        self.writer = writer;
        out
    }

    /// Writes a record to the table's log.
    fn log(&mut self, entry: LogEntry)
        requires
            old(self).log_num().is_some(),
        ensures
            final(self)@ == old(self)@,
            final(self).wf() == old(self).wf(),
            final(self).bytes() == old(self).bytes(),
            final(self).log_num() == old(self).log_num(),
            final(self).logged() == old(self).logged() + entry@.encoding(),
    {
        let mut writer = self.writer.take();
        match &mut writer {
            Some(log) => {
                log.write(entry);
            },
            None => {},
        }
        self.writer = writer;
    }

    /// Records the begin of the transaction with the sequence number `seq_num`.
    pub fn begin_tx(&mut self, seq_num: u64)
        requires
            old(self).log_num().is_some(),
        ensures
            final(self)@ == old(self)@,
            final(self).wf() == old(self).wf(),
            final(self).bytes() == old(self).bytes(),
            final(self).log_num() == old(self).log_num(),
            final(self).logged() == old(self).logged() + marker(4, seq_num).encoding(),
    {
        let entry = LogEntry { entry_type: 4, key: Vec::new(), value: Vec::new(), seq_num };
        self.log(entry);
    }

    /// Records the commit of the transaction with the sequence number `seq_num`.
    pub fn commit_tx(&mut self, seq_num: u64)
        requires
            old(self).log_num().is_some(),
        ensures
            final(self)@ == old(self)@,
            final(self).wf() == old(self).wf(),
            final(self).bytes() == old(self).bytes(),
            final(self).log_num() == old(self).log_num(),
            final(self).logged() == old(self).logged() + marker(5, seq_num).encoding(),
    {
        let entry = LogEntry { entry_type: 5, key: Vec::new(), value: Vec::new(), seq_num };
        self.log(entry);
    }

    /// Records a put in the log, then stores it.
    pub fn insert(&mut self, key: &[u8], value: &[u8], seq_num: u64, is_tx: bool)
        requires
            old(self).wf(),
            old(self).log_num().is_some(),
            key@.len() + 8 <= u64::MAX,
        ensures
            final(self).wf(),
            final(self)@ == mem_put(old(self)@, key@, seq_num, put_op(is_tx), value@),
            final(self).bytes() == grown(old(self).bytes(), 8 + key@.len() + value@.len()),
            final(self).log_num() == old(self).log_num(),
            final(self).logged() == old(self).logged() + (LogEntryView {
                entry_type: put_op(is_tx),
                key: key@,
                value: value@,
                seq_num,
            }).encoding(),
    {
        let entry_type: u8 = if is_tx {
            2
        } else {
            0
        };
        self.log(LogEntry::new(entry_type, key, value, seq_num));
        self.insert_inner(key, value, seq_num, is_tx);
    }

    /// Stores a put without recording it.
    pub fn insert_inner(&mut self, key: &[u8], value: &[u8], seq_num: u64, is_tx: bool)
        requires
            old(self).wf(),
            key@.len() + 8 <= u64::MAX,
        ensures
            final(self).wf(),
            final(self)@ == mem_put(old(self)@, key@, seq_num, put_op(is_tx), value@),
            final(self).bytes() == grown(old(self).bytes(), 8 + key@.len() + value@.len()),
            final(self).log_num() == old(self).log_num(),
            final(self).logged() == old(self).logged(),
    {
        let op: u8 = if is_tx {
            2
        } else {
            0
        };
        self.store(key, value, seq_num, op);
        self.size = grow(grow(grow(self.size, 8), key.len()), value.len());
    }

    /// Records a delete in the log, then stores it.
    pub fn delete(&mut self, key: &[u8], seq_num: u64, is_tx: bool)
        requires
            old(self).wf(),
            old(self).log_num().is_some(),
            key@.len() + 8 <= u64::MAX,
        ensures
            final(self).wf(),
            final(self)@ == mem_put(
                old(self)@,
                key@,
                seq_num,
                delete_op(is_tx),
                Seq::<u8>::empty(),
            ),
            final(self).bytes() == grown(old(self).bytes(), 8 + key@.len()),
            final(self).log_num() == old(self).log_num(),
            final(self).logged() == old(self).logged() + (LogEntryView {
                entry_type: delete_op(is_tx),
                key: key@,
                value: Seq::<u8>::empty(),
                seq_num,
            }).encoding(),
    {
        let entry_type: u8 = if is_tx {
            3
        } else {
            1
        };
        let none: Vec<u8> = Vec::new();
        self.log(LogEntry::new(entry_type, key, none.as_slice(), seq_num));
        self.delete_inner(key, seq_num, is_tx);
    }

    /// Stores a delete without recording it.
    pub fn delete_inner(&mut self, key: &[u8], seq_num: u64, is_tx: bool)
        requires
            old(self).wf(),
            key@.len() + 8 <= u64::MAX,
        ensures
            final(self).wf(),
            final(self)@ == mem_put(
                old(self)@,
                key@,
                seq_num,
                delete_op(is_tx),
                Seq::<u8>::empty(),
            ),
            final(self).bytes() == grown(old(self).bytes(), 8 + key@.len()),
            final(self).log_num() == old(self).log_num(),
            final(self).logged() == old(self).logged(),
    {
        let op: u8 = if is_tx {
            3
        } else {
            1
        };
        let none: Vec<u8> = Vec::new();
        self.store(key, none.as_slice(), seq_num, op);
        self.size = grow(grow(self.size, 8), key.len());
    }

    /// Stores a version.
    fn store(&mut self, key: &[u8], value: &[u8], seq_num: u64, op: u8)
        requires
            old(self).wf(),
            key@.len() + 8 <= u64::MAX,
            op <= 3,
        ensures
            final(self).wf(),
            final(self)@ == mem_put(old(self)@, key@, seq_num, op, value@),
            final(self).bytes() == old(self).bytes(),
            final(self).log_num() == old(self).log_num(),
            final(self).logged() == old(self).logged(),
    {
        let internal_key = InternalKey::new(key, seq_num, op);
        let s: u64 = internal_key.get_seq_num();
        let stored: MapKey = (copy_bytes(key), u64::MAX - s);
        let ghost before = skipmap_contents(self.inner);
        let ghost sk: KeyModel = (key@, (u64::MAX - s) as u64);
        let found = skipmap_first_from(&self.inner, &stored);
        let mut kept: u8 = op;
        match found {
            Some(item) => {
                if item.0.1 == stored.1 && bytes_equal(item.0.0.as_slice(), key) {
                    kept = item.1.0;
                    proof {
                        assert(item_key(item) == sk);
                        assert(self@.contains_key((key@, s)));
                    }
                } else {
                    proof {
                        if before.contains_key(sk) {
                            assert(pair_le(sk, sk));
                            lemma_pair_le_antisymmetric(sk, item_key(item));
                        }
                    }
                }
            },
            None => {
                proof {
                    if before.contains_key(sk) {
                        assert(pair_le(sk, sk));
                    }
                }
            },
        }
        assert(kept == (if old(self)@.contains_key((key@, s)) {
            old(self)@[(key@, s)].0
        } else {
            op
        }));
        assert(kept <= 3);
        skipmap_insert(&mut self.inner, stored, (kept, copy_bytes(value)));
        proof {
            let after = skipmap_contents(self.inner);
            assert(after == before.insert(sk, (kept, value@)));
            let want = mem_put(old(self)@, key@, seq_num, op, value@);
            assert forall|k: (Seq<u8>, u64)| self@.contains_key(k) <==> want.contains_key(k) by {
                assert(stored_key(k) == sk <==> k == (key@, s));
            }
            assert forall|k: (Seq<u8>, u64)| self@.contains_key(k) implies self@[k] == want[k] by {
                assert(stored_key(k) == sk <==> k == (key@, s));
            }
            assert(self@ =~= want);
            assert forall|k: KeyModel| after.contains_key(k) implies self@.contains_key(
                (k.0, (u64::MAX - k.1) as u64),
            ) by {
                if k != sk {
                    assert(before.contains_key(k));
                    assert(old(self)@.contains_key((k.0, (u64::MAX - k.1) as u64)));
                }
            }
        }
    }

    /// Looks `key` up as of `seq_num`: `Some(Some(value))` where the newest
    /// version that is not newer than `seq_num` is a put, `Some(None)` where
    /// it is a delete, `None` where there is no such version.
    pub fn search(&self, key: &[u8], seq_num: u64) -> (res: Option<Option<Vec<u8>>>)
        requires
            self.wf(),
        ensures
            match mem_lookup(self@, key@, seq_num) {
                Some(Some(v)) => res.is_some() && res.unwrap().is_some() && res.unwrap().unwrap()@
                    == v,
                Some(None) => res == Some(None::<Vec<u8>>),
                None => res.is_none(),
            },
    {
        let target = InternalKey::new(key, seq_num, 1);
        let snapshot: u64 = target.get_seq_num();
        let bound: MapKey = (copy_bytes(key), u64::MAX - snapshot);
        let ghost contents = skipmap_contents(self.inner);
        let ghost bk: KeyModel = (key@, (u64::MAX - snapshot) as u64);
        let ghost m = self@;
        match skipmap_first_from(&self.inner, &bound) {
            Some(item) => {
                if bytes_equal(item.0.0.as_slice(), key) {
                    let ghost s: u64 = (u64::MAX - item.0.1) as u64;
                    proof {
                        assert(m.contains_key((key@, s)));
                        lemma_bytes_lt_irreflexive(key@);
                        assert forall|t: u64| m.contains_key((key@, t)) && t <= snapshot implies t
                            <= s by {
                            let tk: KeyModel = (key@, (u64::MAX - t) as u64);
                            assert(stored_key((key@, t)) == tk);
                            assert(pair_le(bk, tk));
                            assert(pair_le(item_key(item), tk));
                        }
                        assert(is_newest(m, key@, snapshot, s));
                        let c = choose|c: u64| is_newest(m, key@, snapshot, c);
                        assert(c == s);
                        assert(m[(key@, s)] == item_value(item));
                    }
                    let op: u8 = item.1.0;
                    if op == 0 || op == 2 {
                        Some(Some(item.1.1))
                    } else {
                        Some(None)
                    }
                } else {
                    proof {
                        assert forall|t: u64| !is_newest(m, key@, snapshot, t) by {
                            if is_newest(m, key@, snapshot, t) {
                                let tk: KeyModel = (key@, (u64::MAX - t) as u64);
                                assert(stored_key((key@, t)) == tk);
                                assert(pair_le(bk, tk));
                                assert(pair_le(item_key(item), tk));
                                assert(pair_le(bk, item_key(item)));
                                if bytes_lt(key@, item.0.0@) {
                                    lemma_bytes_lt_asymmetric(key@, item.0.0@);
                                }
                            }
                        }
                    }
                    None
                }
            },
            None => {
                proof {
                    assert forall|t: u64| !is_newest(m, key@, snapshot, t) by {
                        if is_newest(m, key@, snapshot, t) {
                            let tk: KeyModel = (key@, (u64::MAX - t) as u64);
                            assert(stored_key((key@, t)) == tk);
                            assert(pair_le(bk, tk));
                        }
                    }
                }
                None
            },
        }
    }
}

/// The marker record of type `entry_type` for the sequence number `seq_num`.
pub open spec fn marker(entry_type: u8, seq_num: u64) -> LogEntryView {
    LogEntryView { entry_type, key: Seq::<u8>::empty(), value: Seq::<u8>::empty(), seq_num }
}

/// The operation type of a put.
pub open spec fn put_op(is_tx: bool) -> u8 {
    if is_tx {
        2
    } else {
        0
    }
}

/// The operation type of a delete.
pub open spec fn delete_op(is_tx: bool) -> u8 {
    if is_tx {
        3
    } else {
        1
    }
}

/// A count of bytes grown by `n`; it stops at the largest number that the
/// machine's word holds.
pub open spec fn grown(size: usize, n: nat) -> usize {
    if size + n > usize::MAX {
        usize::MAX
    } else {
        (size + n) as usize
    }
}

/// Adds `n` to a count of bytes; the count stops at the largest number that
/// the machine's word holds.
pub fn grow(size: usize, n: usize) -> (r: usize)
    ensures
        r == grown(size, n as nat),
{
    if size > usize::MAX - n {
        usize::MAX
    } else {
        size + n
    }
}

/// Two keys of the skip map of which neither comes after the other are the same.
pub proof fn lemma_pair_le_antisymmetric(a: KeyModel, b: KeyModel)
    requires
        pair_le(a, b),
        pair_le(b, a),
    ensures
        a == b,
{
    if pair_lt(a, b) && pair_lt(b, a) {
        if bytes_lt(a.0, b.0) {
            lemma_bytes_lt_asymmetric(a.0, b.0);
        } else {
            lemma_bytes_lt_irreflexive(a.0);
        }
    }
}

/// The entry that stands for an item of the skip map when the table is
/// written out.
pub open spec fn entry_of_item(item: (MapKey, MapValue)) -> EntryView {
    entry_of(item.0.0@, (u64::MAX - item.0.1) as u64, (item.1.0, item.1.1@))
}

/// The entries made of the items of a well-formed table's skip map are the
/// table's versions in order, each a put or a delete with a rightly framed key.
proof fn lemma_entries_of_items(
    items: Seq<(MapKey, MapValue)>,
    contents: Map<KeyModel, ValueModel>,
    entries: Seq<EntryView>,
)
    requires
        items_of(items, contents),
        versions_ok(mem_view_of(contents)),
        forall|k: KeyModel|
            contents.contains_key(k) ==> mem_view_of(contents).contains_key(
                (k.0, (u64::MAX - k.1) as u64),
            ),
        entries.len() == items.len(),
        forall|i: int| 0 <= i < items.len() ==> #[trigger] entries[i] == entry_of_item(items[i]),
    ensures
        entries_of(entries, mem_view_of(contents)),
        all_entries_wf(entries),
        entries_typed(entries),
{
    let m = mem_view_of(contents);
    assert forall|i: int| 0 <= i < entries.len() implies {
        let k = (#[trigger] entries[i]).key.key;
        &&& m.contains_key((k.user_key, k.seq_num() as u64))
        &&& entries[i] == entry_of(k.user_key, k.seq_num() as u64, m[(k.user_key, k.seq_num() as u64)])
        &&& entries[i].wf()
        &&& k.op_type() <= 3
    } by {
        let item = items[i];
        let ik = item_key(item);
        assert(entries[i] == entry_of_item(item));
        assert(contents.contains_key(ik));
        let seq = (u64::MAX - ik.1) as u64;
        assert(m.contains_key((ik.0, seq)));
        assert(stored_key((ik.0, seq)) == ik);
        assert(m[(ik.0, seq)] == item_value(item));
        assert(item.1.1@.len() == item.1.1.len());
        assert(seq < SEQ_LIMIT);
        lemma_tail_parts(seq, item.1.0);
        let k = entries[i].key.key;
        assert(k.user_key == ik.0);
        assert(k.tail == tail_of(seq, item.1.0));
        assert(k.seq_num() == seq);
    }
    assert forall|k: (Seq<u8>, u64)| m.contains_key(k) implies exists|i: int|
        0 <= i < entries.len() && #[trigger] entries[i] == entry_of(k.0, k.1, m[k]) by {
        let sk = stored_key(k);
        assert(contents.contains_key(sk));
        let i = choose|i: int| 0 <= i < items.len() && #[trigger] item_key(items[i]) == sk;
        assert(entries[i] == entry_of_item(items[i]));
    }
    assert forall|i: int, j: int| 0 <= i < j < entries.len() implies (#[trigger] entries[i]).key.key.lt(
        (#[trigger] entries[j]).key.key,
    ) by {
        let a = items[i];
        let b = items[j];
        assert(entries[i] == entry_of_item(a));
        assert(entries[j] == entry_of_item(b));
        assert(pair_lt(item_key(a), item_key(b)));
        assert(contents.contains_key(item_key(a)));
        assert(contents.contains_key(item_key(b)));
        assert(m.contains_key((a.0.0@, (u64::MAX - a.0.1) as u64)));
        assert(m.contains_key((b.0.0@, (u64::MAX - b.0.1) as u64)));
        lemma_tail_parts((u64::MAX - a.0.1) as u64, a.1.0);
        lemma_tail_parts((u64::MAX - b.0.1) as u64, b.1.0);
    }
}

/// A tail made of a sequence number that fits and an operation type gives
/// both back.
pub proof fn lemma_tail_parts(seq_num: u64, op: u8)
    requires
        seq_num < SEQ_LIMIT,
    ensures
        tail_of(seq_num, op) / 256 == seq_num,
        tail_of(seq_num, op) % 256 == op,
{
}

/// Entries in strictly ascending key order are in key order.
pub proof fn lemma_strict_is_sorted(entries: Seq<EntryView>)
    requires
        forall|i: int, j: int|
            0 <= i < j < entries.len() ==> (#[trigger] entries[i]).key.key.lt(
                (#[trigger] entries[j]).key.key,
            ),
    ensures
        crate::table::entries_sorted(entries),
{
}

impl MemTable {
    /// Takes the versions out of the table, in key order, as the entries of
    /// a sorted table. The table is left empty.
    pub fn take(&mut self) -> (entries: Vec<(LookUpKey, Vec<u8>)>)
        requires
            old(self).wf(),
        ensures
            final(self).wf(),
            final(self)@ == Map::<(Seq<u8>, u64), (u8, Seq<u8>)>::empty(),
            final(self).bytes() == old(self).bytes(),
            final(self).log_num() == old(self).log_num(),
            final(self).logged() == old(self).logged(),
            entries_of(pairs_view(entries@), old(self)@),
            all_entries_wf(pairs_view(entries@)),
            entries_typed(pairs_view(entries@)),
            crate::table::entries_sorted(pairs_view(entries@)),
    {
        let ghost contents = skipmap_contents(self.inner);
        let items = skipmap_drain(&mut self.inner);
        assert(self@ =~= Map::<(Seq<u8>, u64), (u8, Seq<u8>)>::empty());
        let n: usize = items.len();
        let mut out: Vec<(LookUpKey, Vec<u8>)> = Vec::new();
        let mut i: usize = 0;
        while i < n
            invariant
                i <= n,
                n == items@.len(),
                items_of(items@, contents),
                versions_ok(mem_view_of(contents)),
                forall|k: KeyModel|
                    contents.contains_key(k) ==> mem_view_of(contents).contains_key(
                        (k.0, (u64::MAX - k.1) as u64),
                    ),
                out@.len() == i,
                forall|j: int|
                    0 <= j < i ==> #[trigger] pairs_view(out@)[j] == entry_of_item(items@[j]),
            decreases n - i,
        {
            let item = &items[i];
            proof {
                let ik = item_key(*item);
                assert(contents.contains_key(ik));
                let seq = (u64::MAX - ik.1) as u64;
                assert(mem_view_of(contents).contains_key((ik.0, seq)));
                assert(mem_view_of(contents)[(ik.0, seq)].0 <= 3);
            }
            let seq: u64 = u64::MAX - item.0.1;
            let internal_key = InternalKey::new(item.0.0.as_slice(), seq, item.1.0);
            let key = LookUpKey::new(internal_key);
            let value = copy_bytes(item.1.1.as_slice());
            proof {
                let e = EntryView { key: key@, value: value@ };
                assert(e == entry_of_item(*item));
                let ghost before = pairs_view(out@);
                assert(pairs_view(out@.push((key, value))) =~= before.push(e));
            }
            out.push((key, value));
            i = i + 1;
        }
        proof {
            lemma_entries_of_items(items@, contents, pairs_view(out@));
            lemma_strict_is_sorted(pairs_view(out@));
        }
        out
    }
}

/// A record's key is short enough to be framed.
pub open spec fn fits(e: LogEntryView) -> bool {
    e.key.len() + 8 <= u64::MAX
}

/// What replaying a log has led to: the table, its count of bytes, the
/// records of the transactions that have begun and not ended, and the largest
/// sequence number seen.
pub struct ReplayState {
    pub mem: MemView,
    pub bytes: usize,
    pub trans: Map<u64, Seq<LogEntryView>>,
    pub max_seq: u64,
}

/// The state after the records of a committed transaction were applied in
/// order: a record of type 2 as a put, any other as a delete. `None` where a
/// record's key is too long to be framed.
pub open spec fn apply_staged(st: ReplayState, staged: Seq<LogEntryView>) -> Option<ReplayState>
    decreases staged.len(),
{
    if staged.len() == 0 {
        Some(st)
    } else {
        match apply_staged(st, staged.drop_last()) {
            Some(s) => {
                let e = staged.last();
                if !fits(e) {
                    None
                } else if e.entry_type == 2 {
                    Some(
                        ReplayState {
                            mem: mem_put(s.mem, e.key, e.seq_num, 2, e.value),
                            bytes: grown(s.bytes, 8 + e.key.len() + e.value.len()),
                            ..s
                        },
                    )
                } else {
                    Some(
                        ReplayState {
                            mem: mem_put(s.mem, e.key, e.seq_num, 3, Seq::<u8>::empty()),
                            bytes: grown(s.bytes, 8 + e.key.len()),
                            ..s
                        },
                    )
                }
            },
            None => None,
        }
    }
}

/// The larger of two numbers.
pub open spec fn larger(a: u64, b: u64) -> u64 {
    if a >= b {
        a
    } else {
        b
    }
}

/// The state after one record was replayed. A put or a delete is applied. A
/// put or a delete of a transaction is kept with the transaction's records.
/// A begin starts a transaction with no records. A commit applies the
/// transaction's records and ends it. An abort ends it and drops them.
/// `None` where the record is of no known type, where its transaction has
/// not begun, or where a key to apply is too long to be framed.
pub open spec fn replay_one(st: ReplayState, e: LogEntryView) -> Option<ReplayState> {
    let seen = ReplayState { max_seq: larger(st.max_seq, e.seq_num), ..st };
    if e.entry_type == 0 {
        if fits(e) {
            Some(
                ReplayState {
                    mem: mem_put(st.mem, e.key, e.seq_num, 0, e.value),
                    bytes: grown(st.bytes, 8 + e.key.len() + e.value.len()),
                    ..seen
                },
            )
        } else {
            None
        }
    } else if e.entry_type == 1 {
        if fits(e) {
            Some(
                ReplayState {
                    mem: mem_put(st.mem, e.key, e.seq_num, 1, Seq::<u8>::empty()),
                    bytes: grown(st.bytes, 8 + e.key.len()),
                    ..seen
                },
            )
        } else {
            None
        }
    } else if e.entry_type == 2 || e.entry_type == 3 {
        if st.trans.contains_key(e.seq_num) {
            Some(
                ReplayState {
                    trans: st.trans.insert(e.seq_num, st.trans[e.seq_num].push(e)),
                    ..seen
                },
            )
        } else {
            None
        }
    } else if e.entry_type == 4 {
        Some(
            ReplayState { trans: st.trans.insert(e.seq_num, Seq::<LogEntryView>::empty()), ..seen },
        )
    } else if e.entry_type == 5 {
        if st.trans.contains_key(e.seq_num) {
            match apply_staged(seen, st.trans[e.seq_num]) {
                Some(s) => Some(ReplayState { trans: st.trans.remove(e.seq_num), ..s }),
                None => None,
            }
        } else {
            None
        }
    } else if e.entry_type == 6 {
        Some(ReplayState { trans: st.trans.remove(e.seq_num), ..seen })
    } else {
        None
    }
}

/// The state after the records were replayed in order, or `None` where one
/// of them could not be.
pub open spec fn replay_all(st: ReplayState, entries: Seq<LogEntryView>) -> Option<ReplayState>
    decreases entries.len(),
{
    if entries.len() == 0 {
        Some(st)
    } else {
        match replay_all(st, entries.drop_last()) {
            Some(s) => replay_one(s, entries.last()),
            None => None,
        }
    }
}

/// The records kept for transactions, as plain values.
pub open spec fn trans_view(trans: Map<u64, Vec<LogEntry>>) -> Map<u64, Seq<LogEntryView>> {
    Map::new(|k: u64| trans.contains_key(k), |k: u64| entries_view(trans[k]@))
}

impl MemTable {
    /// The state that a replay starts from or has led to.
    pub open spec fn replay_state(&self, trans: Map<u64, Vec<LogEntry>>, max_seq: u64) -> ReplayState {
        ReplayState { mem: self@, bytes: self.bytes(), trans: trans_view(trans), max_seq }
    }

    /// Applies the records of a committed transaction.
    fn apply(&mut self, staged: &Vec<LogEntry>, Ghost(st): Ghost<ReplayState>) -> (ok: bool)
        requires
            old(self).wf(),
            st.mem == old(self)@,
            st.bytes == old(self).bytes(),
        ensures
            final(self).wf(),
            final(self).log_num() == old(self).log_num(),
            final(self).logged() == old(self).logged(),
            match apply_staged(st, entries_view(staged@)) {
                Some(s) => ok && final(self).wf() && final(self)@ == s.mem && final(self).bytes()
                    == s.bytes && s.trans == st.trans && s.max_seq == st.max_seq,
                None => !ok,
            },
    {
        let n: usize = staged.len();
        let ghost all = entries_view(staged@);
        let mut j: usize = 0;
        assert(all.take(0) =~= Seq::<LogEntryView>::empty());
        while j < n
            invariant
                j <= n,
                n == staged@.len(),
                all == entries_view(staged@),
                self.log_num() == old(self).log_num(),
                self.logged() == old(self).logged(),
                self.wf(),
                match apply_staged(st, all.take(j as int)) {
                    Some(s) => self@ == s.mem && self.bytes() == s.bytes && s.trans == st.trans
                        && s.max_seq == st.max_seq,
                    None => false,
                },
            decreases n - j,
        {
            let e = &staged[j];
            proof {
                assert(all.take(j as int + 1).drop_last() =~= all.take(j as int));
                assert(all.take(j as int + 1).last() == e@);
            }
            if e.key.len() as u64 > u64::MAX - 8 {
                proof {
                    lemma_apply_staged_fails(st, all, j as int + 1);
                }
                return false;
            }
            if e.entry_type == 2 {
                self.insert_inner(e.key.as_slice(), e.value.as_slice(), e.seq_num, true);
            } else {
                self.delete_inner(e.key.as_slice(), e.seq_num, true);
            }
            j = j + 1;
        }
        assert(all.take(n as int) =~= all);
        true
    }

    /// Replays the records of a log into the table. `trans` holds the records
    /// of the transactions that have begun and not ended. Returns the largest
    /// sequence number among the records, 0 where there is none; `None` where
    /// a record cannot be replayed.
    pub fn replay(&mut self, entries: &Vec<LogEntry>, trans: &mut HashMap<u64, Vec<LogEntry>>) -> (max_seq_num: Option<u64>)
        requires
            old(self).wf(),
        ensures
            final(self).wf(),
            final(self).log_num() == old(self).log_num(),
            final(self).logged() == old(self).logged(),
            match replay_all(old(self).replay_state(old(trans)@, 0), entries_view(entries@)) {
                Some(s) => max_seq_num == Some(s.max_seq) && final(self).replay_state(
                    final(trans)@,
                    s.max_seq,
                ) == s,
                None => max_seq_num.is_none(),
            },
    {
        broadcast use vstd::std_specs::hash::group_hash_axioms;

        let n: usize = entries.len();
        let ghost all = entries_view(entries@);
        let ghost start = self.replay_state(trans@, 0);
        let mut max_seq_num: u64 = 0;
        let mut i: usize = 0;
        assert(all.take(0) =~= Seq::<LogEntryView>::empty());
        while i < n
            invariant
                i <= n,
                n == entries@.len(),
                all == entries_view(entries@),
                self.wf(),
                self.log_num() == old(self).log_num(),
                self.logged() == old(self).logged(),
                start == old(self).replay_state(old(trans)@, 0),
                replay_all(start, all.take(i as int)) == Some(
                    self.replay_state(trans@, max_seq_num),
                ),
            decreases n - i,
        {
            let e = &entries[i];
            let ghost st = self.replay_state(trans@, max_seq_num);
            proof {
                assert(all.take(i as int + 1).drop_last() =~= all.take(i as int));
                assert(all.take(i as int + 1).last() == e@);
            }
            let seen: u64 = if e.seq_num > max_seq_num {
                e.seq_num
            } else {
                max_seq_num
            };
            let ghost seen_st = ReplayState { max_seq: seen, ..st };
            let too_long: bool = e.key.len() as u64 > u64::MAX - 8;
            let mut ok: bool = true;
            if e.entry_type == 0 {
                if too_long {
                    ok = false;
                } else {
                    self.insert_inner(e.key.as_slice(), e.value.as_slice(), e.seq_num, false);
                }
            } else if e.entry_type == 1 {
                if too_long {
                    ok = false;
                } else {
                    self.delete_inner(e.key.as_slice(), e.seq_num, false);
                }
            } else if e.entry_type == 2 || e.entry_type == 3 {
                match trans.remove(&e.seq_num) {
                    Some(mut staged) => {
                        let ghost before = entries_view(staged@);
                        let copy = e.duplicate();
                        assert(entries_view(staged@.push(copy)) =~= before.push(e@));
                        staged.push(copy);
                        trans.insert(e.seq_num, staged);
                        assert(trans_view(trans@) =~= st.trans.insert(
                            e.seq_num,
                            st.trans[e.seq_num].push(e@),
                        ));
                    },
                    None => {
                        ok = false;
                    },
                }
            } else if e.entry_type == 4 {
                let none: Vec<LogEntry> = Vec::new();
                assert(entries_view(none@) =~= Seq::<LogEntryView>::empty());
                trans.insert(e.seq_num, none);
                assert(trans_view(trans@) =~= st.trans.insert(
                    e.seq_num,
                    Seq::<LogEntryView>::empty(),
                ));
            } else if e.entry_type == 5 {
                match trans.remove(&e.seq_num) {
                    Some(staged) => {
                        assert(trans_view(trans@) =~= st.trans.remove(e.seq_num));
                        ok = self.apply(&staged, Ghost(seen_st));
                    },
                    None => {
                        ok = false;
                    },
                }
            } else if e.entry_type == 6 {
                trans.remove(&e.seq_num);
                assert(trans_view(trans@) =~= st.trans.remove(e.seq_num));
            } else {
                ok = false;
            }
            if !ok {
                proof {
                    assert(replay_one(st, e@).is_none());
                    lemma_replay_all_fails(start, all, i as int + 1);
                }
                return None;
            }
            max_seq_num = seen;
            i = i + 1;
        }
        assert(all.take(n as int) =~= all);
        Some(max_seq_num)
    }

    /// Rebuilds the table from the bytes of log number `log_num` and makes
    /// that log the table's log. Returns the largest sequence number in the
    /// log; `None` where the bytes do not split into records or a record
    /// cannot be replayed.
    pub fn recover(&mut self, log_bytes: &[u8], log_num: u64, trans: &mut HashMap<u64, Vec<LogEntry>>) -> (max_seq_num: Option<u64>)
        requires
            old(self).wf(),
        ensures
            final(self).wf(),
            final(self).log_num() == Some(log_num),
            final(self).logged() == Seq::<u8>::empty(),
            match parse_log(log_bytes@, 0) {
                Some(entries) => match replay_all(old(self).replay_state(old(trans)@, 0), entries) {
                    Some(s) => max_seq_num == Some(s.max_seq) && final(self).replay_state(
                        final(trans)@,
                        s.max_seq,
                    ) == s,
                    None => max_seq_num.is_none(),
                },
                None => max_seq_num.is_none(),
            },
    {
        let res = match Log::read(log_bytes) {
            Some(entries) => self.replay(&entries, trans),
            None => None,
        };
        self.writer = Some(Log::open(log_num));
        res
    }
}

/// Where a run of staged records cannot be applied, no longer run can.
pub proof fn lemma_apply_staged_fails(st: ReplayState, staged: Seq<LogEntryView>, n: int)
    requires
        0 <= n <= staged.len(),
        apply_staged(st, staged.take(n)).is_none(),
    ensures
        apply_staged(st, staged).is_none(),
    decreases staged.len() - n,
{
    if n < staged.len() {
        assert(staged.take(n + 1).drop_last() =~= staged.take(n));
        lemma_apply_staged_fails(st, staged, n + 1);
    } else {
        assert(staged.take(n) =~= staged);
    }
}

/// Where a run of records cannot be replayed, no longer run can.
pub proof fn lemma_replay_all_fails(st: ReplayState, entries: Seq<LogEntryView>, n: int)
    requires
        0 <= n <= entries.len(),
        replay_all(st, entries.take(n)).is_none(),
    ensures
        replay_all(st, entries).is_none(),
    decreases entries.len() - n,
{
    if n < entries.len() {
        assert(entries.take(n + 1).drop_last() =~= entries.take(n));
        lemma_replay_all_fails(st, entries, n + 1);
    } else {
        assert(entries.take(n) =~= entries);
    }
}

} // verus!
