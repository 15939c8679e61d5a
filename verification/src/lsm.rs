//! The engine: configuration and the state that ties the parts together.
//!
//! The engine is a state machine. It owns the in-memory table that takes the
//! writes, the in-memory table that waits to be written out, the levels, the
//! counters and the writes that transactions have staged. Every operation
//! is one step. Whoever embeds the engine guards it with a lock, appends the
//! log bytes that a step leaves to the log files, and runs the work in the
//! background: it takes a job, lets the engine compute it, writes the image
//! of the table that was made to a file, and hands the result back.

use vstd::prelude::*;
use std::collections::HashMap;
use crate::bytes_order::bytes_equal;
use crate::compaction::{compacted_into, flushed_into, Compaction};
use crate::key::{LookUpKey, LookUpKeyView};
use crate::levels::{levels_lookup, put_tables, drop_all, shown, starts_view, pick_start, Levels};
use crate::memtable::{grown, marker, mem_lookup, mem_put, MemTable, MemView};
use crate::levels::{empty_levels, reversed};
use crate::memtable::{larger, replay_all, ReplayState};
use crate::table::{parse_table, Table};
use crate::wal::{parse_log, LogEntry};
use crate::utils::copy_bytes;
use crate::wal::LogEntryView;

verus! {

/// The sizes that shape the store.
pub struct Config {
    /// A data block is closed once it is longer than this.
    pub block_size: usize,
    /// Level 0 is compacted once it holds more tables than this.
    pub l0_compaction_threshold: usize,
    /// Level 1 is compacted once its tables are longer than this together;
    /// each deeper level may hold 16 times as much as the one above it.
    pub l1_max_bytes: u64,
    /// The number of levels.
    pub max_levels: usize,
    /// The in-memory table is set aside for flushing once it counts this
    /// many bytes.
    pub write_buffer_size: usize,
}

impl Config {
    /// The default sizes: blocks of 4 KiB, 4 tables in level 0, 64 MiB in
    /// level 1, 7 levels, and an in-memory table of 4 MiB.
    pub fn new() -> (config: Config)
        ensures
            config.block_size == 4096,
            config.l0_compaction_threshold == 4,
            config.l1_max_bytes == 67108864,
            config.max_levels == 7,
            config.write_buffer_size == 4194304,
    {
        Config {
            block_size: 4 * 1024,
            l0_compaction_threshold: 4,
            l1_max_bytes: 64 * 1024 * 1024,
            max_levels: 7,
            write_buffer_size: 4 * 1024 * 1024,
        }
    }
}

/// A write that a transaction has staged: a key, the sequence number that
/// the write was staged with, and the value; an empty value stands for a
/// delete.
pub struct Staged {
    pub key: Vec<u8>,
    pub seq_num: u64,
    pub value: Vec<u8>,
}

/// What a staged write stands for.
pub struct StagedView {
    pub key: Seq<u8>,
    pub seq_num: u64,
    pub value: Seq<u8>,
}

impl View for Staged {
    type V = StagedView;

    open spec fn view(&self) -> StagedView {
        StagedView { key: self.key@, seq_num: self.seq_num, value: self.value@ }
    }
}

/// The views of a list of staged writes.
pub open spec fn staged_view(ops: Seq<Staged>) -> Seq<StagedView> {
    ops.map_values(|o: Staged| o@)
}

/// The number of staged writes at the front of `ops` that are not for `key`
/// at `seq_num`.
pub open spec fn staged_place(ops: Seq<StagedView>, key: Seq<u8>, seq_num: u64) -> int
    decreases ops.len(),
{
    if ops.len() == 0 {
        0
    } else if ops[0].key == key && ops[0].seq_num == seq_num {
        0
    } else {
        1 + staged_place(ops.drop_first(), key, seq_num)
    }
}

/// The staged writes after one more was staged: it takes the place of the
/// write staged for the same key at the same sequence number, or goes last.
pub open spec fn stage(ops: Seq<StagedView>, key: Seq<u8>, seq_num: u64, value: Seq<u8>) -> Seq<StagedView> {
    let p = staged_place(ops, key, seq_num);
    let op = StagedView { key, seq_num, value };
    if p < ops.len() {
        ops.update(p, op)
    } else {
        ops.push(op)
    }
}

/// The value staged for `key` at `seq_num`, if there is one.
pub open spec fn staged_value(ops: Seq<StagedView>, key: Seq<u8>, seq_num: u64) -> Option<Seq<u8>> {
    let p = staged_place(ops, key, seq_num);
    if p < ops.len() {
        Some(ops[p].value)
    } else {
        None
    }
}

/// The in-memory table after the staged writes were applied in order as
/// writes of a transaction: one with an empty value as a delete, any other
/// as a put.
pub open spec fn commit_mem(m: MemView, ops: Seq<StagedView>) -> MemView
    decreases ops.len(),
{
    if ops.len() == 0 {
        m
    } else {
        let o = ops.last();
        let before = commit_mem(m, ops.drop_last());
        if o.value.len() == 0 {
            mem_put(before, o.key, o.seq_num, 3, Seq::<u8>::empty())
        } else {
            mem_put(before, o.key, o.seq_num, 2, o.value)
        }
    }
}

/// The log records of the staged writes, in order.
pub open spec fn commit_log(ops: Seq<StagedView>) -> Seq<u8>
    decreases ops.len(),
{
    if ops.len() == 0 {
        Seq::<u8>::empty()
    } else {
        let o = ops.last();
        commit_log(ops.drop_last()) + (LogEntryView {
            entry_type: if o.value.len() == 0 {
                3u8
            } else {
                2u8
            },
            key: o.key,
            value: o.value,
            seq_num: o.seq_num,
        }).encoding()
    }
}

/// The count of bytes after the staged writes were applied.
pub open spec fn commit_bytes(bytes: usize, ops: Seq<StagedView>) -> usize
    decreases ops.len(),
{
    if ops.len() == 0 {
        bytes
    } else {
        let o = ops.last();
        grown(commit_bytes(bytes, ops.drop_last()), 8 + o.key.len() + o.value.len())
    }
}

/// Every staged write has a key that can be framed.
pub open spec fn staged_fit(ops: Seq<StagedView>) -> bool {
    forall|i: int| 0 <= i < ops.len() ==> (#[trigger] ops[i]).key.len() + 8 <= u64::MAX
}

/// The number behind `n`, or 0 where there is none.
pub open spec fn next_num(n: u64) -> u64 {
    if n == u64::MAX {
        0
    } else {
        (n + 1) as u64
    }
}

/// The transaction number behind `n`: 0 is no transaction's number.
pub open spec fn next_tx(n: u64) -> u64 {
    if n == u64::MAX {
        1
    } else {
        (n + 1) as u64
    }
}

/// The number before `n`, or the largest number where there is none.
pub open spec fn prev_num(n: u64) -> u64 {
    if n == 0 {
        u64::MAX
    } else {
        (n - 1) as u64
    }
}

/// The number behind `n`, or 0 where there is none.
pub fn succ(n: u64) -> (r: u64)
    ensures
        r == next_num(n),
{
    if n == u64::MAX {
        0
    } else {
        n + 1
    }
}

/// What the engine holds.
pub struct LsmView {
    /// The sequence number that the next write gets.
    pub next_seq_num: u64,
    /// The number that the next log gets.
    pub next_log_num: u64,
    /// The in-memory table that takes the writes.
    pub mem: MemView,
    /// Its count of bytes.
    pub mem_bytes: usize,
    /// The number of its log.
    pub mem_log: u64,
    /// The in-memory table that waits to be written out, if there is one.
    pub im: Option<MemView>,
    /// The job that waits for the work in the background: `Some(Some(m))`
    /// to write out the in-memory table `m`, `Some(None)` to try a
    /// compaction, `None` where no job waits.
    pub slot: Option<Option<MemView>>,
    /// The tables, level by level.
    pub levels: Seq<Seq<Table>>,
    /// Whether a table was handed to the work in the background and the
    /// work on it is not done.
    pub running_compaction: bool,
    /// The number that the next transaction gets.
    pub tx_num: u64,
    /// The writes that the transactions have staged.
    pub txs: Map<u64, Seq<StagedView>>,
    /// The transaction that may write; 0 where none holds the right.
    pub tx_write_lock: u64,
    /// The log bytes that wait to be appended to log files: for each run of
    /// bytes the number of its log.
    pub log_out: Seq<(u64, Seq<u8>)>,
}

impl LsmView {
    /// What a look-up for `key` finds: as of the sequence number `version`,
    /// or as of the last sequence number given out. The in-memory table that
    /// takes the writes answers first, then the one that waits to be written
    /// out, then the levels. A table that was handed to the work in the
    /// background is not looked at: what it holds shows again once the table
    /// made of it is in the levels.
    pub open spec fn lookup(self, key: Seq<u8>, version: Option<u64>) -> Option<Seq<u8>> {
        let seq_num = match version {
            Some(s) => s,
            None => prev_num(self.next_seq_num),
        };
        let first = mem_lookup(self.mem, key, seq_num);
        if first.is_some() {
            first.unwrap()
        } else {
            let second = match self.im {
                Some(m) => mem_lookup(m, key, seq_num),
                None => None,
            };
            if second.is_some() {
                second.unwrap()
            } else {
                shown(levels_lookup(self.levels, 0, key, seq_num))
            }
        }
    }

    /// The engine after a put: the put takes the next sequence number, goes
    /// to the log and into the in-memory table.
    pub open spec fn put(self, key: Seq<u8>, value: Seq<u8>) -> LsmView {
        LsmView {
            next_seq_num: next_num(self.next_seq_num),
            mem: mem_put(self.mem, key, self.next_seq_num, 0, value),
            mem_bytes: grown(self.mem_bytes, 8 + key.len() + value.len()),
            log_out: self.log_out.push(
                (
                    self.mem_log,
                    (LogEntryView { entry_type: 0, key, value, seq_num: self.next_seq_num }).encoding(),
                ),
            ),
            ..self
        }
    }

    /// The engine after a delete: the delete takes the next sequence number,
    /// goes to the log and into the in-memory table.
    pub open spec fn removed(self, key: Seq<u8>) -> LsmView {
        LsmView {
            next_seq_num: next_num(self.next_seq_num),
            mem: mem_put(self.mem, key, self.next_seq_num, 1, Seq::<u8>::empty()),
            mem_bytes: grown(self.mem_bytes, 8 + key.len()),
            log_out: self.log_out.push(
                (
                    self.mem_log,
                    (LogEntryView {
                        entry_type: 1,
                        key,
                        value: Seq::<u8>::empty(),
                        seq_num: self.next_seq_num,
                    }).encoding(),
                ),
            ),
            ..self
        }
    }

    /// The engine after the step that follows every write. Where a table
    /// waits to be written out, no table was handed on whose work is not
    /// done, and no job waits: the table is handed on as a job. Else, where
    /// the table that takes the writes counts `write_buffer_size` bytes or
    /// more and no table waits to be written out: it is set aside to wait,
    /// and a new table with a new log takes the writes.
    pub open spec fn rotated(self, write_buffer_size: usize) -> LsmView {
        if self.im.is_some() && !self.running_compaction && self.slot.is_none() {
            LsmView { im: None, slot: Some(self.im), running_compaction: true, ..self }
        } else if self.mem_bytes >= write_buffer_size && self.im.is_none() {
            LsmView {
                im: Some(self.mem),
                mem: Map::<(Seq<u8>, u64), (u8, Seq<u8>)>::empty(),
                mem_bytes: 0,
                mem_log: self.next_log_num,
                next_log_num: next_num(self.next_log_num),
                ..self
            }
        } else {
            self
        }
    }

    /// The engine after a transaction took the right to write, or as it was
    /// where another transaction holds the right.
    pub open spec fn locked(self, tx_id: u64) -> LsmView {
        if self.tx_write_lock == 0 {
            LsmView { tx_write_lock: tx_id, ..self }
        } else {
            self
        }
    }

    /// Whether the transaction may write: no other transaction holds the right.
    pub open spec fn may_write(self, tx_id: u64) -> bool {
        self.tx_write_lock == 0 || self.tx_write_lock == tx_id
    }

    /// The engine after a transaction staged a write.
    pub open spec fn staged(self, tx_id: u64, seq_num: u64, key: Seq<u8>, value: Seq<u8>) -> LsmView {
        if self.may_write(tx_id) {
            LsmView {
                tx_write_lock: tx_id,
                txs: self.txs.insert(tx_id, stage(self.txs[tx_id], key, seq_num, value)),
                ..self
            }
        } else {
            self
        }
    }

    /// What a look-up within a transaction finds: the value that the
    /// transaction staged for the key at the sequence number, or what the
    /// store shows as of the sequence number.
    pub open spec fn tx_lookup(self, tx_id: u64, seq_num: u64, key: Seq<u8>) -> Option<Seq<u8>> {
        match staged_value(self.txs[tx_id], key, seq_num) {
            Some(v) => Some(v),
            None => self.lookup(key, Some(seq_num)),
        }
    }

    /// The engine after a transaction was committed: the begin marker, the
    /// staged writes and the commit marker go to the log in one run, the
    /// writes go into the in-memory table, the staged writes are dropped and
    /// the right to write is given back.
    pub open spec fn committed(self, tx_id: u64) -> LsmView {
        let ops = self.txs[tx_id];
        let seq_num = ops[0].seq_num;
        LsmView {
            mem: commit_mem(self.mem, ops),
            mem_bytes: commit_bytes(self.mem_bytes, ops),
            log_out: self.log_out.push(
                (
                    self.mem_log,
                    marker(4, seq_num).encoding() + commit_log(ops) + marker(5, seq_num).encoding(),
                ),
            ),
            txs: self.txs.remove(tx_id),
            tx_write_lock: if self.tx_write_lock == tx_id {
                0
            } else {
                self.tx_write_lock
            },
            ..self
        }
    }

    /// The engine after a transaction was aborted: the staged writes are
    /// dropped and the right to write is given back. Nothing goes to the
    /// log and nothing into the in-memory table.
    pub open spec fn aborted(self, tx_id: u64) -> LsmView {
        LsmView {
            txs: self.txs.remove(tx_id),
            tx_write_lock: if self.tx_write_lock == tx_id {
                0
            } else {
                self.tx_write_lock
            },
            ..self
        }
    }
}

/// The staged writes of the transactions, as plain values.
pub open spec fn txs_view(txs: Map<u64, Vec<Staged>>) -> Map<u64, Seq<StagedView>> {
    Map::new(|k: u64| txs.contains_key(k), |k: u64| staged_view(txs[k]@))
}

/// The log bytes that wait, as plain values.
pub open spec fn log_out_view(out: Seq<(u64, Vec<u8>)>) -> Seq<(u64, Seq<u8>)> {
    out.map_values(|o: (u64, Vec<u8>)| (o.0, o.1@))
}

/// `at` is the number of staged writes at the front that are not for `key`
/// at `seq_num`.
pub proof fn lemma_staged_place(ops: Seq<StagedView>, key: Seq<u8>, seq_num: u64, at: int)
    requires
        0 <= at <= ops.len(),
        forall|k: int|
            0 <= k < at ==> !((#[trigger] ops[k]).key == key && ops[k].seq_num == seq_num),
        at < ops.len() ==> ops[at].key == key && ops[at].seq_num == seq_num,
    ensures
        staged_place(ops, key, seq_num) == at,
    decreases ops.len(),
{
    if ops.len() > 0 && at > 0 {
        let rest = ops.drop_first();
        assert(!(ops[0].key == key && ops[0].seq_num == seq_num));
        assert forall|k: int| 0 <= k < at - 1 implies !((#[trigger] rest[k]).key == key
            && rest[k].seq_num == seq_num) by {
            assert(rest[k] == ops[k + 1]);
        }
        lemma_staged_place(rest, key, seq_num, at - 1);
    }
}

/// The place in `ops` of the write staged for `key` at `seq_num`, or the
/// number of staged writes where there is none.
pub fn find_staged(ops: &Vec<Staged>, key: &[u8], seq_num: u64) -> (at: usize)
    ensures
        at == staged_place(staged_view(ops@), key@, seq_num),
        at <= ops@.len(),
{
    let n: usize = ops.len();
    let ghost sv = staged_view(ops@);
    let mut i: usize = 0;
    while i < n
        invariant
            i <= n,
            n == ops@.len(),
            sv == staged_view(ops@),
            forall|k: int|
                0 <= k < i ==> !((#[trigger] sv[k]).key == key@ && sv[k].seq_num == seq_num),
        decreases n - i,
    {
        assert(sv[i as int] == ops@[i as int]@);
        if ops[i].seq_num == seq_num && bytes_equal(ops[i].key.as_slice(), key) {
            proof {
                lemma_staged_place(sv, key@, seq_num, i as int);
            }
            return i;
        }
        i = i + 1;
    }
    proof {
        lemma_staged_place(sv, key@, seq_num, n as int);
    }
    n
}

/// Stages a write: in place of the write staged for the same key at the
/// same sequence number, or behind the others.
pub fn stage_op(ops: &mut Vec<Staged>, key: &[u8], seq_num: u64, value: &[u8])
    ensures
        staged_view(final(ops)@) == stage(staged_view(old(ops)@), key@, seq_num, value@),
{
    let at = find_staged(ops, key, seq_num);
    let op = Staged { key: copy_bytes(key), seq_num, value: copy_bytes(value) };
    let ghost before = staged_view(ops@);
    if at < ops.len() {
        ops.set(at, op);
        assert(staged_view(ops@) =~= before.update(at as int, op@));
    } else {
        ops.push(op);
        assert(staged_view(ops@) =~= before.push(op@));
    }
}

/// The engine.
pub struct LsmDb {
    config: Config,
    next_seq_num: u64,
    next_log_num: u64,
    mem_table: MemTable,
    im_mem_table: Option<MemTable>,
    slot: Option<Option<MemTable>>,
    levels: Levels,
    running_compaction: bool,
    input_start: Vec<Option<(LookUpKey, LookUpKey)>>,
    tx_num: u64,
    tx_cache_table: HashMap<u64, Vec<Staged>>,
    tx_write_lock: u64,
    log_out: Vec<(u64, Vec<u8>)>,
}

/// The view of an in-memory table that may be there.
pub open spec fn option_view(m: Option<MemTable>) -> Option<MemView> {
    match m {
        Some(t) => Some(t@),
        None => None,
    }
}

/// The view of a job that may wait.
pub open spec fn slot_view(slot: Option<Option<MemTable>>) -> Option<Option<MemView>> {
    match slot {
        Some(job) => Some(option_view(job)),
        None => None,
    }
}

/// An in-memory table that may be there is well-formed and no log bytes
/// wait in it.
pub open spec fn option_wf(m: Option<MemTable>) -> bool {
    match m {
        Some(t) => t.wf() && t.logged() == Seq::<u8>::empty(),
        None => true,
    }
}

impl View for LsmDb {
    type V = LsmView;

    closed spec fn view(&self) -> LsmView {
        LsmView {
            next_seq_num: self.next_seq_num,
            next_log_num: self.next_log_num,
            mem: self.mem_table@,
            mem_bytes: self.mem_table.bytes(),
            mem_log: self.mem_table.log_num().unwrap(),
            im: option_view(self.im_mem_table),
            slot: slot_view(self.slot),
            levels: self.levels.tables(),
            running_compaction: self.running_compaction,
            tx_num: self.tx_num,
            txs: txs_view(self.tx_cache_table@),
            tx_write_lock: self.tx_write_lock,
            log_out: log_out_view(self.log_out@),
        }
    }
}

impl LsmDb {
    /// The sizes that shape the store.
    pub closed spec fn config(&self) -> Config {
        self.config
    }

    /// Where the next compaction of each level starts.
    pub closed spec fn starts(&self) -> Seq<Option<(LookUpKeyView, LookUpKeyView)>> {
        starts_view(self.input_start@)
    }

    /// The parts of the engine are well-formed and fit together.
    pub closed spec fn wf(&self) -> bool {
        &&& self.mem_table.wf()
        &&& self.mem_table.log_num().is_some()
        &&& self.mem_table.logged() == Seq::<u8>::empty()
        &&& option_wf(self.im_mem_table)
        &&& (match self.slot {
            Some(job) => option_wf(job),
            None => true,
        })
        &&& self.levels.wf()
        &&& self.levels.block_size() == self.config.block_size
        &&& self.levels.l0_threshold() == self.config.l0_compaction_threshold
        &&& self.levels.l1_max_bytes() == self.config.l1_max_bytes
        &&& self.levels.tables().len() == self.config.max_levels
        &&& (self.input_start@.len() == 0 || self.input_start@.len() == self.levels.tables().len())
        &&& forall|k: u64|
            self.tx_cache_table@.contains_key(k) ==> staged_fit(
                #[trigger] staged_view(self.tx_cache_table@[k]@),
            )
    }

    /// Moves the log bytes that wait in the table that takes the writes to
    /// the engine's own list.
    fn collect_log(&mut self)
        requires
            old(self).mem_table.log_num().is_some(),
        ensures
            final(self).mem_table@ == old(self).mem_table@,
            final(self).mem_table.wf() == old(self).mem_table.wf(),
            final(self).mem_table.bytes() == old(self).mem_table.bytes(),
            final(self).mem_table.log_num() == old(self).mem_table.log_num(),
            final(self).mem_table.logged() == Seq::<u8>::empty(),
            log_out_view(final(self).log_out@) == log_out_view(old(self).log_out@).push(
                (old(self).mem_table.log_num().unwrap(), old(self).mem_table.logged()),
            ),
            final(self).config == old(self).config,
            final(self).next_seq_num == old(self).next_seq_num,
            final(self).next_log_num == old(self).next_log_num,
            final(self).im_mem_table == old(self).im_mem_table,
            final(self).slot == old(self).slot,
            final(self).levels == old(self).levels,
            final(self).running_compaction == old(self).running_compaction,
            final(self).input_start == old(self).input_start,
            final(self).tx_num == old(self).tx_num,
            final(self).tx_cache_table == old(self).tx_cache_table,
            final(self).tx_write_lock == old(self).tx_write_lock,
    {
        let ghost before = log_out_view(self.log_out@);
        match self.mem_table.take_logged() {
            Some((n, bytes)) => {
                assert(log_out_view(self.log_out@.push((n, bytes))) =~= before.push((n, bytes@)));
                self.log_out.push((n, bytes));
            },
            None => {},
        }
    }

    /// The step that follows every write: hands the table that waits to be
    /// written out to the work in the background, where that can be done;
    /// else sets the table that takes the writes aside, where it is full.
    pub fn may_compact_mem_table(&mut self)
        requires
            old(self).wf(),
        ensures
            final(self).wf(),
            final(self)@ == old(self)@.rotated(old(self).config().write_buffer_size),
            final(self).config() == old(self).config(),
            final(self).starts() == old(self).starts(),
    {
        if self.im_mem_table.is_some() && !self.running_compaction && self.slot.is_none() {
            let im = self.im_mem_table.take();
            self.slot = Some(im);
            self.running_compaction = true;
        } else if self.mem_table.get_size() >= self.config.write_buffer_size
            && self.im_mem_table.is_none() {
            let mut fresh = MemTable::new();
            fresh.set_writer(self.next_log_num);
            self.next_log_num = succ(self.next_log_num);
            std::mem::swap(&mut self.mem_table, &mut fresh);
            self.im_mem_table = Some(fresh);
        }
    }

    /// Puts `value` under `key`.
    pub fn insert(&mut self, key: &[u8], value: &[u8])
        requires
            old(self).wf(),
            key@.len() + 8 <= u64::MAX,
        ensures
            final(self).wf(),
            final(self)@ == old(self)@.put(key@, value@).rotated(
                old(self).config().write_buffer_size,
            ),
            final(self).config() == old(self).config(),
            final(self).starts() == old(self).starts(),
    {
        let seq_num: u64 = self.next_seq_num;
        self.next_seq_num = succ(seq_num);
        self.mem_table.insert(key, value, seq_num, false);
        self.collect_log();
        assert(self@ == old(self)@.put(key@, value@));
        self.may_compact_mem_table();
    }

    /// Deletes `key`.
    pub fn delete(&mut self, key: &[u8])
        requires
            old(self).wf(),
            key@.len() + 8 <= u64::MAX,
        ensures
            final(self).wf(),
            final(self)@ == old(self)@.removed(key@).rotated(old(self).config().write_buffer_size),
            final(self).config() == old(self).config(),
            final(self).starts() == old(self).starts(),
    {
        let seq_num: u64 = self.next_seq_num;
        self.next_seq_num = succ(seq_num);
        self.mem_table.delete(key, seq_num, false);
        self.collect_log();
        assert(self@ == old(self)@.removed(key@));
        self.may_compact_mem_table();
    }

    /// Looks `key` up as of the sequence number `version`, or as of the last
    /// sequence number given out. Returns the value of the newest put that
    /// is not newer; `None` where the newest version is a delete or there is
    /// no version.
    pub fn search(&self, key: &[u8], version: Option<u64>) -> (res: Option<Vec<u8>>)
        requires
            self.wf(),
        ensures
            match self@.lookup(key@, version) {
                Some(v) => res.is_some() && res.unwrap()@ == v,
                None => res.is_none(),
            },
    {
        let seq_num: u64 = match version {
            Some(s) => s,
            None => if self.next_seq_num == 0 {
                u64::MAX
            } else {
                self.next_seq_num - 1
            },
        };
        let first = self.mem_table.search(key, seq_num);
        if first.is_some() {
            return first.unwrap();
        }
        let second = match &self.im_mem_table {
            Some(t) => t.search(key, seq_num),
            None => None,
        };
        if second.is_some() {
            return second.unwrap();
        }
        self.levels.search(key, seq_num)
    }

    /// Takes the log bytes that wait to be appended to log files: for each
    /// run of bytes the number of its log, in the order in which they were
    /// written.
    pub fn take_log_output(&mut self) -> (out: Vec<(u64, Vec<u8>)>)
        requires
            old(self).wf(),
        ensures
            final(self).wf(),
            log_out_view(out@) == old(self)@.log_out,
            final(self)@ == (LsmView { log_out: Seq::<(u64, Seq<u8>)>::empty(), ..old(self)@ }),
            final(self).config() == old(self).config(),
            final(self).starts() == old(self).starts(),
    {
        let mut out: Vec<(u64, Vec<u8>)> = Vec::new();
        std::mem::swap(&mut self.log_out, &mut out);
        assert(log_out_view(self.log_out@) =~= Seq::<(u64, Seq<u8>)>::empty());
        out
    }
}

/// The place of a staged write lies within the list or right behind it.
pub proof fn lemma_staged_place_bound(ops: Seq<StagedView>, key: Seq<u8>, seq_num: u64)
    ensures
        0 <= staged_place(ops, key, seq_num) <= ops.len(),
    decreases ops.len(),
{
    if ops.len() > 0 {
        lemma_staged_place_bound(ops.drop_first(), key, seq_num);
    }
}

/// Applying one more staged write.
pub proof fn lemma_commit_step(m: MemView, bytes: usize, ops: Seq<StagedView>, n: int)
    requires
        0 <= n < ops.len(),
    ensures
        commit_mem(m, ops.take(n + 1)) == (if ops[n].value.len() == 0 {
            mem_put(commit_mem(m, ops.take(n)), ops[n].key, ops[n].seq_num, 3, Seq::<u8>::empty())
        } else {
            mem_put(commit_mem(m, ops.take(n)), ops[n].key, ops[n].seq_num, 2, ops[n].value)
        }),
        commit_bytes(bytes, ops.take(n + 1)) == grown(
            commit_bytes(bytes, ops.take(n)),
            8 + ops[n].key.len() + ops[n].value.len(),
        ),
        commit_log(ops.take(n + 1)) == commit_log(ops.take(n)) + (LogEntryView {
            entry_type: if ops[n].value.len() == 0 {
                3u8
            } else {
                2u8
            },
            key: ops[n].key,
            value: ops[n].value,
            seq_num: ops[n].seq_num,
        }).encoding(),
{
    assert(ops.take(n + 1).drop_last() =~= ops.take(n));
    assert(ops.take(n + 1).last() == ops[n]);
}

impl LsmDb {
    /// Whether the transaction is known: it has begun and was neither
    /// committed nor aborted.
    pub fn has_tx(&self, tx_id: u64) -> (r: bool)
        ensures
            r == self@.txs.contains_key(tx_id),
    {
        broadcast use vstd::std_specs::hash::group_hash_axioms;

        self.tx_cache_table.contains_key(&tx_id)
    }

    /// The number of writes that the transaction has staged.
    pub fn staged_count(&self, tx_id: u64) -> (n: usize)
        requires
            self@.txs.contains_key(tx_id),
        ensures
            n == self@.txs[tx_id].len(),
    {
        broadcast use vstd::std_specs::hash::group_hash_axioms;

        match self.tx_cache_table.get(&tx_id) {
            Some(ops) => ops.len(),
            None => 0,
        }
    }

    /// Takes the right to write for the transaction. Returns whether the
    /// transaction has the right: `false` where another transaction holds it.
    pub fn get_tx_write_lock(&mut self, tx_id: u64) -> (ok: bool)
        requires
            old(self).wf(),
        ensures
            final(self).wf(),
            ok == old(self)@.may_write(tx_id),
            final(self)@ == old(self)@.locked(tx_id),
            final(self).config() == old(self).config(),
            final(self).starts() == old(self).starts(),
    {
        if self.tx_write_lock == tx_id {
            true
        } else if self.tx_write_lock == 0 {
            self.tx_write_lock = tx_id;
            true
        } else {
            false
        }
    }

    /// Gives the right to write back, where the transaction holds it.
    pub fn free_tx_write_lock(&mut self, tx_id: u64)
        requires
            old(self).wf(),
        ensures
            final(self).wf(),
            final(self)@ == (LsmView {
                tx_write_lock: if old(self)@.tx_write_lock == tx_id {
                    0
                } else {
                    old(self)@.tx_write_lock
                },
                ..old(self)@
            }),
            final(self).config() == old(self).config(),
            final(self).starts() == old(self).starts(),
    {
        if self.tx_write_lock == tx_id {
            self.tx_write_lock = 0;
        }
    }

    /// Begins a transaction. Returns its number and the sequence number for
    /// its writes.
    pub fn tx_begin(&mut self) -> (res: (u64, u64))
        requires
            old(self).wf(),
        ensures
            final(self).wf(),
            res.0 == old(self)@.tx_num,
            res.1 == old(self)@.next_seq_num,
            final(self)@ == (LsmView {
                tx_num: next_tx(old(self)@.tx_num),
                next_seq_num: next_num(old(self)@.next_seq_num),
                txs: old(self)@.txs.insert(res.0, Seq::<StagedView>::empty()),
                ..old(self)@
            }),
            final(self).config() == old(self).config(),
            final(self).starts() == old(self).starts(),
    {
        broadcast use vstd::std_specs::hash::group_hash_axioms;

        let tx_id: u64 = self.tx_num;
        self.tx_num = if tx_id == u64::MAX {
            1
        } else {
            tx_id + 1
        };
        let seq_num: u64 = self.next_seq_num;
        self.next_seq_num = succ(seq_num);
        let none: Vec<Staged> = Vec::new();
        assert(staged_view(none@) =~= Seq::<StagedView>::empty());
        self.tx_cache_table.insert(tx_id, none);
        assert(txs_view(self.tx_cache_table@) =~= old(self)@.txs.insert(
            tx_id,
            Seq::<StagedView>::empty(),
        ));
        (tx_id, seq_num)
    }

    /// Stages a put for the transaction. Returns `false`, and stages
    /// nothing, where another transaction holds the right to write. The
    /// writes of a transaction share its sequence number; a write staged for
    /// a key takes the place of the write staged for the key before, so that
    /// no two writes of a transaction are for one key.
    pub fn tx_insert(&mut self, tx_id: u64, seq_num: u64, key: &[u8], value: &[u8]) -> (ok: bool)
        requires
            old(self).wf(),
            old(self)@.txs.contains_key(tx_id),
            key@.len() + 8 <= u64::MAX,
        ensures
            final(self).wf(),
            ok == old(self)@.may_write(tx_id),
            final(self)@ == old(self)@.staged(tx_id, seq_num, key@, value@),
            final(self).config() == old(self).config(),
            final(self).starts() == old(self).starts(),
    {
        broadcast use vstd::std_specs::hash::group_hash_axioms;

        if !self.get_tx_write_lock(tx_id) {
            return false;
        }
        let ghost before = self@.txs;
        let ghost map_before = self.tx_cache_table@;
        match self.tx_cache_table.remove(&tx_id) {
            Some(mut ops) => {
                let ghost was = staged_view(ops@);
                stage_op(&mut ops, key, seq_num, value);
                proof {
                    let now = staged_view(ops@);
                    assert(staged_fit(was));
                    lemma_staged_place_bound(was, key@, seq_num);
                    assert forall|i: int| 0 <= i < now.len() implies (#[trigger] now[i]).key.len() + 8
                        <= u64::MAX by {
                        let p = staged_place(was, key@, seq_num);
                        if i != p {
                            assert(now[i] == was[i]);
                        }
                    }
                }
                self.tx_cache_table.insert(tx_id, ops);
                proof {
                    assert(txs_view(self.tx_cache_table@) =~= before.insert(
                        tx_id,
                        stage(before[tx_id], key@, seq_num, value@),
                    ));
                    assert forall|k: u64| self.tx_cache_table@.contains_key(k) implies staged_fit(
                        #[trigger] staged_view(self.tx_cache_table@[k]@),
                    ) by {
                        if k != tx_id {
                            assert(map_before.contains_key(k));
                            assert(self.tx_cache_table@[k] == map_before[k]);
                        }
                    }
                }
            },
            None => {},
        }
        true
    }

    /// Stages a delete for the transaction. Returns `false`, and stages
    /// nothing, where another transaction holds the right to write.
    pub fn tx_delete(&mut self, tx_id: u64, seq_num: u64, key: &[u8]) -> (ok: bool)
        requires
            old(self).wf(),
            old(self)@.txs.contains_key(tx_id),
            key@.len() + 8 <= u64::MAX,
        ensures
            final(self).wf(),
            ok == old(self)@.may_write(tx_id),
            final(self)@ == old(self)@.staged(tx_id, seq_num, key@, Seq::<u8>::empty()),
            final(self).config() == old(self).config(),
            final(self).starts() == old(self).starts(),
    {
        let none: Vec<u8> = Vec::new();
        self.tx_insert(tx_id, seq_num, key, none.as_slice())
    }

    /// Looks `key` up within the transaction: the value that the
    /// transaction staged for it at `seq_num`, or what the store shows as of
    /// `seq_num`.
    pub fn tx_search(&self, tx_id: u64, seq_num: u64, key: &[u8]) -> (res: Option<Vec<u8>>)
        requires
            self.wf(),
            self@.txs.contains_key(tx_id),
        ensures
            match self@.tx_lookup(tx_id, seq_num, key@) {
                Some(v) => res.is_some() && res.unwrap()@ == v,
                None => res.is_none(),
            },
    {
        broadcast use vstd::std_specs::hash::group_hash_axioms;

        match self.tx_cache_table.get(&tx_id) {
            Some(ops) => {
                let at = find_staged(ops, key, seq_num);
                if at < ops.len() {
                    assert(staged_view(ops@)[at as int] == ops@[at as int]@);
                    return Some(copy_bytes(ops[at].value.as_slice()));
                }
            },
            None => {},
        }
        self.search(key, Some(seq_num))
    }

    /// Commits the transaction: its begin marker, its staged writes and its
    /// commit marker go to the log in one run and the writes into the
    /// in-memory table. The transaction must have staged a write.
    pub fn tx_commit(&mut self, tx_id: u64)
        requires
            old(self).wf(),
            old(self)@.txs.contains_key(tx_id),
            old(self)@.txs[tx_id].len() > 0,
        ensures
            final(self).wf(),
            final(self)@ == old(self)@.committed(tx_id),
            final(self).config() == old(self).config(),
            final(self).starts() == old(self).starts(),
    {
        broadcast use vstd::std_specs::hash::group_hash_axioms;

        let ghost map_before = self.tx_cache_table@;
        let ghost before = self@;
        let ops = match self.tx_cache_table.remove(&tx_id) {
            Some(ops) => ops,
            None => Vec::new(),
        };
        let ghost sv = staged_view(ops@);
        assert(sv == before.txs[tx_id]);
        assert(staged_fit(sv));
        assert(txs_view(self.tx_cache_table@) =~= before.txs.remove(tx_id));
        assert forall|k: u64| self.tx_cache_table@.contains_key(k) implies staged_fit(
            #[trigger] staged_view(self.tx_cache_table@[k]@),
        ) by {
            assert(map_before.contains_key(k));
            assert(self.tx_cache_table@[k] == map_before[k]);
        }
        assert(sv[0] == ops@[0]@);
        let seq_num: u64 = ops[0].seq_num;
        self.mem_table.begin_tx(seq_num);
        let n: usize = ops.len();
        let mut i: usize = 0;
        assert(sv.take(0) =~= Seq::<StagedView>::empty());
        assert(self.mem_table.logged() =~= marker(4, seq_num).encoding() + commit_log(sv.take(0)));
        while i < n
            invariant
                i <= n,
                n == ops@.len(),
                sv == staged_view(ops@),
                staged_fit(sv),
                self.mem_table.wf(),
                self.mem_table.log_num() == old(self).mem_table.log_num(),
                self.mem_table.log_num().is_some(),
                self.mem_table@ == commit_mem(before.mem, sv.take(i as int)),
                self.mem_table.bytes() == commit_bytes(before.mem_bytes, sv.take(i as int)),
                self.mem_table.logged() == marker(4, seq_num).encoding() + commit_log(
                    sv.take(i as int),
                ),
                self.config == old(self).config,
                self.next_seq_num == old(self).next_seq_num,
                self.next_log_num == old(self).next_log_num,
                self.im_mem_table == old(self).im_mem_table,
                self.slot == old(self).slot,
                self.levels == old(self).levels,
                self.running_compaction == old(self).running_compaction,
                self.input_start == old(self).input_start,
                self.tx_num == old(self).tx_num,
                self.tx_write_lock == old(self).tx_write_lock,
                self.log_out == old(self).log_out,
                txs_view(self.tx_cache_table@) == before.txs.remove(tx_id),
                forall|k: u64|
                    self.tx_cache_table@.contains_key(k) ==> staged_fit(
                        #[trigger] staged_view(self.tx_cache_table@[k]@),
                    ),
            decreases n - i,
        {
            let op = &ops[i];
            proof {
                assert(sv[i as int] == op@);
                lemma_commit_step(before.mem, before.mem_bytes, sv, i as int);
            }
            let ghost logged = self.mem_table.logged();
            if op.value.len() == 0 {
                self.mem_table.delete(op.key.as_slice(), op.seq_num, true);
                assert(op.value@ =~= Seq::<u8>::empty());
            } else {
                self.mem_table.insert(op.key.as_slice(), op.value.as_slice(), op.seq_num, true);
            }
            proof {
                let rec = (LogEntryView {
                    entry_type: if op.value@.len() == 0 {
                        3u8
                    } else {
                        2u8
                    },
                    key: op.key@,
                    value: op.value@,
                    seq_num: op.seq_num,
                }).encoding();
                assert(self.mem_table.logged() == logged + rec);
                assert(logged + rec =~= marker(4, seq_num).encoding() + (commit_log(
                    sv.take(i as int),
                ) + rec));
            }
            i = i + 1;
        }
        assert(sv.take(n as int) =~= sv);
        self.mem_table.commit_tx(seq_num);
        self.collect_log();
        if self.tx_write_lock == tx_id {
            self.tx_write_lock = 0;
        }
        proof {
            let bytes = marker(4, seq_num).encoding() + commit_log(sv) + marker(5, seq_num).encoding();
            assert(self@.log_out =~= before.log_out.push((before.mem_log, bytes)));
        }
    }

    /// Aborts the transaction: drops its staged writes and gives the right
    /// to write back. Nothing goes to the log.
    pub fn tx_abort(&mut self, tx_id: u64)
        requires
            old(self).wf(),
        ensures
            final(self).wf(),
            final(self)@ == old(self)@.aborted(tx_id),
            final(self).config() == old(self).config(),
            final(self).starts() == old(self).starts(),
    {
        broadcast use vstd::std_specs::hash::group_hash_axioms;

        let ghost map_before = self.tx_cache_table@;
        self.tx_cache_table.remove(&tx_id);
        assert(txs_view(self.tx_cache_table@) =~= old(self)@.txs.remove(tx_id));
        assert forall|k: u64| self.tx_cache_table@.contains_key(k) implies staged_fit(
            #[trigger] staged_view(self.tx_cache_table@[k]@),
        ) by {
            assert(map_before.contains_key(k));
            assert(self.tx_cache_table@[k] == map_before[k]);
        }
        if self.tx_write_lock == tx_id {
            self.tx_write_lock = 0;
        }
    }
}

/// The place of the first among the largest numbers of `s`.
pub open spec fn max_at(s: Seq<u64>) -> int
    decreases s.len(),
{
    if s.len() <= 1 {
        0
    } else {
        let m = max_at(s.drop_last());
        if s.last() > s[m] {
            s.len() - 1
        } else {
            m
        }
    }
}

/// The two largest numbers of `s`, the larger first; fewer where `s` holds fewer.
pub open spec fn two_largest(s: Seq<u64>) -> Seq<u64> {
    if s.len() == 0 {
        s
    } else if s.len() == 1 {
        seq![s[0]]
    } else {
        let rest = s.remove(max_at(s));
        seq![s[max_at(s)], rest[max_at(rest)]]
    }
}

/// The place of the first among the largest numbers.
pub fn first_max(nums: &Vec<u64>) -> (at: usize)
    requires
        nums@.len() > 0,
    ensures
        at == max_at(nums@),
        at < nums@.len(),
{
    let n: usize = nums.len();
    let mut at: usize = 0;
    let mut i: usize = 1;
    assert(nums@.take(1).len() == 1);
    while i < n
        invariant
            1 <= i <= n,
            n == nums@.len(),
            at < i,
            at == max_at(nums@.take(i as int)),
        decreases n - i,
    {
        proof {
            assert(nums@.take(i as int + 1).drop_last() =~= nums@.take(i as int));
            assert(nums@.take(i as int + 1).last() == nums@[i as int]);
            assert(nums@.take(i as int)[at as int] == nums@[at as int]);
            assert(nums@.take(i as int + 1)[at as int] == nums@[at as int]);
        }
        if nums[i] > nums[at] {
            at = i;
        }
        i = i + 1;
    }
    assert(nums@.take(n as int) =~= nums@);
    at
}

/// Of the numbers of the log files that were found, the numbers of the logs
/// to recover from: the two largest, the larger first.
pub fn select_logs(log_nums: &Vec<u64>) -> (picked: Vec<u64>)
    ensures
        picked@ == two_largest(log_nums@),
        picked@.len() <= 2,
{
    let n: usize = log_nums.len();
    let mut picked: Vec<u64> = Vec::new();
    if n == 0 {
        assert(picked@ =~= log_nums@);
        return picked;
    }
    if n == 1 {
        picked.push(log_nums[0]);
        assert(picked@ =~= seq![log_nums@[0]]);
        return picked;
    }
    let first = first_max(log_nums);
    picked.push(log_nums[first]);
    let mut rest: Vec<u64> = Vec::new();
    let mut i: usize = 0;
    while i < n
        invariant
            i <= n,
            n == log_nums@.len(),
            first < n,
            rest@ == (if i <= first {
                log_nums@.take(i as int)
            } else {
                log_nums@.take(i as int).remove(first as int)
            }),
        decreases n - i,
    {
        if i != first {
            rest.push(log_nums[i]);
            proof {
                if i < first {
                    assert(log_nums@.take(i as int + 1) =~= log_nums@.take(i as int).push(
                        log_nums@[i as int],
                    ));
                } else {
                    assert(log_nums@.take(i as int + 1).remove(first as int) =~= log_nums@.take(
                        i as int,
                    ).remove(first as int).push(log_nums@[i as int]));
                }
            }
        } else {
            assert(log_nums@.take(i as int + 1).remove(first as int) =~= log_nums@.take(i as int));
        }
        i = i + 1;
    }
    assert(log_nums@.take(n as int) =~= log_nums@);
    let second = first_max(&rest);
    picked.push(rest[second]);
    assert(picked@ =~= two_largest(log_nums@));
    picked
}

/// What replaying the bytes of a log into an empty table leads to, given the
/// records of the transactions that have begun and not ended; `None` where
/// the bytes do not split into records or a record cannot be replayed.
pub open spec fn replayed(bytes: Seq<u8>, trans: Map<u64, Seq<LogEntryView>>) -> Option<ReplayState> {
    match parse_log(bytes, 0) {
        Some(entries) => replay_all(
            ReplayState {
                mem: Map::<(Seq<u8>, u64), (u8, Seq<u8>)>::empty(),
                bytes: 0,
                trans,
                max_seq: 0,
            },
            entries,
        ),
        None => None,
    }
}

/// What the logs, newest first, are recovered to: the in-memory table that
/// takes the writes with its count of bytes and the number of its log, the
/// table that waits to be written out, and the largest sequence number. The
/// first log is replayed into the table that takes the writes, the second
/// into the table that waits; further logs are left aside. `None` where a
/// log cannot be replayed.
pub open spec fn recovered_logs(logs: Seq<(u64, Seq<u8>)>) -> Option<(MemView, usize, u64, Option<MemView>, u64)> {
    let none = Map::<u64, Seq<LogEntryView>>::empty();
    if logs.len() == 0 {
        Some((Map::<(Seq<u8>, u64), (u8, Seq<u8>)>::empty(), 0usize, 0u64, None::<MemView>, 0u64))
    } else {
        match replayed(logs[0].1, none) {
            Some(first) => if logs.len() == 1 {
                Some((first.mem, first.bytes, logs[0].0, None::<MemView>, first.max_seq))
            } else {
                match replayed(logs[1].1, first.trans) {
                    Some(second) => Some(
                        (
                            first.mem,
                            first.bytes,
                            logs[0].0,
                            Some(second.mem),
                            larger(first.max_seq, second.max_seq),
                        ),
                    ),
                    None => None,
                }
            },
            None => None,
        }
    }
}

/// The file numbers and images, as plain values.
pub open spec fn files_view(files: Seq<(u64, Vec<u8>)>) -> Seq<(u64, Seq<u8>)> {
    files.map_values(|f: (u64, Vec<u8>)| (f.0, f.1@))
}

/// The image is the image of a table in order of a level that there is, and
/// the file number is not the largest number.
pub open spec fn file_ok(file: (u64, Seq<u8>), max_levels: usize) -> bool {
    &&& parse_table(file.1).is_some()
    &&& parse_table(file.1).unwrap().valid()
    &&& parse_table(file.1).unwrap().footer.level < max_levels
    &&& file.0 < u64::MAX
}

/// Every file holds a table in order of a level that there is.
pub open spec fn tables_ok(files: Seq<(u64, Seq<u8>)>, max_levels: usize) -> bool {
    forall|i: int| 0 <= i < files.len() ==> file_ok(#[trigger] files[i], max_levels)
}

/// The table is the one read from the file: well-formed, with the file's
/// number and image.
pub open spec fn opened_as(table: Table, file: (u64, Seq<u8>)) -> bool {
    table.wf() && table.id() == file.0 && table.image() == file.1
}

/// The tables are those read from the files.
pub open spec fn opened_from(tables: Seq<Table>, files: Seq<(u64, Seq<u8>)>) -> bool {
    &&& tables.len() == files.len()
    &&& forall|i: int| 0 <= i < tables.len() ==> opened_as(#[trigger] tables[i], files[i])
}

/// Reads a table back from its file. `None` where the file holds no table in
/// order of a level that there is.
pub fn open_file(num: u64, bytes: Vec<u8>, max_levels: usize) -> (res: Option<Table>)
    ensures
        res.is_some() <==> file_ok((num, bytes@), max_levels),
        res matches Some(t) ==> opened_as(t, (num, bytes@)) && t@.footer.level < max_levels
            && t.id() < u64::MAX,
{
    match Table::open(num, bytes) {
        Some(t) => {
            proof {
                t.lemma_wf();
            }
            if t.get_level() >= max_levels || num == u64::MAX {
                None
            } else {
                Some(t)
            }
        },
        None => None,
    }
}

/// Reads the tables back from their files. `None` where a file holds no
/// table in order of a level that there is.
pub fn open_tables(files: Vec<(u64, Vec<u8>)>, max_levels: usize) -> (res: Option<Vec<Table>>)
    ensures
        res.is_some() <==> tables_ok(files_view(files@), max_levels),
        res matches Some(tables) ==> opened_from(tables@, files_view(files@)) && forall|i: int|
            0 <= i < tables@.len() ==> (#[trigger] tables@[i])@.footer.level < max_levels
                && tables@[i].id() < u64::MAX,
{
    let ghost all = files_view(files@);
    let n: usize = files.len();
    let mut rest = reversed(files);
    assert forall|i: int| 0 <= i < rest@.len() implies all[n - 1 - i] == ((#[trigger] rest@[i]).0, rest@[i].1@) by {
        assert(rest@[i] == files@[n - 1 - i]);
    }
    let mut tables: Vec<Table> = Vec::new();
    let mut k: usize = 0;
    while k < n
        invariant
            k <= n,
            n == all.len(),
            all == files_view(files@),
            rest@.len() == n - k,
            forall|i: int|
                0 <= i < rest@.len() ==> all[n - 1 - i] == ((#[trigger] rest@[i]).0, rest@[i].1@),
            tables@.len() == k,
            forall|i: int| 0 <= i < k ==> file_ok(#[trigger] all[i], max_levels),
            forall|i: int| 0 <= i < k ==> opened_as(#[trigger] tables@[i], all[i]),
            forall|i: int|
                0 <= i < tables@.len() ==> (#[trigger] tables@[i])@.footer.level < max_levels
                    && tables@[i].id() < u64::MAX,
        decreases n - k,
    {
        let popped = rest.pop();
        match popped {
            Some(file) => {
                assert(all[k as int] == (file.0, file.1@));
                match open_file(file.0, file.1, max_levels) {
                    Some(t) => {
                        tables.push(t);
                    },
                    None => {
                        assert(!file_ok(all[k as int], max_levels));
                        return None;
                    },
                }
            },
            None => {},
        }
        k = k + 1;
    }
    Some(tables)
}

impl LsmDb {
    /// The engine with the default sizes, recovered from what was found in
    /// its directory: the logs to recover from, newest first, and the table
    /// files, each with its number and bytes. Of the logs the first two are
    /// taken. `None` where a log or a table file cannot be read back.
    pub fn new(logs: Vec<(u64, Vec<u8>)>, tables: Vec<(u64, Vec<u8>)>) -> (res: Option<LsmDb>)
        ensures
            res.is_some() <==> (recovered_logs(files_view(logs@)).is_some() && tables_ok(
                files_view(tables@),
                7,
            )),
            res matches Some(db) ==> db.wf() && db.recovered_from(
                files_view(logs@),
                files_view(tables@),
            ) && db.config().max_levels == 7,
    {
        LsmDb::with_config(Config::new(), logs, tables)
    }

    /// The engine is what recovery from the logs and table files leads to.
    pub closed spec fn recovered_from(&self, logs: Seq<(u64, Seq<u8>)>, files: Seq<(u64, Seq<u8>)>) -> bool {
        let r = recovered_logs(logs).unwrap();
        &&& self@.mem == r.0
        &&& self@.mem_bytes == r.1
        &&& self@.mem_log == r.2
        &&& self@.im == r.3
        &&& self@.next_seq_num == next_num(r.4)
        &&& self@.next_log_num == next_num(r.2)
        &&& self@.slot.is_none()
        &&& !self@.running_compaction
        &&& self@.tx_num == 1
        &&& self@.txs == Map::<u64, Seq<StagedView>>::empty()
        &&& self@.tx_write_lock == 0
        &&& self@.log_out == Seq::<(u64, Seq<u8>)>::empty()
        &&& self.starts().len() == 0
        &&& exists|opened: Seq<Table>| #[trigger]
            opened_from(opened, files) && self@.levels == put_tables(
                empty_levels(self.config.max_levels as nat),
                opened,
            )
    }

    /// What follows for an engine that was recovered.
    pub proof fn lemma_recovered_from(&self, logs: Seq<(u64, Seq<u8>)>, files: Seq<(u64, Seq<u8>)>)
        requires
            self.recovered_from(logs, files),
        ensures
            ({
                let r = recovered_logs(logs).unwrap();
                &&& self@.mem == r.0
                &&& self@.mem_bytes == r.1
                &&& self@.mem_log == r.2
                &&& self@.im == r.3
                &&& self@.next_seq_num == next_num(r.4)
                &&& self@.next_log_num == next_num(r.2)
                &&& self@.slot.is_none()
                &&& !self@.running_compaction
                &&& self@.tx_num == 1
                &&& self@.txs == Map::<u64, Seq<StagedView>>::empty()
                &&& self@.tx_write_lock == 0
                &&& self@.log_out == Seq::<(u64, Seq<u8>)>::empty()
                &&& self.starts().len() == 0
                &&& exists|opened: Seq<Table>| #[trigger]
                    opened_from(opened, files) && self@.levels == put_tables(
                        empty_levels(self.config().max_levels as nat),
                        opened,
                    )
            }),
    {
    }

    /// The engine with the given sizes, recovered from the logs, newest
    /// first, and the table files. Of the logs the first two are taken.
    /// `None` where a log or a table file cannot be read back.
    pub fn with_config(config: Config, logs: Vec<(u64, Vec<u8>)>, tables: Vec<(u64, Vec<u8>)>) -> (res: Option<LsmDb>)
        ensures
            res.is_some() <==> (recovered_logs(files_view(logs@)).is_some() && tables_ok(
                files_view(tables@),
                config.max_levels,
            )),
            res matches Some(db) ==> db.wf() && db.config() == config && db.recovered_from(
                files_view(logs@),
                files_view(tables@),
            ),
    {
        broadcast use vstd::std_specs::hash::group_hash_axioms;

        let ghost lv = files_view(logs@);
        let mut trans: HashMap<u64, Vec<LogEntry>> = HashMap::new();
        assert(crate::memtable::trans_view(trans@) =~= Map::<u64, Seq<LogEntryView>>::empty());
        let mut max_seq_num: u64 = 0;
        let mut max_log_num: u64 = 0;
        let mut mem_table = MemTable::new();
        let mut im_mem_table: Option<MemTable> = None;
        if logs.len() >= 1 {
            assert(lv[0] == (logs@[0].0, logs@[0].1@));
            max_log_num = logs[0].0;
            match mem_table.recover(logs[0].1.as_slice(), logs[0].0, &mut trans) {
                Some(s) => {
                    max_seq_num = s;
                },
                None => {
                    return None;
                },
            }
            if logs.len() >= 2 {
                assert(lv[1] == (logs@[1].0, logs@[1].1@));
                let mut older = MemTable::new();
                match older.recover(logs[1].1.as_slice(), logs[1].0, &mut trans) {
                    Some(s) => {
                        if s > max_seq_num {
                            max_seq_num = s;
                        }
                    },
                    None => {
                        return None;
                    },
                }
                im_mem_table = Some(older);
            }
        }
        mem_table.set_writer(max_log_num);
        let ghost fv = files_view(tables@);
        let opened = match open_tables(tables, config.max_levels) {
            Some(t) => t,
            None => {
                return None;
            },
        };
        let ghost opened_seq = opened@;
        let levels = Levels::new(opened, &config);
        let db = LsmDb {
            config,
            next_seq_num: succ(max_seq_num),
            next_log_num: succ(max_log_num),
            mem_table,
            im_mem_table,
            slot: None,
            levels,
            running_compaction: false,
            input_start: Vec::new(),
            tx_num: 1,
            tx_cache_table: HashMap::new(),
            tx_write_lock: 0,
            log_out: Vec::new(),
        };
        proof {
            assert(db@.txs =~= Map::<u64, Seq<StagedView>>::empty());
            assert(db@.log_out =~= Seq::<(u64, Seq<u8>)>::empty());
            assert(opened_from(opened_seq, fv) && db@.levels == put_tables(
                empty_levels(db.config.max_levels as nat),
                opened_seq,
            ));
        }
        Some(db)
    }
}

impl LsmDb {
    /// Puts under `key` what `f` makes of the value shown for it. Does
    /// nothing where no value is shown.
    pub fn update<F: Fn(Vec<u8>) -> Vec<u8>>(&mut self, key: &[u8], f: F)
        requires
            old(self).wf(),
            key@.len() + 8 <= u64::MAX,
            forall|v: Vec<u8>| call_requires(f, (v,)),
        ensures
            final(self).wf(),
            final(self).config() == old(self).config(),
            final(self).starts() == old(self).starts(),
            match old(self)@.lookup(key@, None) {
                None => final(self)@ == old(self)@,
                Some(shown) => exists|v: Vec<u8>, made: Vec<u8>|
                    v@ == shown && #[trigger] call_ensures(f, (v,), made) && final(self)@ == old(
                        self,
                    )@.put(key@, made@).rotated(old(self).config().write_buffer_size),
            },
    {
        let old_value = self.search(key, None);
        match old_value {
            Some(v) => {
                let ghost given = v;
                let made = f(v);
                self.insert(key, made.as_slice());
                assert(given@ == old(self)@.lookup(key@, None).unwrap() && call_ensures(
                    f,
                    (given,),
                    made,
                ) && self@ == old(self)@.put(key@, made@).rotated(
                    old(self).config().write_buffer_size,
                ));
            },
            None => {},
        }
    }

    /// Stages for the transaction a put of what `f` makes of the value that
    /// a look-up within the transaction shows for `key`. Stages nothing
    /// where no value is shown. Returns `false`, and does nothing, where
    /// another transaction holds the right to write.
    pub fn tx_update<F: Fn(Vec<u8>) -> Vec<u8>>(&mut self, tx_id: u64, seq_num: u64, key: &[u8], f: F) -> (ok: bool)
        requires
            old(self).wf(),
            old(self)@.txs.contains_key(tx_id),
            key@.len() + 8 <= u64::MAX,
            forall|v: Vec<u8>| call_requires(f, (v,)),
        ensures
            final(self).wf(),
            final(self).config() == old(self).config(),
            final(self).starts() == old(self).starts(),
            ok == old(self)@.may_write(tx_id),
            !ok ==> final(self)@ == old(self)@,
            ok ==> match old(self)@.tx_lookup(tx_id, seq_num, key@) {
                None => final(self)@ == old(self)@.locked(tx_id),
                Some(shown) => exists|v: Vec<u8>, made: Vec<u8>|
                    v@ == shown && #[trigger] call_ensures(f, (v,), made) && final(self)@ == old(
                        self,
                    )@.staged(tx_id, seq_num, key@, made@),
            },
    {
        if !self.get_tx_write_lock(tx_id) {
            return false;
        }
        let old_value = self.tx_search(tx_id, seq_num, key);
        match old_value {
            Some(v) => {
                let ghost given = v;
                let made = f(v);
                self.tx_insert(tx_id, seq_num, key, made.as_slice());
                assert(given@ == old(self)@.tx_lookup(tx_id, seq_num, key@).unwrap() && call_ensures(
                    f,
                    (given,),
                    made,
                ) && self@ == old(self)@.staged(tx_id, seq_num, key@, made@));
            },
            None => {},
        }
        true
    }

    /// Takes the job that waits for the work in the background, if one
    /// waits: `Some(Some(m))` to write out the in-memory table `m`,
    /// `Some(None)` to try a compaction. With the job comes the file number
    /// for the table that the job may make. Taking a job moves on the places
    /// where the compactions of the levels start.
    pub fn take_job(&mut self) -> (job: Option<(Option<MemTable>, u64)>)
        requires
            old(self).wf(),
        ensures
            final(self).wf(),
            final(self).config() == old(self).config(),
            final(self)@ == (LsmView { slot: None, ..old(self)@ }),
            match job {
                Some((table, file_num)) => {
                    &&& old(self)@.slot == Some(option_view(table))
                    &&& option_wf(table)
                    &&& file_num == old(self).next_file()
                    &&& final(self).next_file() == next_num(old(self).next_file())
                    &&& final(self).starts().len() == final(self)@.levels.len()
                    &&& forall|l: int|
                        0 <= l < final(self)@.levels.len() ==> (#[trigger] final(self).starts()[l])
                            == pick_start(
                            final(self)@.levels[l],
                            l,
                            if old(self).starts().len() == 0 {
                                None
                            } else {
                                old(self).starts()[l]
                            },
                        )
                },
                None => old(self)@.slot.is_none() && final(self).starts() == old(self).starts()
                    && final(self).next_file() == old(self).next_file(),
            },
    {
        match self.slot.take() {
            Some(table) => {
                let starts = self.levels.get_input_start(&self.input_start);
                self.input_start = starts;
                let file_num = self.levels.take_file_num();
                Some((table, file_num))
            },
            None => None,
        }
    }

    /// The number that the next table file gets.
    pub closed spec fn next_file(&self) -> u64 {
        self.levels.next_file()
    }

    /// The levels.
    pub fn get_levels(&self) -> (levels: &Levels)
        requires
            self.wf(),
        ensures
            levels.wf(),
            levels.tables() == self@.levels,
            levels.next_file() == self.next_file(),
    {
        &self.levels
    }

    /// The sizes that shape the store.
    pub fn get_config(&self) -> (config: &Config)
        ensures
            *config == self.config(),
    {
        &self.config
    }

    /// The count of bytes of the in-memory table that takes the writes.
    pub fn get_mem_size(&self) -> (size: usize)
        ensures
            size == self@.mem_bytes,
    {
        self.mem_table.get_size()
    }

    /// Whether an in-memory table waits to be written out.
    pub fn has_immutable(&self) -> (r: bool)
        ensures
            r == self@.im.is_some(),
    {
        self.im_mem_table.is_some()
    }

    /// Computes a job: writes the in-memory table out as a table of level
    /// 0, or compacts the first level that holds more than it may and has a
    /// table to start from. The engine stays as it is; the result is to be
    /// handed back once the image of the table that was made is written.
    /// Nothing is compacted before a job was taken for the first time.
    pub fn run_job(&self, table: Option<MemTable>, file_num: u64) -> (done: Compaction)
        requires
            self.wf(),
            option_wf(table),
        ensures
            forall|i: int|
                0 <= i < done.new_tables@.len() ==> (#[trigger] done.new_tables@[i]).wf()
                    && done.new_tables@[i]@.footer.level < self@.levels.len(),
            match table {
                Some(m) => {
                    &&& done.deleted_tables@.len() == 0
                    &&& done.inputs@.len() == 0
                    &&& done.removed_log == m.log_num()
                    &&& self@.levels.len() > 0 ==> flushed_into(
                        m@,
                        done.new_tables@,
                        file_num,
                        self.config().block_size,
                    )
                    &&& self@.levels.len() == 0 ==> done.new_tables@.len() == 0
                },
                None => {
                    &&& done.removed_log.is_none()
                    &&& self.starts().len() == self@.levels.len() ==> compacted_into(
                        self@.levels,
                        self.starts(),
                        self.config().l0_compaction_threshold,
                        self.config().l1_max_bytes,
                        done.inputs@,
                        done.deleted_tables@,
                        done.new_tables@,
                        file_num,
                        self.config().block_size,
                    )
                    &&& self.starts().len() != self@.levels.len() ==> done.inputs@.len() == 0
                        && done.deleted_tables@.len() == 0 && done.new_tables@.len() == 0
                },
            },
    {
        if table.is_none() && self.input_start.len() != self.levels.depth() {
            // no job was taken yet: the places where compactions start are not set
            return Compaction {
                deleted_tables: Vec::new(),
                new_tables: Vec::new(),
                removed_log: None,
                inputs: Vec::new(),
            };
        }
        self.levels.background_compaction(table, &self.input_start, file_num)
    }

    /// Takes in the result of a job: the tables that went into it leave the
    /// levels and the tables that it made come in. Where the job did
    /// something and no job waits, a compaction is set to wait as the next
    /// job. Returns whether it was.
    pub fn finish_job(&mut self, deleted_tables: &Vec<(usize, u64)>, new_tables: Vec<Table>) -> (again: bool)
        requires
            old(self).wf(),
            forall|i: int|
                0 <= i < new_tables@.len() ==> (#[trigger] new_tables@[i]).wf()
                    && new_tables@[i]@.footer.level < old(self)@.levels.len(),
        ensures
            final(self).wf(),
            final(self).config() == old(self).config(),
            final(self).starts() == old(self).starts(),
            final(self).next_file() == old(self).next_file(),
            again == ((deleted_tables@.len() > 0 || new_tables@.len() > 0)
                && old(self)@.slot.is_none()),
            final(self)@ == (LsmView {
                levels: put_tables(drop_all(old(self)@.levels, deleted_tables@), new_tables@),
                running_compaction: false,
                slot: if again {
                    Some(None::<MemView>)
                } else {
                    old(self)@.slot
                },
                ..old(self)@
            }),
    {
        let did: bool = deleted_tables.len() > 0 || new_tables.len() > 0;
        self.levels.update(deleted_tables, new_tables);
        self.running_compaction = false;
        if did && self.slot.is_none() {
            self.slot = Some(None);
            true
        } else {
            false
        }
    }
}

} // verus!
