//! What holds of the store whatever is done with it.
//!
//! The laws speak of the engine's states and steps as the contracts of the
//! engine's operations describe them.

use vstd::prelude::*;
use crate::lsm::{commit_bytes, commit_log, commit_mem, next_num, prev_num, stage, staged_fit, staged_place, staged_value, LsmView, StagedView};
use crate::memtable::{answer, apply_staged, is_newest, larger, marker, mem_lookup, mem_put, replay_all, replay_one, MemView, ReplayState, SEQ_LIMIT};
use crate::wal::{encode_log, lemma_parse_log_encoding, parse_log, LogEntryView};

verus! {

/// Every version in the table is older than `limit`.
pub open spec fn older_than(m: MemView, limit: u64) -> bool {
    forall|k: (Seq<u8>, u64)| #[trigger] m.contains_key(k) ==> k.1 < limit
}

impl LsmView {
    /// The sequence numbers are in order: the next one fits in 56 bits, and
    /// every version in the in-memory tables is older than it.
    pub open spec fn ordered(self) -> bool {
        &&& self.next_seq_num < SEQ_LIMIT
        &&& older_than(self.mem, self.next_seq_num)
        &&& self.im matches Some(m) ==> older_than(m, self.next_seq_num)
    }
}

/// A look-up finds the version at the snapshot, where there is one.
pub proof fn lemma_lookup_at(m: MemView, key: Seq<u8>, seq_num: u64)
    requires
        seq_num < SEQ_LIMIT,
        m.contains_key((key, seq_num)),
    ensures
        mem_lookup(m, key, seq_num) == Some(answer(m[(key, seq_num)])),
{
    assert(is_newest(m, key, seq_num, seq_num));
    let c = choose|c: u64| is_newest(m, key, seq_num, c);
    assert(c == seq_num);
}

/// A look-up as of a snapshot finds the same before and after a write that
/// is newer than the snapshot.
pub proof fn lemma_put_keeps_snapshot(
    m: MemView,
    user_key: Seq<u8>,
    seq_num: u64,
    op: u8,
    value: Seq<u8>,
    key: Seq<u8>,
    snapshot: u64,
)
    requires
        seq_num % SEQ_LIMIT > snapshot % SEQ_LIMIT,
    ensures
        mem_lookup(mem_put(m, user_key, seq_num, op, value), key, snapshot) == mem_lookup(
            m,
            key,
            snapshot,
        ),
{
    let after = mem_put(m, user_key, seq_num, op, value);
    let snap = (snapshot % SEQ_LIMIT) as u64;
    let s = (seq_num % SEQ_LIMIT) as u64;
    assert forall|c: u64| is_newest(after, key, snap, c) <==> is_newest(m, key, snap, c) by {
        if is_newest(after, key, snap, c) {
            assert(m.contains_key((key, c)));
            assert forall|t: u64| m.contains_key((key, t)) && t <= snap implies t <= c by {
                assert(after.contains_key((key, t)));
            }
        }
        if is_newest(m, key, snap, c) {
            assert(after.contains_key((key, c)));
            assert forall|t: u64| after.contains_key((key, t)) && t <= snap implies t <= c by {
                assert(m.contains_key((key, t)));
            }
        }
    }
    if exists|c: u64| is_newest(m, key, snap, c) {
        let c = choose|c: u64| is_newest(m, key, snap, c);
        assert(is_newest(after, key, snap, c));
        let d = choose|d: u64| is_newest(after, key, snap, d);
        assert(is_newest(m, key, snap, d));
        assert(c == d);
        assert(after[(key, c)] == m[(key, c)]);
    }
}

/// Read-your-writes: after a put, and the step that follows every write,
/// the store shows the value that was put.
pub proof fn lemma_read_your_writes(v: LsmView, key: Seq<u8>, value: Seq<u8>, write_buffer_size: usize)
    requires
        v.ordered(),
    ensures
        v.put(key, value).rotated(write_buffer_size).lookup(key, None) == Some(value),
{
    let s = v.next_seq_num;
    let a = v.put(key, value);
    assert(prev_num(a.next_seq_num) == s);
    assert(!v.mem.contains_key((key, s)));
    lemma_lookup_at(a.mem, key, s);
    let b = a.rotated(write_buffer_size);
    if b.mem != a.mem {
        assert(b.im == Some(a.mem));
        assert(forall|c: u64| !is_newest(b.mem, key, s, c));
    }
}

/// Delete hides: after a delete, and the step that follows every write, the
/// store shows nothing for the key.
pub proof fn lemma_delete_hides(v: LsmView, key: Seq<u8>, write_buffer_size: usize)
    requires
        v.ordered(),
    ensures
        v.removed(key).rotated(write_buffer_size).lookup(key, None).is_none(),
{
    let s = v.next_seq_num;
    let a = v.removed(key);
    assert(prev_num(a.next_seq_num) == s);
    assert(!v.mem.contains_key((key, s)));
    lemma_lookup_at(a.mem, key, s);
    let b = a.rotated(write_buffer_size);
    if b.mem != a.mem {
        assert(b.im == Some(a.mem));
        assert(forall|c: u64| !is_newest(b.mem, key, s, c));
    }
}

/// A put after a put shows the later value; a put after a delete shows the
/// value again.
pub proof fn lemma_put_after(v: LsmView, key: Seq<u8>, value: Seq<u8>, write_buffer_size: usize)
    requires
        v.ordered(),
        v.next_seq_num + 1 < SEQ_LIMIT,
    ensures
        v.removed(key).rotated(write_buffer_size).put(key, value).rotated(
            write_buffer_size,
        ).lookup(key, None) == Some(value),
{
    lemma_removed_ordered(v, key);
    lemma_rotated_ordered(v.removed(key), write_buffer_size);
    lemma_read_your_writes(v.removed(key).rotated(write_buffer_size), key, value, write_buffer_size);
}

/// Monotonic sequence numbers: a put, a delete and the begin of a
/// transaction take the next sequence number, and the one after them takes
/// a larger one.
pub proof fn lemma_seq_grows(v: LsmView, key: Seq<u8>, value: Seq<u8>, write_buffer_size: usize)
    requires
        v.next_seq_num < u64::MAX,
    ensures
        v.put(key, value).next_seq_num > v.next_seq_num,
        v.removed(key).next_seq_num > v.next_seq_num,
        v.put(key, value).rotated(write_buffer_size).next_seq_num == v.put(key, value).next_seq_num,
        v.removed(key).rotated(write_buffer_size).next_seq_num == v.removed(key).next_seq_num,
{
}

/// The order of the sequence numbers outlasts a put.
pub proof fn lemma_put_ordered(v: LsmView, key: Seq<u8>, value: Seq<u8>)
    requires
        v.ordered(),
        v.next_seq_num + 1 < SEQ_LIMIT,
    ensures
        v.put(key, value).ordered(),
{
    let a = v.put(key, value);
    assert forall|k: (Seq<u8>, u64)| #[trigger] a.mem.contains_key(k) implies k.1 < a.next_seq_num by {
        if k != (key, v.next_seq_num) {
            assert(v.mem.contains_key(k));
        }
    }
    if v.im.is_some() {
        let m = v.im.unwrap();
        assert forall|k: (Seq<u8>, u64)| #[trigger] m.contains_key(k) implies k.1 < a.next_seq_num by {}
    }
}

/// The order of the sequence numbers outlasts a delete.
pub proof fn lemma_removed_ordered(v: LsmView, key: Seq<u8>)
    requires
        v.ordered(),
        v.next_seq_num + 1 < SEQ_LIMIT,
    ensures
        v.removed(key).ordered(),
{
    let a = v.removed(key);
    assert forall|k: (Seq<u8>, u64)| #[trigger] a.mem.contains_key(k) implies k.1 < a.next_seq_num by {
        if k != (key, v.next_seq_num) {
            assert(v.mem.contains_key(k));
        }
    }
    if v.im.is_some() {
        let m = v.im.unwrap();
        assert forall|k: (Seq<u8>, u64)| #[trigger] m.contains_key(k) implies k.1 < a.next_seq_num by {}
    }
}

/// The order of the sequence numbers outlasts the step that follows every write.
pub proof fn lemma_rotated_ordered(v: LsmView, write_buffer_size: usize)
    requires
        v.ordered(),
    ensures
        v.rotated(write_buffer_size).ordered(),
{
}

/// Snapshot stability: what the store shows as of a sequence number that
/// was given out is the same before and after a put, as long as no
/// in-memory table is handed to the work in the background.
pub proof fn lemma_snapshot_stable(
    v: LsmView,
    key: Seq<u8>,
    value: Seq<u8>,
    write_buffer_size: usize,
    other: Seq<u8>,
    snapshot: u64,
)
    requires
        v.ordered(),
        snapshot < v.next_seq_num,
        v.im.is_none() || v.running_compaction || v.slot.is_some(),
    ensures
        v.put(key, value).rotated(write_buffer_size).lookup(other, Some(snapshot)) == v.lookup(
            other,
            Some(snapshot),
        ),
{
    let a = v.put(key, value);
    lemma_put_keeps_snapshot(v.mem, key, v.next_seq_num, 0, value, other, snapshot);
    let b = a.rotated(write_buffer_size);
    if b.mem != a.mem {
        assert(b.im == Some(a.mem));
        let snap = (snapshot % SEQ_LIMIT) as u64;
        assert(forall|c: u64| !is_newest(b.mem, other, snap, c));
    }
}

/// A store that holds nothing and has given out no sequence number has its
/// sequence numbers in order.
pub proof fn lemma_fresh_ordered(v: LsmView)
    requires
        v.mem == Map::<(Seq<u8>, u64), (u8, Seq<u8>)>::empty(),
        v.im.is_none(),
        v.next_seq_num == 1,
    ensures
        v.ordered(),
{
}

/// An aborted transaction leaves no trace: the in-memory tables, the levels
/// and the log are as they were, and the store shows what it showed.
pub proof fn lemma_abort_leaves_no_trace(v: LsmView, tx_id: u64, key: Seq<u8>, version: Option<u64>)
    ensures
        v.aborted(tx_id).mem == v.mem,
        v.aborted(tx_id).im == v.im,
        v.aborted(tx_id).levels == v.levels,
        v.aborted(tx_id).log_out == v.log_out,
        v.aborted(tx_id).lookup(key, version) == v.lookup(key, version),
        !v.aborted(tx_id).txs.contains_key(tx_id),
{
}

/// Staging a write leaves no trace outside the transaction: the in-memory
/// tables, the levels and the log are as they were, and the store shows
/// what it showed.
pub proof fn lemma_staging_is_private(
    v: LsmView,
    tx_id: u64,
    seq_num: u64,
    key: Seq<u8>,
    value: Seq<u8>,
    other: Seq<u8>,
    version: Option<u64>,
)
    ensures
        v.staged(tx_id, seq_num, key, value).mem == v.mem,
        v.staged(tx_id, seq_num, key, value).im == v.im,
        v.staged(tx_id, seq_num, key, value).levels == v.levels,
        v.staged(tx_id, seq_num, key, value).log_out == v.log_out,
        v.staged(tx_id, seq_num, key, value).lookup(other, version) == v.lookup(other, version),
{
}

/// The records hold no plain put, no plain delete and no commit marker.
pub open spec fn nothing_committed(entries: Seq<LogEntryView>) -> bool {
    forall|i: int|
        0 <= i < entries.len() ==> (#[trigger] entries[i]).entry_type != 0 && entries[i].entry_type
            != 1 && entries[i].entry_type != 5
}

/// Recovery drops what was not committed: replaying records among which
/// there is no plain put, no plain delete and no commit marker leaves the
/// in-memory table as it was.
pub proof fn lemma_uncommitted_dropped(st: ReplayState, entries: Seq<LogEntryView>)
    requires
        nothing_committed(entries),
        replay_all(st, entries).is_some(),
    ensures
        replay_all(st, entries).unwrap().mem == st.mem,
        replay_all(st, entries).unwrap().bytes == st.bytes,
    decreases entries.len(),
{
    if entries.len() > 0 {
        let front = entries.drop_last();
        assert forall|i: int| 0 <= i < front.len() implies (#[trigger] front[i]).entry_type != 0
            && front[i].entry_type != 1 && front[i].entry_type != 5 by {
            assert(front[i] == entries[i]);
        }
        lemma_uncommitted_dropped(st, front);
        assert(entries.last() == entries[entries.len() - 1]);
    }
}

/// The log record of a staged write: a delete where the value is empty,
/// else a put.
pub open spec fn record_of(op: StagedView) -> LogEntryView {
    LogEntryView {
        entry_type: if op.value.len() == 0 {
            3u8
        } else {
            2u8
        },
        key: op.key,
        value: op.value,
        seq_num: op.seq_num,
    }
}

/// The log records of the staged writes, in order.
pub open spec fn records_of(ops: Seq<StagedView>) -> Seq<LogEntryView> {
    ops.map_values(|op: StagedView| record_of(op))
}

/// The records that a commit writes: the begin marker, the staged writes,
/// the commit marker.
pub open spec fn commit_records(ops: Seq<StagedView>, seq_num: u64) -> Seq<LogEntryView> {
    seq![marker(4, seq_num)] + records_of(ops) + seq![marker(5, seq_num)]
}

/// Replaying two runs of records one after the other is replaying the first
/// and then the second.
pub proof fn lemma_replay_concat(st: ReplayState, a: Seq<LogEntryView>, b: Seq<LogEntryView>)
    ensures
        replay_all(st, a + b) == (match replay_all(st, a) {
            Some(s) => replay_all(s, b),
            None => None,
        }),
    decreases b.len(),
{
    if b.len() == 0 {
        assert(a + b =~= a);
    } else {
        assert((a + b).drop_last() =~= a + b.drop_last());
        assert((a + b).last() == b.last());
        lemma_replay_concat(st, a, b.drop_last());
    }
}

/// Replaying one record.
pub proof fn lemma_replay_single(st: ReplayState, e: LogEntryView)
    ensures
        replay_all(st, seq![e]) == replay_one(st, e),
{
    let s = seq![e];
    assert(s.drop_last() =~= Seq::<LogEntryView>::empty());
    assert(replay_all(st, s.drop_last()) == Some(st));
    assert(s.last() == e);
}

/// Replaying the writes of a transaction that has begun keeps them with the
/// transaction and leaves the in-memory table as it was.
pub proof fn lemma_replay_keeps_staged(st: ReplayState, ops: Seq<StagedView>, seq_num: u64)
    requires
        st.trans.contains_key(seq_num),
        forall|i: int| 0 <= i < ops.len() ==> (#[trigger] ops[i]).seq_num == seq_num,
    ensures
        replay_all(st, records_of(ops)) == Some(
            ReplayState {
                trans: st.trans.insert(seq_num, st.trans[seq_num] + records_of(ops)),
                max_seq: if ops.len() == 0 {
                    st.max_seq
                } else {
                    larger(st.max_seq, seq_num)
                },
                ..st
            },
        ),
    decreases ops.len(),
{
    let recs = records_of(ops);
    if ops.len() == 0 {
        assert(st.trans[seq_num] + recs =~= st.trans[seq_num]);
        assert(st.trans.insert(seq_num, st.trans[seq_num]) =~= st.trans);
    } else {
        let front = ops.drop_last();
        assert(recs.drop_last() =~= records_of(front));
        assert(recs.last() == record_of(ops.last()));
        assert forall|i: int| 0 <= i < front.len() implies (#[trigger] front[i]).seq_num
            == seq_num by {
            assert(front[i] == ops[i]);
        }
        lemma_replay_keeps_staged(st, front, seq_num);
        let mid = replay_all(st, records_of(front)).unwrap();
        assert(ops.last() == ops[ops.len() - 1]);
        let after = replay_one(mid, recs.last()).unwrap();
        assert(mid.trans[seq_num].push(recs.last()) =~= st.trans[seq_num] + recs);
        assert(after.trans =~= st.trans.insert(seq_num, st.trans[seq_num] + recs));
    }
}

/// Applying the records of staged writes is committing the writes.
pub proof fn lemma_apply_is_commit(st: ReplayState, ops: Seq<StagedView>)
    requires
        staged_fit(ops),
    ensures
        apply_staged(st, records_of(ops)) == Some(
            ReplayState {
                mem: commit_mem(st.mem, ops),
                bytes: commit_bytes(st.bytes, ops),
                ..st
            },
        ),
    decreases ops.len(),
{
    let recs = records_of(ops);
    if ops.len() > 0 {
        let front = ops.drop_last();
        assert(recs.drop_last() =~= records_of(front));
        assert(recs.last() == record_of(ops.last()));
        assert forall|i: int| 0 <= i < front.len() implies (#[trigger] front[i]).key.len() + 8
            <= u64::MAX by {
            assert(front[i] == ops[i]);
        }
        lemma_apply_is_commit(st, front);
        assert(ops.last() == ops[ops.len() - 1]);
        if ops.last().value.len() == 0 {
            assert(ops.last().value =~= Seq::<u8>::empty());
        }
    }
}

/// Atomic commit outlasts a restart: replaying the records that a commit
/// wrote puts all the staged writes into the in-memory table, as the commit
/// did. The staged writes must all have the transaction's sequence number.
pub proof fn lemma_commit_replays(st: ReplayState, ops: Seq<StagedView>, seq_num: u64)
    requires
        staged_fit(ops),
        forall|i: int| 0 <= i < ops.len() ==> (#[trigger] ops[i]).seq_num == seq_num,
    ensures
        replay_all(st, commit_records(ops, seq_num)) == Some(
            ReplayState {
                mem: commit_mem(st.mem, ops),
                bytes: commit_bytes(st.bytes, ops),
                trans: st.trans.remove(seq_num),
                max_seq: larger(st.max_seq, seq_num),
            },
        ),
{
    let begin = seq![marker(4, seq_num)];
    let end = seq![marker(5, seq_num)];
    let recs = records_of(ops);
    lemma_replay_concat(st, begin + recs, end);
    lemma_replay_concat(st, begin, recs);
    lemma_replay_single(st, marker(4, seq_num));
    let begun = replay_all(st, begin).unwrap();
    assert(begun.trans[seq_num] == Seq::<LogEntryView>::empty());
    lemma_replay_keeps_staged(begun, ops, seq_num);
    let staged = replay_all(begun, recs).unwrap();
    assert(staged.trans[seq_num] =~= recs);
    lemma_replay_single(staged, marker(5, seq_num));
    let seen = ReplayState { max_seq: larger(staged.max_seq, seq_num), ..staged };
    lemma_apply_is_commit(seen, ops);
    let done = replay_all(staged, end).unwrap();
    assert(done.trans =~= st.trans.remove(seq_num));
}

/// The bytes that a commit writes are the bytes of its records, and reading
/// them back gives the records.
pub proof fn lemma_commit_log_reads_back(ops: Seq<StagedView>, seq_num: u64)
    requires
        staged_fit(ops),
        forall|i: int| 0 <= i < ops.len() ==> (#[trigger] ops[i]).value.len() <= u64::MAX,
    ensures
        marker(4, seq_num).encoding() + commit_log(ops) + marker(5, seq_num).encoding()
            == encode_log(commit_records(ops, seq_num)),
        parse_log(encode_log(commit_records(ops, seq_num)), 0) == Some(
            commit_records(ops, seq_num),
        ),
{
    let recs = commit_records(ops, seq_num);
    lemma_commit_log_is_records(ops);
    lemma_encode_log_concat(seq![marker(4, seq_num)] + records_of(ops), seq![marker(5, seq_num)]);
    lemma_encode_log_concat(seq![marker(4, seq_num)], records_of(ops));
    lemma_encode_log_one(marker(4, seq_num));
    lemma_encode_log_one(marker(5, seq_num));
    assert forall|i: int| 0 <= i < recs.len() implies (#[trigger] recs[i]).wf() by {
        if 0 < i < recs.len() - 1 {
            assert(recs[i] == record_of(ops[i - 1]));
        }
    }
    lemma_parse_log_encoding(Seq::<u8>::empty(), recs);
    assert(Seq::<u8>::empty() + encode_log(recs) =~= encode_log(recs));
}

/// The bytes of one record.
pub proof fn lemma_encode_log_one(e: LogEntryView)
    ensures
        encode_log(seq![e]) == e.encoding(),
{
    let s = seq![e];
    assert(s.drop_first() =~= Seq::<LogEntryView>::empty());
    assert(encode_log(s.drop_first()) =~= Seq::<u8>::empty());
    assert(encode_log(s) =~= e.encoding());
}

/// The bytes of two runs of records one after the other.
pub proof fn lemma_encode_log_concat(a: Seq<LogEntryView>, b: Seq<LogEntryView>)
    ensures
        encode_log(a + b) == encode_log(a) + encode_log(b),
    decreases a.len(),
{
    if a.len() == 0 {
        assert(a + b =~= b);
        assert(encode_log(a) + encode_log(b) =~= encode_log(b));
    } else {
        assert((a + b)[0] == a[0]);
        assert((a + b).drop_first() =~= a.drop_first() + b);
        lemma_encode_log_concat(a.drop_first(), b);
        assert(encode_log(a + b) =~= encode_log(a) + encode_log(b));
    }
}

/// The log bytes of staged writes are the bytes of their records.
pub proof fn lemma_commit_log_is_records(ops: Seq<StagedView>)
    ensures
        commit_log(ops) == encode_log(records_of(ops)),
    decreases ops.len(),
{
    let recs = records_of(ops);
    if ops.len() == 0 {
        assert(encode_log(recs) =~= Seq::<u8>::empty());
    } else {
        let front = ops.drop_last();
        lemma_commit_log_is_records(front);
        assert(recs =~= records_of(front) + seq![record_of(ops.last())]);
        lemma_encode_log_concat(records_of(front), seq![record_of(ops.last())]);
        lemma_encode_log_one(record_of(ops.last()));
    }
}

/// No two staged writes are for the same key at the same sequence number.
pub open spec fn staged_unique(ops: Seq<StagedView>) -> bool {
    forall|i: int, j: int|
        0 <= i < j < ops.len() ==> !((#[trigger] ops[i]).key == (#[trigger] ops[j]).key
            && ops[i].seq_num == ops[j].seq_num)
}

/// The place of a staged write is the first place that holds a write for
/// the key at the sequence number.
pub proof fn lemma_staged_place_first(ops: Seq<StagedView>, key: Seq<u8>, seq_num: u64)
    ensures
        0 <= staged_place(ops, key, seq_num) <= ops.len(),
        forall|k: int|
            0 <= k < staged_place(ops, key, seq_num) ==> !((#[trigger] ops[k]).key == key
                && ops[k].seq_num == seq_num),
        staged_place(ops, key, seq_num) < ops.len() ==> ops[staged_place(ops, key, seq_num)].key
            == key && ops[staged_place(ops, key, seq_num)].seq_num == seq_num,
    decreases ops.len(),
{
    if ops.len() > 0 && !(ops[0].key == key && ops[0].seq_num == seq_num) {
        let rest = ops.drop_first();
        lemma_staged_place_first(rest, key, seq_num);
        let p = staged_place(rest, key, seq_num);
        assert forall|k: int| 0 <= k < p + 1 implies !((#[trigger] ops[k]).key == key
            && ops[k].seq_num == seq_num) by {
            if k > 0 {
                assert(ops[k] == rest[k - 1]);
            }
        }
        if p < rest.len() {
            assert(rest[p] == ops[p + 1]);
        }
    }
}

/// Staging shows within the transaction and keeps the staged writes apart:
/// after a write was staged, the value staged for its key is its value, the
/// values staged for other keys are as they were, and no two staged writes
/// are for the same key at the same sequence number.
pub proof fn lemma_stage_shows(
    ops: Seq<StagedView>,
    key: Seq<u8>,
    seq_num: u64,
    value: Seq<u8>,
    other: Seq<u8>,
    other_seq: u64,
)
    requires
        staged_unique(ops),
    ensures
        staged_value(stage(ops, key, seq_num, value), key, seq_num) == Some(value),
        !(other == key && other_seq == seq_num) ==> staged_value(
            stage(ops, key, seq_num, value),
            other,
            other_seq,
        ) == staged_value(ops, other, other_seq),
        staged_unique(stage(ops, key, seq_num, value)),
{
    let after = stage(ops, key, seq_num, value);
    let p = staged_place(ops, key, seq_num);
    lemma_staged_place_first(ops, key, seq_num);
    lemma_staged_place_first(ops, other, other_seq);
    lemma_staged_place_first(after, key, seq_num);
    lemma_staged_place_first(after, other, other_seq);
    let q = staged_place(after, key, seq_num);
    assert(after[p].key == key && after[p].seq_num == seq_num);
    if q < p {
        assert(after[q] == ops[q]);
    }
    if q > p {
        assert(!(after[p].key == key && after[p].seq_num == seq_num));
    }
    assert(q == p);
    assert forall|i: int, j: int| 0 <= i < j < after.len() implies !((#[trigger] after[i]).key == (
    #[trigger] after[j]).key && after[i].seq_num == after[j].seq_num) by {
        if i != p && j != p {
            assert(after[i] == ops[i] && after[j] == ops[j]);
        } else if i == p {
            assert(after[j] == ops[j]);
            if p < ops.len() {
                assert(ops[p].key == key);
            }
        } else {
            assert(after[i] == ops[i]);
        }
    }
    if !(other == key && other_seq == seq_num) {
        let a = staged_place(ops, other, other_seq);
        let b = staged_place(after, other, other_seq);
        if a < ops.len() {
            assert(a != p);
            assert(after[a] == ops[a]);
            if b < a {
                if b != p {
                    assert(after[b] == ops[b]);
                }
            }
            if b > a {
                assert(!(after[a].key == other && after[a].seq_num == other_seq));
            }
            assert(b == a);
        } else {
            if b < after.len() {
                if b != p {
                    assert(after[b] == ops[b]);
                }
            }
        }
    }
}

/// What committing staged writes for one sequence number puts into the
/// in-memory table.
proof fn lemma_commit_mem_holds(m: MemView, ops: Seq<StagedView>, seq_num: u64, n: int)
    requires
        0 <= n <= ops.len(),
        seq_num < SEQ_LIMIT,
        staged_unique(ops),
        forall|j: int| 0 <= j < ops.len() ==> (#[trigger] ops[j]).seq_num == seq_num,
        forall|j: int| 0 <= j < ops.len() ==> !m.contains_key(((#[trigger] ops[j]).key, seq_num)),
    ensures
        forall|j: int|
            0 <= j < n ==> commit_mem(m, ops.take(n)).contains_key(((#[trigger] ops[j]).key, seq_num))
                && commit_mem(m, ops.take(n))[(ops[j].key, seq_num)] == (
                if ops[j].value.len() == 0 {
                    3u8
                } else {
                    2u8
                },
                ops[j].value,
            ),
        forall|j: int|
            n <= j < ops.len() ==> !commit_mem(m, ops.take(n)).contains_key(
                ((#[trigger] ops[j]).key, seq_num),
            ),
    decreases n,
{
    if n > 0 {
        lemma_commit_mem_holds(m, ops, seq_num, n - 1);
        let before = commit_mem(m, ops.take(n - 1));
        let after = commit_mem(m, ops.take(n));
        let o = ops[n - 1];
        assert(ops.take(n).drop_last() =~= ops.take(n - 1));
        assert(ops.take(n).last() == o);
        assert(!before.contains_key((o.key, seq_num)));
        if o.value.len() == 0 {
            assert(o.value =~= Seq::<u8>::empty());
        }
        assert forall|j: int| 0 <= j < n implies after.contains_key(
            ((#[trigger] ops[j]).key, seq_num),
        ) && after[(ops[j].key, seq_num)] == (
            if ops[j].value.len() == 0 {
                3u8
            } else {
                2u8
            },
            ops[j].value,
        ) by {
            if j < n - 1 {
                assert(ops[j].key != o.key);
            }
        }
        assert forall|j: int| n <= j < ops.len() implies !after.contains_key(
            ((#[trigger] ops[j]).key, seq_num),
        ) by {
            assert(ops[j].key != o.key);
        }
    } else {
        assert(ops.take(0) =~= Seq::<StagedView>::empty());
    }
}

/// Atomic commit: once a transaction is committed, the store shows every
/// one of its staged writes as of the transaction's sequence number: the
/// value of a put, nothing for a delete. The staged writes must all have the
/// transaction's sequence number, which no other write has.
pub proof fn lemma_commit_shows_all(v: LsmView, tx_id: u64, seq_num: u64, i: int)
    requires
        seq_num < SEQ_LIMIT,
        staged_unique(v.txs[tx_id]),
        0 <= i < v.txs[tx_id].len(),
        forall|j: int| 0 <= j < v.txs[tx_id].len() ==> (#[trigger] v.txs[tx_id][j]).seq_num == seq_num,
        forall|j: int|
            0 <= j < v.txs[tx_id].len() ==> !v.mem.contains_key(
                ((#[trigger] v.txs[tx_id][j]).key, seq_num),
            ),
    ensures
        v.committed(tx_id).lookup(v.txs[tx_id][i].key, Some(seq_num)) == (
        if v.txs[tx_id][i].value.len() == 0 {
            None
        } else {
            Some(v.txs[tx_id][i].value)
        }),
{
    let ops = v.txs[tx_id];
    lemma_commit_mem_holds(v.mem, ops, seq_num, ops.len() as int);
    assert(ops.take(ops.len() as int) =~= ops);
    lemma_lookup_at(v.committed(tx_id).mem, ops[i].key, seq_num);
}

/// Durability of a put and of a delete: the record that the write leaves
/// for the log, replayed into the in-memory table as it was, gives the
/// table as the write left it, and notes the write's sequence number.
pub proof fn lemma_write_replays(v: LsmView, key: Seq<u8>, value: Seq<u8>, st: ReplayState)
    requires
        st.mem == v.mem,
        st.bytes == v.mem_bytes,
        key.len() + 8 <= u64::MAX,
    ensures
        v.put(key, value).log_out.last() == (
            v.mem_log,
            (LogEntryView { entry_type: 0, key, value, seq_num: v.next_seq_num }).encoding(),
        ),
        replay_one(st, LogEntryView { entry_type: 0, key, value, seq_num: v.next_seq_num })
            == Some(
            ReplayState {
                mem: v.put(key, value).mem,
                bytes: v.put(key, value).mem_bytes,
                trans: st.trans,
                max_seq: larger(st.max_seq, v.next_seq_num),
            },
        ),
        v.removed(key).log_out.last() == (
            v.mem_log,
            (LogEntryView {
                entry_type: 1,
                key,
                value: Seq::<u8>::empty(),
                seq_num: v.next_seq_num,
            }).encoding(),
        ),
        replay_one(
            st,
            LogEntryView { entry_type: 1, key, value: Seq::<u8>::empty(), seq_num: v.next_seq_num },
        ) == Some(
            ReplayState {
                mem: v.removed(key).mem,
                bytes: v.removed(key).mem_bytes,
                trans: st.trans,
                max_seq: larger(st.max_seq, v.next_seq_num),
            },
        ),
{
}

/// Durability of a commit: the bytes that the commit leaves for the log are
/// those of its records, and the records, replayed into the in-memory table
/// as it was, give the table as the commit left it. The staged writes must
/// all have one sequence number.
pub proof fn lemma_commit_is_durable(v: LsmView, tx_id: u64, st: ReplayState)
    requires
        st.mem == v.mem,
        st.bytes == v.mem_bytes,
        v.txs[tx_id].len() > 0,
        staged_fit(v.txs[tx_id]),
        forall|i: int| 0 <= i < v.txs[tx_id].len() ==> (#[trigger] v.txs[tx_id][i]).value.len() <= u64::MAX,
        forall|i: int|
            0 <= i < v.txs[tx_id].len() ==> (#[trigger] v.txs[tx_id][i]).seq_num
                == v.txs[tx_id][0].seq_num,
    ensures
        v.committed(tx_id).log_out.last() == (
            v.mem_log,
            encode_log(commit_records(v.txs[tx_id], v.txs[tx_id][0].seq_num)),
        ),
        parse_log(encode_log(commit_records(v.txs[tx_id], v.txs[tx_id][0].seq_num)), 0) == Some(
            commit_records(v.txs[tx_id], v.txs[tx_id][0].seq_num),
        ),
        replay_all(st, commit_records(v.txs[tx_id], v.txs[tx_id][0].seq_num)) == Some(
            ReplayState {
                mem: v.committed(tx_id).mem,
                bytes: v.committed(tx_id).mem_bytes,
                trans: st.trans.remove(v.txs[tx_id][0].seq_num),
                max_seq: larger(st.max_seq, v.txs[tx_id][0].seq_num),
            },
        ),
{
    let ops = v.txs[tx_id];
    lemma_commit_log_reads_back(ops, ops[0].seq_num);
    lemma_commit_replays(st, ops, ops[0].seq_num);
}

/// Committing staged writes that are older than `limit` into a table whose
/// versions are older than `limit` leaves the versions older than `limit`.
pub proof fn lemma_commit_older(m: MemView, ops: Seq<StagedView>, limit: u64)
    requires
        older_than(m, limit),
        limit <= SEQ_LIMIT,
        forall|i: int| 0 <= i < ops.len() ==> (#[trigger] ops[i]).seq_num < limit,
    ensures
        older_than(commit_mem(m, ops), limit),
    decreases ops.len(),
{
    if ops.len() > 0 {
        let front = ops.drop_last();
        assert forall|i: int| 0 <= i < front.len() implies (#[trigger] front[i]).seq_num < limit by {
            assert(front[i] == ops[i]);
        }
        lemma_commit_older(m, front, limit);
        let before = commit_mem(m, front);
        let after = commit_mem(m, ops);
        let o = ops[ops.len() - 1];
        assert(ops.last() == o);
        assert forall|k: (Seq<u8>, u64)| #[trigger] after.contains_key(k) implies k.1 < limit by {
            if k != (o.key, (o.seq_num % SEQ_LIMIT) as u64) {
                assert(before.contains_key(k));
            }
        }
    }
}

/// The order of the sequence numbers outlasts the steps of a transaction:
/// its begin, the staging of a write, its commit, where the staged writes
/// have sequence numbers that were given out, and its abort.
pub proof fn lemma_tx_ordered(v: LsmView, tx_id: u64, seq_num: u64, key: Seq<u8>, value: Seq<u8>)
    requires
        v.ordered(),
    ensures
        v.next_seq_num + 1 < SEQ_LIMIT ==> (LsmView {
            next_seq_num: next_num(v.next_seq_num),
            ..v
        }).ordered(),
        v.staged(tx_id, seq_num, key, value).ordered(),
        v.aborted(tx_id).ordered(),
        (forall|i: int| 0 <= i < v.txs[tx_id].len() ==> (#[trigger] v.txs[tx_id][i]).seq_num
            < v.next_seq_num) ==> v.committed(tx_id).ordered(),
{
    if v.next_seq_num + 1 < SEQ_LIMIT {
        let a = LsmView { next_seq_num: next_num(v.next_seq_num), ..v };
        assert forall|k: (Seq<u8>, u64)| #[trigger] a.mem.contains_key(k) implies k.1
            < a.next_seq_num by {}
        if v.im.is_some() {
            let m = v.im.unwrap();
            assert forall|k: (Seq<u8>, u64)| #[trigger] m.contains_key(k) implies k.1
                < a.next_seq_num by {}
        }
    }
    if forall|i: int| 0 <= i < v.txs[tx_id].len() ==> (#[trigger] v.txs[tx_id][i]).seq_num
        < v.next_seq_num {
        lemma_commit_older(v.mem, v.txs[tx_id], v.next_seq_num);
    }
}

} // verus!
