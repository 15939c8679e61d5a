//! The write-ahead log: its records and the stream they form.
//!
//! A record is one byte of type, then for a put or a delete the key and the
//! value, each behind its length, then the sequence number. The markers that
//! begin, commit or abort a transaction hold the type and the sequence number
//! only. All integers are eight bytes, little-endian.

use vstd::prelude::*;
use crate::utils::{le_bytes, le_value, put_bytes, put_u64, to_u64, copy_range, copy_bytes};
use crate::utils::{lemma_le_bytes_len, lemma_le_value_of_bytes, lemma_le_value_bound, lemma_pow256_8};

verus! {

/// Record type of a plain put.
pub const ENTRY_PUT: u8 = 0;

/// Record type of a plain delete.
pub const ENTRY_DELETE: u8 = 1;

/// Record type of a put made by a transaction.
pub const ENTRY_TX_PUT: u8 = 2;

/// Record type of a delete made by a transaction.
pub const ENTRY_TX_DELETE: u8 = 3;

/// Record type of the marker that begins a transaction.
pub const ENTRY_TX_BEGIN: u8 = 4;

/// Record type of the marker that commits a transaction.
pub const ENTRY_TX_COMMIT: u8 = 5;

/// Record type of the marker that aborts a transaction.
pub const ENTRY_TX_ABORT: u8 = 6;

/// What a log record stands for.
pub struct LogEntryView {
    pub entry_type: u8,
    pub key: Seq<u8>,
    pub value: Seq<u8>,
    pub seq_num: u64,
}

impl LogEntryView {
    /// The record is one of the seven kinds, its lengths fit in eight bytes,
    /// and a marker holds neither key nor value.
    pub open spec fn wf(self) -> bool {
        &&& self.entry_type <= 6
        &&& self.key.len() <= u64::MAX
        &&& self.value.len() <= u64::MAX
        &&& self.entry_type >= 4 ==> self.key.len() == 0 && self.value.len() == 0
    }

    /// The record's bytes.
    pub open spec fn encoding(self) -> Seq<u8> {
        if self.entry_type < 4 {
            seq![self.entry_type] + le_bytes(self.key.len(), 8) + self.key + le_bytes(
                self.value.len(),
                8,
            ) + self.value + le_bytes(self.seq_num as nat, 8)
        } else {
            seq![self.entry_type] + le_bytes(self.seq_num as nat, 8)
        }
    }

    /// The record that starts at `pos` in `bytes` and the place where it
    /// ends, or `None` where no whole record of a known type starts there.
    pub open spec fn parse(bytes: Seq<u8>, pos: int) -> Option<(LogEntryView, int)> {
        if 0 <= pos < bytes.len() {
            let t = bytes[pos];
            if t > 6 {
                None
            } else if t >= 4 {
                if pos + 9 <= bytes.len() {
                    Some(
                        (
                            LogEntryView {
                                entry_type: t,
                                key: Seq::<u8>::empty(),
                                value: Seq::<u8>::empty(),
                                seq_num: le_value(bytes.subrange(pos + 1, pos + 9)) as u64,
                            },
                            pos + 9,
                        ),
                    )
                } else {
                    None
                }
            } else if pos + 9 <= bytes.len() {
                let klen = le_value(bytes.subrange(pos + 1, pos + 9)) as int;
                let vpos = pos + 9 + klen;
                if vpos + 8 <= bytes.len() {
                    let vlen = le_value(bytes.subrange(vpos, vpos + 8)) as int;
                    let spos = vpos + 8 + vlen;
                    if spos + 8 <= bytes.len() {
                        Some(
                            (
                                LogEntryView {
                                    entry_type: t,
                                    key: bytes.subrange(pos + 9, vpos),
                                    value: bytes.subrange(vpos + 8, spos),
                                    seq_num: le_value(bytes.subrange(spos, spos + 8)) as u64,
                                },
                                spos + 8,
                            ),
                        )
                    } else {
                        None
                    }
                } else {
                    None
                }
            } else {
                None
            }
        } else {
            None
        }
    }

    /// A well-formed record written at the end of `prefix` is read back from
    /// there, and reading stops where its bytes end.
    pub proof fn lemma_parse_encoding(self, prefix: Seq<u8>, suffix: Seq<u8>)
        requires
            self.wf(),
        ensures
            self.encoding().len() > 0,
            LogEntryView::parse(prefix + self.encoding() + suffix, prefix.len() as int) == Some(
                (self, (prefix.len() + self.encoding().len()) as int),
            ),
    {
        let bytes = prefix + self.encoding() + suffix;
        let pos = prefix.len() as int;
        lemma_pow256_8();
        lemma_le_bytes_len(self.seq_num as nat, 8);
        lemma_le_value_of_bytes(self.seq_num as nat, 8);
        if self.entry_type < 4 {
            lemma_le_bytes_len(self.key.len(), 8);
            lemma_le_value_of_bytes(self.key.len(), 8);
            lemma_le_bytes_len(self.value.len(), 8);
            lemma_le_value_of_bytes(self.value.len(), 8);
            let klen = self.key.len() as int;
            let vlen = self.value.len() as int;
            let vpos = pos + 9 + klen;
            let spos = vpos + 8 + vlen;
            assert(bytes[pos] == self.entry_type);
            assert(bytes.subrange(pos + 1, pos + 9) =~= le_bytes(self.key.len(), 8));
            assert(bytes.subrange(pos + 9, vpos) =~= self.key);
            assert(bytes.subrange(vpos, vpos + 8) =~= le_bytes(self.value.len(), 8));
            assert(bytes.subrange(vpos + 8, spos) =~= self.value);
            assert(bytes.subrange(spos, spos + 8) =~= le_bytes(self.seq_num as nat, 8));
        } else {
            assert(bytes[pos] == self.entry_type);
            assert(bytes.subrange(pos + 1, pos + 9) =~= le_bytes(self.seq_num as nat, 8));
            assert(self.key =~= Seq::<u8>::empty());
            assert(self.value =~= Seq::<u8>::empty());
        }
    }
}

/// The records that `bytes` holds from `pos` to its end, in order, or `None`
/// where the bytes from `pos` on do not split into whole records.
pub open spec fn parse_log(bytes: Seq<u8>, pos: int) -> Option<Seq<LogEntryView>>
    decreases bytes.len() - pos,
{
    if pos >= bytes.len() {
        Some(Seq::<LogEntryView>::empty())
    } else {
        match LogEntryView::parse(bytes, pos) {
            Some((e, next)) => if next > pos {
                match parse_log(bytes, next) {
                    Some(rest) => Some(seq![e] + rest),
                    None => None,
                }
            } else {
                None
            },
            None => None,
        }
    }
}

/// The bytes of a run of records, one after the other.
pub open spec fn encode_log(entries: Seq<LogEntryView>) -> Seq<u8>
    decreases entries.len(),
{
    if entries.len() == 0 {
        Seq::<u8>::empty()
    } else {
        entries[0].encoding() + encode_log(entries.drop_first())
    }
}

/// A run of well-formed records written after `prefix` is read back whole
/// from there.
pub proof fn lemma_parse_log_encoding(prefix: Seq<u8>, entries: Seq<LogEntryView>)
    requires
        forall|i: int| 0 <= i < entries.len() ==> (#[trigger] entries[i]).wf(),
    ensures
        parse_log(prefix + encode_log(entries), prefix.len() as int) == Some(entries),
    decreases entries.len(),
{
    let bytes = prefix + encode_log(entries);
    if entries.len() == 0 {
        assert(bytes =~= prefix);
    } else {
        let e = entries[0];
        let rest = entries.drop_first();
        let suffix = encode_log(rest);
        assert(bytes =~= prefix + e.encoding() + suffix);
        e.lemma_parse_encoding(prefix, suffix);
        let next_prefix = prefix + e.encoding();
        assert(bytes =~= next_prefix + suffix);
        assert forall|i: int| 0 <= i < rest.len() implies (#[trigger] rest[i]).wf() by {
            assert(rest[i] == entries[i + 1]);
        }
        lemma_parse_log_encoding(next_prefix, rest);
        assert(seq![e] + rest =~= entries);
    }
}

/// One record of the write-ahead log. `entry_type` is 0 for a put, 1 for a
/// delete, 2 and 3 for a put and a delete made by a transaction, 4, 5 and 6
/// for the markers that begin, commit and abort a transaction. The records of
/// one transaction share its sequence number.
#[derive(Clone, Debug)]
pub struct LogEntry {
    pub entry_type: u8,
    pub key: Vec<u8>,
    pub value: Vec<u8>,
    pub seq_num: u64,
}

impl View for LogEntry {
    type V = LogEntryView;

    open spec fn view(&self) -> LogEntryView {
        LogEntryView {
            entry_type: self.entry_type,
            key: self.key@,
            value: self.value@,
            seq_num: self.seq_num,
        }
    }
}

/// The views of a run of records.
pub open spec fn entries_view(entries: Seq<LogEntry>) -> Seq<LogEntryView> {
    entries.map_values(|e: LogEntry| e@)
}

impl LogEntry {
    /// The record of type `entry_type` for `key` and `value` at `seq_num`.
    pub fn new(entry_type: u8, key: &[u8], value: &[u8], seq_num: u64) -> (entry: LogEntry)
        ensures
            entry@ == (LogEntryView { entry_type, key: key@, value: value@, seq_num }),
    {
        LogEntry { entry_type, key: copy_bytes(key), value: copy_bytes(value), seq_num }
    }

    /// A copy of the record.
    pub fn duplicate(&self) -> (entry: LogEntry)
        ensures
            entry@ == self@,
    {
        LogEntry::new(self.entry_type, self.key.as_slice(), self.value.as_slice(), self.seq_num)
    }

    /// The record's bytes.
    pub fn encode(&self) -> (bytes: Vec<u8>)
        ensures
            bytes@ == self@.encoding(),
    {
        let mut bytes: Vec<u8> = Vec::new();
        bytes.push(self.entry_type);
        if self.entry_type < 4 {
            put_u64(&mut bytes, self.key.len() as u64);
            put_bytes(&mut bytes, self.key.as_slice());
            put_u64(&mut bytes, self.value.len() as u64);
            put_bytes(&mut bytes, self.value.as_slice());
            put_u64(&mut bytes, self.seq_num);
        } else {
            put_u64(&mut bytes, self.seq_num);
        }
        assert(bytes@ =~= self@.encoding());
        bytes
    }

    /// Reads the record that starts at `*pos` and moves `*pos` past it. Where
    /// no whole record of a known type starts there, returns `None` and leaves
    /// `*pos` as it was.
    pub fn decode(bytes: &[u8], pos: &mut usize) -> (entry: Option<LogEntry>)
        ensures
            match LogEntryView::parse(bytes@, *old(pos) as int) {
                Some((e, end)) => entry.is_some() && entry.unwrap()@ == e && *final(pos) == end,
                None => entry.is_none() && *final(pos) == *old(pos),
            },
    {
        let len: usize = bytes.len();
        let start: usize = *pos;
        if start >= len {
            return None;
        }
        let entry_type: u8 = bytes[start];
        if entry_type > 6 || len - start < 9 {
            return None;
        }
        proof {
            lemma_pow256_8();
        }
        if entry_type >= 4 {
            let seq_bytes = copy_range(bytes, start + 1, start + 9);
            proof {
                lemma_le_value_bound(seq_bytes@);
            }
            let seq_num: u64 = to_u64(seq_bytes.as_slice());
            *pos = start + 9;
            return Some(LogEntry { entry_type, key: Vec::new(), value: Vec::new(), seq_num });
        }
        let klen_bytes = copy_range(bytes, start + 1, start + 9);
        proof {
            lemma_le_value_bound(klen_bytes@);
        }
        let key_len: u64 = to_u64(klen_bytes.as_slice());
        // what is left after the type and the key's length
        let left: usize = len - start - 9;
        if key_len > left as u64 || left - (key_len as usize) < 8 {
            return None;
        }
        let key_start: usize = start + 9;
        let value_len_at: usize = key_start + key_len as usize;
        let key = copy_range(bytes, key_start, value_len_at);
        let vlen_bytes = copy_range(bytes, value_len_at, value_len_at + 8);
        proof {
            lemma_le_value_bound(vlen_bytes@);
        }
        let value_len: u64 = to_u64(vlen_bytes.as_slice());
        let value_start: usize = value_len_at + 8;
        let left: usize = len - value_start;
        if value_len > left as u64 || left - (value_len as usize) < 8 {
            return None;
        }
        let seq_at: usize = value_start + value_len as usize;
        let value = copy_range(bytes, value_start, seq_at);
        let seq_bytes = copy_range(bytes, seq_at, seq_at + 8);
        proof {
            lemma_le_value_bound(seq_bytes@);
        }
        let seq_num: u64 = to_u64(seq_bytes.as_slice());
        *pos = seq_at + 8;
        Some(LogEntry { entry_type, key, value, seq_num })
    }
}

/// The writing end of one log file: the file's number and the bytes of the
/// records written since the bytes were last taken. Whoever owns the file
/// takes the bytes and appends them to it.
#[derive(Debug)]
pub struct Log {
    log_num: u64,
    pending: Vec<u8>,
}

impl Log {
    /// The number in the log file's name.
    pub closed spec fn num(&self) -> u64 {
        self.log_num
    }

    /// The bytes written and not yet taken.
    pub closed spec fn pending(&self) -> Seq<u8> {
        self.pending@
    }

    /// The writing end of log number `log_num`, with nothing written yet.
    pub fn open(log_num: u64) -> (log: Log)
        ensures
            log.num() == log_num,
            log.pending() == Seq::<u8>::empty(),
    {
        Log { log_num, pending: Vec::new() }
    }

    /// The number in the log file's name.
    pub fn get_num(&self) -> (log_num: u64)
        ensures
            log_num == self.num(),
    {
        self.log_num
    }

    /// The name of the log's file within the store's directory.
    pub fn get_path(&self) -> (name: Vec<u8>)
        ensures
            name@ == crate::names::log_name(self.num()),
    {
        crate::names::log_file_name(self.log_num)
    }

    /// The records in the bytes of a whole log file, in order, or `None` where
    /// the bytes do not split into whole records of known types.
    pub fn read(bytes: &[u8]) -> (entries: Option<Vec<LogEntry>>)
        ensures
            match parse_log(bytes@, 0) {
                Some(es) => entries.is_some() && entries_view(entries.unwrap()@) == es,
                None => entries.is_none(),
            },
    {
        let len: usize = bytes.len();
        let mut pos: usize = 0;
        let mut entries: Vec<LogEntry> = Vec::new();
        assert(entries_view(entries@) =~= Seq::<LogEntryView>::empty());
        while pos < len
            invariant
                len == bytes@.len(),
                pos <= len,
                match parse_log(bytes@, pos as int) {
                    Some(rest) => parse_log(bytes@, 0) == Some(entries_view(entries@) + rest),
                    None => parse_log(bytes@, 0).is_none(),
                },
            decreases len - pos,
        {
            let ghost before = entries_view(entries@);
            let ghost at = pos as int;
            match LogEntry::decode(bytes, &mut pos) {
                Some(entry) => {
                    proof {
                        let e = entry@;
                        assert(pos > at);
                        assert(entries_view(entries@.push(entry)) =~= before.push(e));
                        match parse_log(bytes@, pos as int) {
                            Some(rest) => {
                                assert(before.push(e) + rest =~= before + (seq![e] + rest));
                            },
                            None => {},
                        }
                    }
                    entries.push(entry);
                },
                None => {
                    return None;
                },
            }
        }
        proof {
            assert(entries_view(entries@) + Seq::<LogEntryView>::empty() =~= entries_view(
                entries@,
            ));
        }
        Some(entries)
    }

    /// Writes one record: its bytes go behind those that wait to be taken.
    pub fn write(&mut self, log_entry: LogEntry)
        ensures
            final(self).num() == old(self).num(),
            final(self).pending() == old(self).pending() + log_entry@.encoding(),
    {
        let bytes = log_entry.encode();
        put_bytes(&mut self.pending, bytes.as_slice());
    }

    /// Takes the bytes written since they were last taken.
    pub fn take_pending(&mut self) -> (bytes: Vec<u8>)
        ensures
            bytes@ == old(self).pending(),
            final(self).num() == old(self).num(),
            final(self).pending() == Seq::<u8>::empty(),
    {
        let mut out: Vec<u8> = Vec::new();
        out.append(&mut self.pending);
        assert(out@ =~= old(self).pending());
        out
    }
}

} // verus!
