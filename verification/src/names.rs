//! The names of the store's files: the log with the number `N` is `N.LOG`,
//! the table with the number `M` is `M.sst`, the numbers written in decimal.

use vstd::prelude::*;
use crate::bytes_order::bytes_equal;
use crate::utils::copy_range;

verus! {

/// The decimal digits of `n`.
pub open spec fn digits(n: nat) -> Seq<u8>
    decreases n,
{
    if n < 10 {
        seq![(48 + n) as u8]
    } else {
        digits(n / 10).push((48 + n % 10) as u8)
    }
}

/// Every byte is a decimal digit.
pub open spec fn all_digits(s: Seq<u8>) -> bool {
    forall|i: int| 0 <= i < s.len() ==> 48 <= #[trigger] s[i] <= 57
}

/// The number that decimal digits spell.
pub open spec fn decimal_value(s: Seq<u8>) -> nat
    decreases s.len(),
{
    if s.len() == 0 {
        0
    } else {
        decimal_value(s.drop_last()) * 10 + (s.last() - 48) as nat
    }
}

/// The bytes of `.LOG`.
pub open spec fn log_suffix() -> Seq<u8> {
    seq![46u8, 76, 79, 71]
}

/// The bytes of `.sst`.
pub open spec fn table_suffix() -> Seq<u8> {
    seq![46u8, 115, 115, 116]
}

/// The name of the file of the log with the number `n`.
pub open spec fn log_name(n: u64) -> Seq<u8> {
    digits(n as nat) + log_suffix()
}

/// The name of the file of the table with the number `n`.
pub open spec fn table_name(n: u64) -> Seq<u8> {
    digits(n as nat) + table_suffix()
}

/// The digits of a number are digits and spell the number.
pub proof fn lemma_digits(n: nat)
    ensures
        digits(n).len() >= 1,
        all_digits(digits(n)),
        decimal_value(digits(n)) == n,
    decreases n,
{
    if n < 10 {
        let s = digits(n);
        assert(s.drop_last() =~= Seq::<u8>::empty());
        assert(decimal_value(s.drop_last()) == 0);
    } else {
        lemma_digits(n / 10);
        let s = digits(n);
        assert(s.drop_last() =~= digits(n / 10));
        assert forall|i: int| 0 <= i < s.len() implies 48 <= #[trigger] s[i] <= 57 by {
            if i < s.len() - 1 {
                assert(s[i] == digits(n / 10)[i]);
            }
        }
    }
}

/// Digits spell no less than the digits before the last spell.
pub proof fn lemma_value_grows(s: Seq<u8>, n: int)
    requires
        all_digits(s),
        0 <= n <= s.len(),
    ensures
        decimal_value(s.take(n)) <= decimal_value(s),
    decreases s.len() - n,
{
    if n < s.len() {
        assert(s.take(n + 1).drop_last() =~= s.take(n));
        assert(s.take(n + 1).last() == s[n]);
        lemma_value_grows(s, n + 1);
    } else {
        assert(s.take(n) =~= s);
    }
}

/// The decimal digits of `n`.
pub fn decimal(n: u64) -> (out: Vec<u8>)
    ensures
        out@ == digits(n as nat),
    decreases n,
{
    if n < 10 {
        let mut out: Vec<u8> = Vec::new();
        out.push(48 + n as u8);
        assert(out@ =~= digits(n as nat));
        out
    } else {
        let mut out = decimal(n / 10);
        out.push(48 + (n % 10) as u8);
        out
    }
}

/// The number that the bytes spell in decimal. `None` where there is no
/// byte, where a byte is no digit, or where the number does not fit in 64
/// bits.
pub fn parse_decimal(bytes: &[u8]) -> (res: Option<u64>)
    ensures
        match res {
            Some(n) => bytes@.len() > 0 && all_digits(bytes@) && decimal_value(bytes@) == n,
            None => bytes@.len() == 0 || !all_digits(bytes@) || decimal_value(bytes@) > u64::MAX,
        },
{
    let len: usize = bytes.len();
    if len == 0 {
        return None;
    }
    let mut acc: u64 = 0;
    let mut i: usize = 0;
    assert(bytes@.take(0) =~= Seq::<u8>::empty());
    while i < len
        invariant
            i <= len,
            len == bytes@.len(),
            all_digits(bytes@.take(i as int)),
            acc == decimal_value(bytes@.take(i as int)),
        decreases len - i,
    {
        let b: u8 = bytes[i];
        if b < 48 || b > 57 {
            assert(!(48 <= bytes@[i as int] <= 57));
            return None;
        }
        let d: u64 = (b - 48) as u64;
        proof {
            let next = bytes@.take(i as int + 1);
            assert(next.drop_last() =~= bytes@.take(i as int));
            assert(next.last() == b);
            assert forall|k: int| 0 <= k < next.len() implies 48 <= #[trigger] next[k] <= 57 by {
                if k < i {
                    assert(next[k] == bytes@.take(i as int)[k]);
                }
            }
        }
        if acc > (u64::MAX - d) / 10 {
            proof {
                if all_digits(bytes@) {
                    lemma_value_grows(bytes@, i as int + 1);
                }
            }
            return None;
        }
        acc = acc * 10 + d;
        i = i + 1;
    }
    assert(bytes@.take(len as int) =~= bytes@);
    Some(acc)
}

/// The name of the file of the log with the number `n`.
pub fn log_file_name(n: u64) -> (name: Vec<u8>)
    ensures
        name@ == log_name(n),
{
    let mut name = decimal(n);
    name.push(46);
    name.push(76);
    name.push(79);
    name.push(71);
    assert(name@ =~= log_name(n));
    name
}

/// The name of the file of the table with the number `n`.
pub fn table_file_name(n: u64) -> (name: Vec<u8>)
    ensures
        name@ == table_name(n),
{
    let mut name = decimal(n);
    name.push(46);
    name.push(115);
    name.push(115);
    name.push(116);
    assert(name@ =~= table_name(n));
    name
}

/// The kinds of files that the store keeps.
#[derive(Clone, Copy, Debug, PartialEq, Eq, Structural)]
pub enum FileKind {
    Log,
    Table,
}

/// The name is that of a file of the kind with the number `n`: decimal
/// digits that spell `n`, then the suffix of the kind.
pub open spec fn names(name: Seq<u8>, kind: FileKind, n: u64) -> bool {
    let suffix = match kind {
        FileKind::Log => log_suffix(),
        FileKind::Table => table_suffix(),
    };
    &&& name.len() > 4
    &&& name.subrange(name.len() - 4, name.len() as int) == suffix
    &&& all_digits(name.subrange(0, name.len() - 4))
    &&& decimal_value(name.subrange(0, name.len() - 4)) == n
}

/// Tells what file a name stands for: its kind and its number. `None` where
/// the name is that of no file of the store.
pub fn parse_file_name(name: &[u8]) -> (res: Option<(FileKind, u64)>)
    ensures
        match res {
            Some((kind, n)) => names(name@, kind, n),
            None => forall|kind: FileKind, n: u64| !names(name@, kind, n),
        },
{
    let len: usize = name.len();
    if len <= 4 {
        return None;
    }
    let stem = copy_range(name, 0, len - 4);
    let suffix = copy_range(name, len - 4, len);
    let mut log: Vec<u8> = Vec::new();
    log.push(46);
    log.push(76);
    log.push(79);
    log.push(71);
    assert(log@ =~= log_suffix());
    let mut table: Vec<u8> = Vec::new();
    table.push(46);
    table.push(115);
    table.push(115);
    table.push(116);
    assert(table@ =~= table_suffix());
    assert(log_suffix()[1] != table_suffix()[1]);
    let kind = if bytes_equal(suffix.as_slice(), log.as_slice()) {
        FileKind::Log
    } else if bytes_equal(suffix.as_slice(), table.as_slice()) {
        FileKind::Table
    } else {
        return None;
    };
    match parse_decimal(stem.as_slice()) {
        Some(n) => Some((kind, n)),
        None => None,
    }
}

/// A file's name tells its kind and number: the name made for a log or a
/// table is that of a file of this kind with this number.
pub proof fn lemma_names_round_trip(n: u64)
    ensures
        names(log_name(n), FileKind::Log, n),
        names(table_name(n), FileKind::Table, n),
{
    lemma_digits(n as nat);
    let d = digits(n as nat);
    let l = log_name(n);
    let t = table_name(n);
    assert(l.subrange(l.len() - 4, l.len() as int) =~= log_suffix());
    assert(l.subrange(0, l.len() - 4) =~= d);
    assert(t.subrange(t.len() - 4, t.len() as int) =~= table_suffix());
    assert(t.subrange(0, t.len() - 4) =~= d);
}

} // verus!
