//! Choosing what a compaction takes in, and merging it into a new table.
//!
//! A compaction starts at the first level that holds more than it may and
//! has a table where its last compaction left off. It takes that table, every
//! table of the next level whose user keys overlap its range, every table of
//! the level itself whose user keys overlap the range grown by those, and so
//! on until no table of the two levels overlaps the range any more. The
//! tables taken are merged into one table of the next level, in which each
//! user key keeps its newest version only. A table that nothing overlaps
//! moves down as it is.

use vstd::prelude::*;
use crate::bytes_order::{bytes_before, bytes_le, bytes_lt, lemma_bytes_le_transitive, lemma_bytes_lt_total};
use crate::merge::lemma_flatten_contains;
use crate::table::{blocks_cut_at, laid_out, max_seq_num, table_image};
use crate::key::{LookUpKey, LookUpKeyView};
use crate::levels::{level_wf, levels_wf, starts_view, Levels};
use crate::memtable::{entries_of, MemTable};
use crate::merge::{dedup_user_keys, entries_fine, kmerge_result, merge_runs, runs_view, Pair};
use crate::sst::EntryView;
use crate::table::{entries_sorted, pairs_view, Table, TableView};
use crate::utils::copy_bytes;

verus! {

/// The length of all files of a level together.
pub open spec fn level_bytes(tables: Seq<Table>) -> nat
    decreases tables.len(),
{
    if tables.len() == 0 {
        0
    } else {
        level_bytes(tables.drop_last()) + tables.last().image().len()
    }
}

/// 16 to the power `n`.
pub open spec fn pow16(n: nat) -> nat
    decreases n,
{
    if n == 0 {
        1
    } else {
        16 * pow16((n - 1) as nat)
    }
}

/// The level holds more than it may: level 0 more tables than
/// `l0_threshold`, a deeper level more bytes than `l1_max_bytes` times 16 for
/// each level between it and level 1.
pub open spec fn compactable(tables: Seq<Table>, level: int, l0_threshold: usize, l1_max_bytes: u64) -> bool {
    if level == 0 {
        tables.len() > l0_threshold
    } else {
        level_bytes(tables) > l1_max_bytes * pow16((level - 1) as nat)
    }
}

/// The table's smallest and largest key are those of `start`.
pub open spec fn range_same(t: TableView, start: (LookUpKeyView, LookUpKeyView)) -> bool {
    t.min_key.key.same(start.0.key) && t.max_key.key.same(start.1.key)
}

/// The number of tables at the front of `tables` whose range is not that of `start`.
pub open spec fn seed_place(tables: Seq<Table>, start: (LookUpKeyView, LookUpKeyView)) -> int
    decreases tables.len(),
{
    if tables.len() == 0 {
        0
    } else if range_same(tables[0]@, start) {
        0
    } else {
        1 + seed_place(tables.drop_first(), start)
    }
}

/// The place of the table that a compaction of the level starts from: the
/// first table with the range of `start`.
pub open spec fn level_seed(tables: Seq<Table>, start: Option<(LookUpKeyView, LookUpKeyView)>) -> Option<int> {
    match start {
        Some(s) => if seed_place(tables, s) < tables.len() {
            Some(seed_place(tables, s))
        } else {
            None
        },
        None => None,
    }
}

/// The first level from `from` on, the last level left out, that holds more
/// than it may and has a table to start from; the number of levels where
/// there is none.
pub open spec fn compaction_level(
    levels: Seq<Seq<Table>>,
    starts: Seq<Option<(LookUpKeyView, LookUpKeyView)>>,
    l0_threshold: usize,
    l1_max_bytes: u64,
    from: int,
) -> int
    decreases levels.len() - from,
{
    if from < 0 || from >= levels.len() - 1 {
        levels.len() as int
    } else if compactable(levels[from], from, l0_threshold, l1_max_bytes) && level_seed(
        levels[from],
        starts[from],
    ).is_some() {
        from
    } else {
        compaction_level(levels, starts, l0_threshold, l1_max_bytes, from + 1)
    }
}

/// The smaller of two user keys.
pub open spec fn uk_min(a: Seq<u8>, b: Seq<u8>) -> Seq<u8> {
    if bytes_lt(b, a) {
        b
    } else {
        a
    }
}

/// The larger of two user keys.
pub open spec fn uk_max(a: Seq<u8>, b: Seq<u8>) -> Seq<u8> {
    if bytes_lt(a, b) {
        b
    } else {
        a
    }
}

/// The table at a place: a level and a position in it.
pub open spec fn table_at(levels: Seq<Seq<Table>>, p: (usize, usize)) -> TableView {
    levels[p.0 as int][p.1 as int]@
}

/// The smallest user key of the tables at the places.
pub open spec fn hull_lo(levels: Seq<Seq<Table>>, picked: Seq<(usize, usize)>) -> Seq<u8>
    decreases picked.len(),
{
    if picked.len() <= 1 {
        table_at(levels, picked[0]).min_key.key.user_key
    } else {
        uk_min(
            hull_lo(levels, picked.drop_last()),
            table_at(levels, picked.last()).min_key.key.user_key,
        )
    }
}

/// The largest user key of the tables at the places.
pub open spec fn hull_hi(levels: Seq<Seq<Table>>, picked: Seq<(usize, usize)>) -> Seq<u8>
    decreases picked.len(),
{
    if picked.len() <= 1 {
        table_at(levels, picked[0]).max_key.key.user_key
    } else {
        uk_max(
            hull_hi(levels, picked.drop_last()),
            table_at(levels, picked.last()).max_key.key.user_key,
        )
    }
}

/// The table's user keys reach into the range from `lo` to `hi`.
pub open spec fn overlaps(t: TableView, lo: Seq<u8>, hi: Seq<u8>) -> bool {
    !bytes_lt(hi, t.min_key.key.user_key) && !bytes_lt(t.max_key.key.user_key, lo)
}

/// The place is a table of `level` or of the level below it.
pub open spec fn place_ok(levels: Seq<Seq<Table>>, level: usize, p: (usize, usize)) -> bool {
    (p.0 == level || p.0 == level + 1) && p.1 < levels[p.0 as int].len()
}

/// Place `k` of `picked` overlaps the range of the places before it.
pub open spec fn joins(levels: Seq<Seq<Table>>, picked: Seq<(usize, usize)>, k: int) -> bool {
    overlaps(
        table_at(levels, picked[k]),
        hull_lo(levels, picked.take(k)),
        hull_hi(levels, picked.take(k)),
    )
}

/// `picked` starts with the seed and goes on with tables of the two levels,
/// none twice, each overlapping the range of those before it.
pub open spec fn picked_chain(levels: Seq<Seq<Table>>, level: usize, seed: usize, picked: Seq<(usize, usize)>) -> bool {
    &&& level + 1 < levels.len()
    &&& level < usize::MAX
    &&& picked.len() >= 1
    &&& picked[0] == (level, seed)
    &&& forall|k: int| 0 <= k < picked.len() ==> place_ok(levels, level, #[trigger] picked[k])
    &&& forall|i: int, j: int|
        0 <= i < j < picked.len() ==> (#[trigger] picked[i]) != (#[trigger] picked[j])
    &&& forall|k: int| 1 <= k < picked.len() ==> #[trigger] joins(levels, picked, k)
}

/// Every table of level `l` that overlaps the range of `picked` is among `picked`.
pub open spec fn level_closed(levels: Seq<Seq<Table>>, l: usize, picked: Seq<(usize, usize)>) -> bool {
    forall|i: usize|
        i < levels[l as int].len() && overlaps(
            #[trigger] table_at(levels, (l, i)),
            hull_lo(levels, picked),
            hull_hi(levels, picked),
        ) ==> picked.contains((l, i))
}

/// What a compaction takes in: the seed and, step by step, every table of
/// the two levels that overlaps the range of what was taken, until none is
/// left that does.
pub open spec fn inputs_ok(levels: Seq<Seq<Table>>, level: usize, seed: usize, picked: Seq<(usize, usize)>) -> bool {
    &&& picked_chain(levels, level, seed, picked)
    &&& level_closed(levels, level, picked)
    &&& level_closed(levels, (level + 1) as usize, picked)
}

/// The number of marks that are set.
pub open spec fn count_set(marks: Seq<bool>) -> nat
    decreases marks.len(),
{
    if marks.len() == 0 {
        0
    } else {
        count_set(marks.drop_last()) + (if marks.last() {
            1nat
        } else {
            0nat
        })
    }
}

/// There are no more marks set than there are marks.
pub proof fn lemma_count_set_bound(marks: Seq<bool>)
    ensures
        count_set(marks) <= marks.len(),
    decreases marks.len(),
{
    if marks.len() > 0 {
        lemma_count_set_bound(marks.drop_last());
    }
}

/// Setting a mark that was not set makes one more mark set.
pub proof fn lemma_count_set_update(marks: Seq<bool>, i: int)
    requires
        0 <= i < marks.len(),
        !marks[i],
    ensures
        count_set(marks.update(i, true)) == count_set(marks) + 1,
    decreases marks.len(),
{
    let after = marks.update(i, true);
    if i == marks.len() - 1 {
        assert(after.drop_last() =~= marks.drop_last());
    } else {
        assert(after.drop_last() =~= marks.drop_last().update(i, true));
        lemma_count_set_update(marks.drop_last(), i);
    }
}

/// Where no mark is set, the number of marks set is 0.
pub proof fn lemma_count_set_none(marks: Seq<bool>)
    requires
        forall|i: int| 0 <= i < marks.len() ==> !marks[i],
    ensures
        count_set(marks) == 0,
    decreases marks.len(),
{
    if marks.len() > 0 {
        lemma_count_set_none(marks.drop_last());
    }
}

/// The marks say which tables of level `l` are among `picked`.
pub open spec fn marks_of(marks: Seq<bool>, l: usize, picked: Seq<(usize, usize)>) -> bool {
    forall|i: usize| i < marks.len() ==> (marks[i as int] <==> #[trigger] picked.contains((l, i)))
}

/// The state of choosing: the marks say which tables of the two levels were
/// taken, and `lo` and `hi` are the ends of their range.
pub open spec fn choosing(
    levels: Seq<Seq<Table>>,
    level: usize,
    seed: usize,
    picked: Seq<(usize, usize)>,
    src_marks: Seq<bool>,
    dst_marks: Seq<bool>,
    lo: Seq<u8>,
    hi: Seq<u8>,
) -> bool {
    &&& picked_chain(levels, level, seed, picked)
    &&& src_marks.len() == levels[level as int].len()
    &&& dst_marks.len() == levels[level + 1].len()
    &&& marks_of(src_marks, level, picked)
    &&& marks_of(dst_marks, (level + 1) as usize, picked)
    &&& lo == hull_lo(levels, picked)
    &&& hi == hull_hi(levels, picked)
    &&& picked.len() == count_set(src_marks) + count_set(dst_marks)
}

/// Where one more place goes behind `picked`, the places among them are
/// those that were, and the new one.
proof fn lemma_push_contains(picked: Seq<(usize, usize)>, p: (usize, usize))
    ensures
        forall|q: (usize, usize)| #[trigger]
            picked.push(p).contains(q) <==> (picked.contains(q) || q == p),
{
    let next = picked.push(p);
    assert forall|q: (usize, usize)| #[trigger] next.contains(q) <==> (picked.contains(q) || q == p) by {
        if next.contains(q) {
            let w = choose|w: int| 0 <= w < next.len() && next[w] == q;
            if w < picked.len() {
                assert(picked[w] == q);
            }
        }
        if picked.contains(q) {
            let w = choose|w: int| 0 <= w < picked.len() && picked[w] == q;
            assert(next[w] == q);
        }
        if q == p {
            assert(next[picked.len() as int] == q);
        }
    }
}

/// Taking one more table that overlaps the range keeps the chain.
proof fn lemma_take_chain(
    levels: Seq<Seq<Table>>,
    level: usize,
    seed: usize,
    picked: Seq<(usize, usize)>,
    p: (usize, usize),
)
    requires
        picked_chain(levels, level, seed, picked),
        place_ok(levels, level, p),
        !picked.contains(p),
        overlaps(table_at(levels, p), hull_lo(levels, picked), hull_hi(levels, picked)),
    ensures
        picked_chain(levels, level, seed, picked.push(p)),
        hull_lo(levels, picked.push(p)) == uk_min(
            hull_lo(levels, picked),
            table_at(levels, p).min_key.key.user_key,
        ),
        hull_hi(levels, picked.push(p)) == uk_max(
            hull_hi(levels, picked),
            table_at(levels, p).max_key.key.user_key,
        ),
{
    let next = picked.push(p);
    assert(next.drop_last() =~= picked);
    assert forall|i: int, j: int| 0 <= i < j < next.len() implies (#[trigger] next[i]) != (
    #[trigger] next[j]) by {
        if j == picked.len() {
            assert(picked[i] == next[i]);
            assert(picked.contains(picked[i]));
        }
    }
    assert forall|k: int| 1 <= k < next.len() implies #[trigger] joins(levels, next, k) by {
        if k < picked.len() {
            assert(joins(levels, picked, k));
            assert(next.take(k) =~= picked.take(k));
        } else {
            assert(next.take(k) =~= picked);
        }
    }
    assert forall|k: int| 0 <= k < next.len() implies place_ok(levels, level, #[trigger] next[k]) by {
        if k < picked.len() {
            assert(next[k] == picked[k]);
        }
    }
}

/// Setting the mark of a table that is taken keeps the marks right.
proof fn lemma_take_marks(marks: Seq<bool>, l: usize, picked: Seq<(usize, usize)>, p: (usize, usize))
    requires
        marks_of(marks, l, picked),
    ensures
        p.0 == l && p.1 < marks.len() ==> marks_of(marks.update(p.1 as int, true), l, picked.push(p)),
        p.0 != l ==> marks_of(marks, l, picked.push(p)),
{
    lemma_push_contains(picked, p);
    let next = picked.push(p);
    if p.0 == l && p.1 < marks.len() {
        let after = marks.update(p.1 as int, true);
        assert forall|i: usize| i < after.len() implies (after[i as int] <==> #[trigger] next.contains(
            (l, i),
        )) by {
            assert(marks[i as int] <==> picked.contains((l, i)));
        }
    }
    if p.0 != l {
        assert forall|i: usize| i < marks.len() implies (marks[i as int] <==> #[trigger] next.contains(
            (l, i),
        )) by {
            assert(marks[i as int] <==> picked.contains((l, i)));
        }
    }
}

/// Whether the table's user keys reach into the range from `lo` to `hi`.
pub fn table_overlaps(t: &Table, lo: &[u8], hi: &[u8]) -> (r: bool)
    requires
        t.wf(),
    ensures
        r == overlaps(t@, lo@, hi@),
{
    !bytes_before(hi, t.get_min_key().get_user_key()) && !bytes_before(
        t.get_max_key().get_user_key(),
        lo,
    )
}

/// The powers of 16 do not descend, and none is 0.
pub proof fn lemma_pow16_monotonic(a: nat, b: nat)
    requires
        a <= b,
    ensures
        pow16(a) <= pow16(b),
        pow16(a) >= 1,
    decreases b,
{
    if a < b {
        lemma_pow16_monotonic(a, (b - 1) as nat);
    } else if a > 0 {
        lemma_pow16_monotonic((a - 1) as nat, (a - 1) as nat);
    }
}

/// Whether `level` holds more than it may.
pub fn level_compactable(levels: &Levels, level: usize) -> (r: bool)
    requires
        levels.wf(),
        level < levels.tables().len(),
    ensures
        r == compactable(
            levels.tables()[level as int],
            level as int,
            levels.l0_threshold(),
            levels.l1_max_bytes(),
        ),
{
    let n: usize = levels.count(level);
    let ghost tables = levels.tables()[level as int];
    if level == 0 {
        return n > levels.get_l0_threshold();
    }
    let mut total: u128 = 0;
    let mut i: usize = 0;
    assert(tables.take(0) =~= Seq::<Table>::empty());
    while i < n
        invariant
            i <= n,
            n == tables.len(),
            tables == levels.tables()[level as int],
            level < levels.tables().len(),
            total == level_bytes(tables.take(i as int)),
            total <= i * 0xffff_ffff_ffff_ffff,
        decreases n - i,
    {
        let size: u64 = levels.table(level, i).get_size();
        proof {
            assert(tables.take(i as int + 1).drop_last() =~= tables.take(i as int));
            assert(tables.take(i as int + 1).last() == tables[i as int]);
            assert(total + size <= (i + 1) * 0xffff_ffff_ffff_ffff) by (nonlinear_arith)
                requires
                    total <= i * 0xffff_ffff_ffff_ffff,
                    size <= 0xffff_ffff_ffff_ffff,
            ;
            assert((i + 1) * 0xffff_ffff_ffff_ffff <= 0xffff_ffff_ffff_ffff
                * 0xffff_ffff_ffff_ffff) by (nonlinear_arith)
                requires
                    i + 1 <= 0xffff_ffff_ffff_ffff,
            ;
        }
        total = total + size as u128;
        i = i + 1;
    }
    assert(tables.take(n as int) =~= tables);
    let l1: u64 = levels.get_l1_max_bytes();
    let mut budget: u128 = l1 as u128;
    let mut k: usize = 1;
    assert(l1 * pow16(0) == l1) by (nonlinear_arith)
        requires
            pow16(0) == 1,
    ;
    assert(total <= 0xffff_ffff_ffff_ffff * 0xffff_ffff_ffff_ffff) by (nonlinear_arith)
        requires
            total <= n * 0xffff_ffff_ffff_ffff,
            n <= 0xffff_ffff_ffff_ffff,
    ;
    while k < level
        invariant
            1 <= k <= level,
            level < levels.tables().len(),
            l1 == levels.l1_max_bytes(),
            budget == l1 * pow16((k - 1) as nat),
            total == level_bytes(levels.tables()[level as int]),
            total <= 0xffff_ffff_ffff_ffff * 0xffff_ffff_ffff_ffff,
        decreases level - k,
    {
        if budget > u128::MAX / 16 {
            proof {
                assert(budget >= 0x1000_0000_0000_0000_0000_0000_0000_0000);
                assert(16 * budget > total);
                // the level may hold more than any number of bytes that can be counted
                lemma_pow16_monotonic(k as nat, (level - 1) as nat);
                assert(l1 * pow16(k as nat) == 16 * budget) by (nonlinear_arith)
                    requires
                        budget == l1 * pow16((k - 1) as nat),
                        pow16(k as nat) == 16 * pow16((k - 1) as nat),
                ;
                assert(l1 * pow16(k as nat) <= l1 * pow16((level - 1) as nat)) by (nonlinear_arith)
                    requires
                        pow16(k as nat) <= pow16((level - 1) as nat),
                        l1 >= 0,
                ;
            }
            return false;
        }
        proof {
            assert(l1 * pow16(k as nat) == 16 * budget) by (nonlinear_arith)
                requires
                    budget == l1 * pow16((k - 1) as nat),
                    pow16(k as nat) == 16 * pow16((k - 1) as nat),
            ;
        }
        budget = budget * 16;
        k = k + 1;
    }
    total > budget
}

/// `at` is the number of tables at the front whose range is not that of `start`.
pub proof fn lemma_seed_place(tables: Seq<Table>, start: (LookUpKeyView, LookUpKeyView), at: int)
    requires
        0 <= at <= tables.len(),
        forall|k: int| 0 <= k < at ==> !range_same((#[trigger] tables[k])@, start),
        at < tables.len() ==> range_same(tables[at]@, start),
    ensures
        seed_place(tables, start) == at,
    decreases tables.len(),
{
    if tables.len() > 0 && at > 0 {
        let rest = tables.drop_first();
        assert(!range_same(tables[0]@, start));
        assert forall|k: int| 0 <= k < at - 1 implies !range_same((#[trigger] rest[k])@, start) by {
            assert(rest[k] == tables[k + 1]);
        }
        lemma_seed_place(rest, start, at - 1);
    }
}

/// The place of the table that a compaction of `level` starts from.
pub fn find_seed(levels: &Levels, level: usize, start: &Option<(LookUpKey, LookUpKey)>) -> (seed: Option<usize>)
    requires
        levels.wf(),
        level < levels.tables().len(),
    ensures
        seed matches Some(i) ==> i < levels.tables()[level as int].len() && level_seed(
            levels.tables()[level as int],
            match start {
                Some(r) => Some((r.0@, r.1@)),
                None => None,
            },
        ) == Some(i as int),
        seed.is_none() ==> level_seed(
            levels.tables()[level as int],
            match start {
                Some(r) => Some((r.0@, r.1@)),
                None => None,
            },
        ).is_none(),
{
    match start {
        Some(r) => {
            let n: usize = levels.count(level);
            let ghost tables = levels.tables()[level as int];
            assert(level_wf(tables, level as int));
            let mut i: usize = 0;
            while i < n
                invariant
                    i <= n,
                    n == tables.len(),
                    tables == levels.tables()[level as int],
                    level < levels.tables().len(),
                    level_wf(tables, level as int),
                    start == Some(*r),
                    forall|k: int| 0 <= k < i ==> !range_same((#[trigger] tables[k])@, (r.0@, r.1@)),
                decreases n - i,
            {
                let t = levels.table(level, i);
                if t.get_min_key().same_as(&r.0) && t.get_max_key().same_as(&r.1) {
                    proof {
                        lemma_seed_place(tables, (r.0@, r.1@), i as int);
                    }
                    return Some(i);
                }
                i = i + 1;
            }
            proof {
                lemma_seed_place(tables, (r.0@, r.1@), n as int);
            }
            None
        },
        None => None,
    }
}

/// Goes once through level `level`, or the level below it, and takes every
/// table that was not taken and overlaps the range.
fn scan(
    levels: &Levels,
    level: usize,
    seed: usize,
    below: bool,
    picked: &mut Vec<(usize, usize)>,
    src_marks: &mut Vec<bool>,
    dst_marks: &mut Vec<bool>,
    lo: &mut Vec<u8>,
    hi: &mut Vec<u8>,
) -> (changed: bool)
    requires
        levels.wf(),
        choosing(
            levels.tables(),
            level,
            seed,
            old(picked)@,
            old(src_marks)@,
            old(dst_marks)@,
            old(lo)@,
            old(hi)@,
        ),
    ensures
        choosing(
            levels.tables(),
            level,
            seed,
            final(picked)@,
            final(src_marks)@,
            final(dst_marks)@,
            final(lo)@,
            final(hi)@,
        ),
        final(picked)@.len() >= old(picked)@.len(),
        changed <==> final(picked)@.len() > old(picked)@.len(),
        !changed ==> final(picked)@ == old(picked)@ && level_closed(
            levels.tables(),
            if below {
                (level + 1) as usize
            } else {
                level
            },
            final(picked)@,
        ),
{
    let l: usize = if below {
        level + 1
    } else {
        level
    };
    let ghost tables = levels.tables();
    let n: usize = levels.count(l);
    let mut changed: bool = false;
    let mut i: usize = 0;
    while i < n
        invariant
            i <= n,
            levels.wf(),
            tables == levels.tables(),
            l == (if below {
                (level + 1) as usize
            } else {
                level
            }),
            l < tables.len(),
            n == tables[l as int].len(),
            choosing(tables, level, seed, picked@, src_marks@, dst_marks@, lo@, hi@),
            picked@.len() >= old(picked)@.len(),
            changed <==> picked@.len() > old(picked)@.len(),
            !changed ==> picked@ == old(picked)@,
            !changed ==> forall|j: usize|
                j < i ==> picked@.contains((l, j)) || !overlaps(
                    #[trigger] table_at(tables, (l, j)),
                    lo@,
                    hi@,
                ),
        decreases n - i,
    {
        let marked: bool = if below {
            dst_marks[i]
        } else {
            src_marks[i]
        };
        proof {
            assert(marked <==> picked@.contains((l, i)));
            assert(level_wf(tables[l as int], l as int));
        }
        let t = levels.table(l, i);
        assert(t@ == table_at(tables, (l, i)));
        if !marked && table_overlaps(t, lo.as_slice(), hi.as_slice()) {
            proof {
                lemma_take_chain(tables, level, seed, picked@, (l, i));
                lemma_take_marks(src_marks@, level, picked@, (l, i));
                lemma_take_marks(dst_marks@, (level + 1) as usize, picked@, (l, i));
                if below {
                    lemma_count_set_update(dst_marks@, i as int);
                } else {
                    lemma_count_set_update(src_marks@, i as int);
                }
            }
            picked.push((l, i));
            if below {
                dst_marks.set(i, true);
            } else {
                src_marks.set(i, true);
            }
            if bytes_before(t.get_min_key().get_user_key(), lo.as_slice()) {
                *lo = copy_bytes(t.get_min_key().get_user_key());
            }
            if bytes_before(hi.as_slice(), t.get_max_key().get_user_key()) {
                *hi = copy_bytes(t.get_max_key().get_user_key());
            }
            changed = true;
        }
        i = i + 1;
    }
    changed
}

/// Chooses what a compaction of `level` that starts from table `seed` takes in.
pub fn choose_inputs(levels: &Levels, level: usize, seed: usize) -> (picked: Vec<(usize, usize)>)
    requires
        levels.wf(),
        level + 1 < levels.tables().len(),
        seed < levels.tables()[level as int].len(),
    ensures
        inputs_ok(levels.tables(), level, seed, picked@),
{
    let ghost tables = levels.tables();
    let depth: usize = levels.depth();
    let ns: usize = levels.count(level);
    let nd: usize = levels.count(level + 1);
    let mut src_marks: Vec<bool> = Vec::new();
    let mut i: usize = 0;
    while i < ns
        invariant
            i <= ns,
            src_marks@.len() == i,
            forall|j: int| 0 <= j < i ==> !src_marks@[j],
        decreases ns - i,
    {
        src_marks.push(false);
        i = i + 1;
    }
    let mut dst_marks: Vec<bool> = Vec::new();
    let mut i: usize = 0;
    while i < nd
        invariant
            i <= nd,
            dst_marks@.len() == i,
            forall|j: int| 0 <= j < i ==> !dst_marks@[j],
        decreases nd - i,
    {
        dst_marks.push(false);
        i = i + 1;
    }
    proof {
        lemma_count_set_none(src_marks@);
        lemma_count_set_none(dst_marks@);
        lemma_count_set_update(src_marks@, seed as int);
        assert(level_wf(tables[level as int], level as int));
    }
    src_marks.set(seed, true);
    let mut picked: Vec<(usize, usize)> = Vec::new();
    picked.push((level, seed));
    let first = levels.table(level, seed);
    let mut lo = copy_bytes(first.get_min_key().get_user_key());
    let mut hi = copy_bytes(first.get_max_key().get_user_key());
    proof {
        let p = picked@;
        assert(p[0] == (level, seed));
        assert forall|j: usize| j < src_marks@.len() implies (src_marks@[j as int] <==> #[trigger] p.contains(
            (level, j),
        )) by {
            if j == seed {
                assert(p[0] == (level, j));
            }
        }
        assert forall|j: usize| j < dst_marks@.len() implies (dst_marks@[j as int] <==> #[trigger] p.contains(
            ((level + 1) as usize, j),
        )) by {}
    }
    let mut changed: bool = true;
    while changed
        invariant
            levels.wf(),
            tables == levels.tables(),
            ns == tables[level as int].len(),
            nd == tables[level + 1].len(),
            choosing(tables, level, seed, picked@, src_marks@, dst_marks@, lo@, hi@),
            !changed ==> level_closed(tables, level, picked@) && level_closed(
                tables,
                (level + 1) as usize,
                picked@,
            ),
        decreases
                ns + nd - picked@.len() + (if changed {
                    1int
                } else {
                    0int
                }),
    {
        proof {
            lemma_count_set_bound(src_marks@);
            lemma_count_set_bound(dst_marks@);
        }
        let below = scan(
            levels,
            level,
            seed,
            true,
            &mut picked,
            &mut src_marks,
            &mut dst_marks,
            &mut lo,
            &mut hi,
        );
        let here = scan(
            levels,
            level,
            seed,
            false,
            &mut picked,
            &mut src_marks,
            &mut dst_marks,
            &mut lo,
            &mut hi,
        );
        proof {
            lemma_count_set_bound(src_marks@);
            lemma_count_set_bound(dst_marks@);
        }
        changed = below || here;
    }
    picked
}

/// The entries of the tables at the places, table by table.
pub open spec fn contents_at(levels: Seq<Seq<Table>>, picked: Seq<(usize, usize)>) -> Seq<Seq<EntryView>> {
    Seq::new(picked.len(), |k: int| table_at(levels, picked[k]).content())
}

/// The levels and file numbers of the tables at the places.
pub open spec fn files_at(levels: Seq<Seq<Table>>, picked: Seq<(usize, usize)>) -> Seq<(usize, u64)> {
    Seq::new(picked.len(), |k: int| (picked[k].0, levels[picked[k].0 as int][picked[k].1 as int].id()))
}

/// The entries of the table that a compaction of the tables at the places
/// writes: those of the one table where there is but one; else those of all
/// merged, of each user key the first only.
pub open spec fn compacted(levels: Seq<Seq<Table>>, picked: Seq<(usize, usize)>) -> Seq<EntryView> {
    if picked.len() == 1 {
        table_at(levels, picked[0]).content()
    } else {
        dedup_user_keys(kmerge_result(contents_at(levels, picked)))
    }
}

/// The range of the tables at the places reaches from the smallest to the
/// largest user key of each of them.
pub proof fn lemma_hull_bounds(levels: Seq<Seq<Table>>, picked: Seq<(usize, usize)>, k: int)
    requires
        0 <= k < picked.len(),
    ensures
        bytes_le(hull_lo(levels, picked), table_at(levels, picked[k]).min_key.key.user_key),
        bytes_le(table_at(levels, picked[k]).max_key.key.user_key, hull_hi(levels, picked)),
    decreases picked.len(),
{
    if picked.len() > 1 {
        let front = picked.drop_last();
        let last = table_at(levels, picked.last());
        let lo = hull_lo(levels, front);
        let hi = hull_hi(levels, front);
        lemma_bytes_lt_total(lo, last.min_key.key.user_key);
        lemma_bytes_lt_total(hi, last.max_key.key.user_key);
        if k < picked.len() - 1 {
            lemma_hull_bounds(levels, front, k);
            assert(front[k] == picked[k]);
            let t = table_at(levels, picked[k]);
            lemma_bytes_le_transitive(hull_lo(levels, picked), lo, t.min_key.key.user_key);
            lemma_bytes_le_transitive(t.max_key.key.user_key, hi, hull_hi(levels, picked));
        } else {
            assert(picked[k] == picked.last());
            if bytes_lt(last.min_key.key.user_key, lo) {
            } else {
                lemma_bytes_lt_total(lo, last.min_key.key.user_key);
            }
        }
    }
}

/// The user key of every entry of a well-formed table lies between the
/// table's smallest and largest user key.
pub proof fn lemma_entry_within(t: &Table, i: int)
    requires
        t.wf(),
        0 <= i < t@.content().len(),
    ensures
        bytes_le(t@.min_key.key.user_key, t@.content()[i].key.key.user_key),
        bytes_le(t@.content()[i].key.key.user_key, t@.max_key.key.user_key),
{
    t.lemma_content();
    let c = t@.content();
    if i > 0 {
        assert(c[0].key.key.lt(c[i].key.key));
    }
    if i < c.len() - 1 {
        assert(c[i].key.key.lt(c[c.len() - 1].key.key));
    }
}

/// What a compaction did: the tables that it took in, and the table that it
/// made of them.
pub struct Compaction {
    /// The level and the file number of each table that was taken in. The
    /// tables are to be dropped from the levels and their files removed.
    pub deleted_tables: Vec<(usize, u64)>,
    /// The tables that were made. They are to be put into the levels and
    /// their images written to files.
    pub new_tables: Vec<Table>,
    /// The number of the log that is no longer needed.
    pub removed_log: Option<u64>,
    /// The place of each table that was taken in: its level and its
    /// position in the level.
    pub inputs: Vec<(usize, usize)>,
}

/// The result of a compaction of `level` that starts from table `seed` and
/// takes in the tables at `picked`.
pub open spec fn merged_into(
    levels: Seq<Seq<Table>>,
    level: usize,
    seed: usize,
    picked: Seq<(usize, usize)>,
    deleted: Seq<(usize, u64)>,
    made: Table,
    file_num: u64,
    block_size: usize,
) -> bool {
    &&& inputs_ok(levels, level, seed, picked)
    &&& deleted == files_at(levels, picked)
    &&& made.wf()
    &&& made.id() == file_num
    &&& made@.footer.level == level + 1
    &&& made@.content() == compacted(levels, picked)
    &&& bytes_le(hull_lo(levels, picked), made@.min_key.key.user_key)
    &&& bytes_le(made@.max_key.key.user_key, hull_hi(levels, picked))
    &&& made@.footer.last_seq_num == max_seq_num(made@.content())
    &&& blocks_cut_at(made@.blocks, block_size as nat)
    &&& laid_out(made@)
    &&& made.image() == table_image(made@)
}

/// The user key of an entry of one of the tables at the places lies within
/// the range of the tables.
proof fn lemma_within_hull(
    levels: Seq<Seq<Table>>,
    level: usize,
    picked: Seq<(usize, usize)>,
    runs: Seq<Seq<EntryView>>,
    e: EntryView,
)
    requires
        levels_wf(levels),
        level + 1 < levels.len(),
        forall|k: int| 0 <= k < picked.len() ==> place_ok(levels, level, #[trigger] picked[k]),
        runs == contents_at(levels, picked),
        exists|r: int| 0 <= r < runs.len() && (#[trigger] runs[r]).contains(e),
    ensures
        bytes_le(hull_lo(levels, picked), e.key.key.user_key),
        bytes_le(e.key.key.user_key, hull_hi(levels, picked)),
{
    let r = choose|r: int| 0 <= r < runs.len() && (#[trigger] runs[r]).contains(e);
    let w = choose|w: int| 0 <= w < runs[r].len() && runs[r][w] == e;
    let p = picked[r];
    assert(place_ok(levels, level, p));
    assert(level_wf(levels[p.0 as int], p.0 as int));
    let t = levels[p.0 as int][p.1 as int];
    assert(runs[r] == t@.content());
    lemma_entry_within(&t, w);
    lemma_hull_bounds(levels, picked, r);
    lemma_bytes_le_transitive(hull_lo(levels, picked), t@.min_key.key.user_key, e.key.key.user_key);
    lemma_bytes_le_transitive(e.key.key.user_key, t@.max_key.key.user_key, hull_hi(levels, picked));
}

impl Levels {
    /// Merges the tables at the places into one table of the level below
    /// `level`.
    fn merge_inputs(&self, level: usize, picked: &Vec<(usize, usize)>, file_num: u64, Ghost(seed): Ghost<usize>) -> (res: (
        Vec<(usize, u64)>,
        Table,
    ))
        requires
            self.wf(),
            inputs_ok(self.tables(), level, seed, picked@),
        ensures
            merged_into(
                self.tables(),
                level,
                seed,
                picked@,
                res.0@,
                res.1,
                file_num,
                self.block_size(),
            ),
    {
        let ghost tables = self.tables();
        let n: usize = picked.len();
        let mut deleted: Vec<(usize, u64)> = Vec::new();
        let mut runs: Vec<Vec<Pair>> = Vec::new();
        let mut k: usize = 0;
        while k < n
            invariant
                k <= n,
                n == picked@.len(),
                self.wf(),
                tables == self.tables(),
                inputs_ok(tables, level, seed, picked@),
                deleted@.len() == k,
                runs@.len() == k,
                forall|j: int| 0 <= j < k ==> #[trigger] deleted@[j] == files_at(tables, picked@)[j],
                forall|j: int|
                    0 <= j < k ==> #[trigger] runs_view(runs@)[j] == contents_at(
                        tables,
                        picked@,
                    )[j],
            decreases n - k,
        {
            let p = picked[k];
            assert(place_ok(tables, level, picked@[k as int]));
            assert(level_wf(tables[p.0 as int], p.0 as int));
            let t = self.table(p.0, p.1);
            let ghost before = runs_view(runs@);
            let run = t.content();
            assert(runs_view(runs@.push(run)) =~= before.push(pairs_view(run@)));
            deleted.push((p.0, t.get_file_num()));
            runs.push(run);
            k = k + 1;
        }
        assert(deleted@ =~= files_at(tables, picked@));
        assert(runs_view(runs@) =~= contents_at(tables, picked@));
        proof {
            let rv = runs_view(runs@);
            assert forall|r: int| 0 <= r < rv.len() implies entries_sorted(#[trigger] rv[r])
                && entries_fine(rv[r]) && rv[r].len() > 0 by {
                let p = picked@[r];
                assert(place_ok(tables, level, p));
                assert(level_wf(tables[p.0 as int], p.0 as int));
                let t = tables[p.0 as int][p.1 as int];
                t.lemma_content();
                assert(rv[r] == t@.content());
            }
            assert(rv[0].len() > 0);
        }
        let ghost rv = runs_view(runs@);
        if n == 1 {
            // a table that nothing overlaps moves down as it is
            let mut only = runs;
            let run = only.remove(0);
            assert(pairs_view(run@) == rv[0]);
            let made = self.write_file(run, level + 1, file_num);
            proof {
                made.lemma_content();
                let c = made@.content();
                lemma_within_hull(tables, level, picked@, rv, c[0]);
                lemma_within_hull(tables, level, picked@, rv, c.last());
            }
            (deleted, made)
        } else {
            let merged = merge_runs(runs);
            let made = self.write_file(merged, level + 1, file_num);
            proof {
                made.lemma_content();
                let c = made@.content();
                assert(rv.flatten().contains(c[0]));
                assert(rv.flatten().contains(c[c.len() - 1]));
                lemma_flatten_contains(rv, c[0]);
                lemma_flatten_contains(rv, c.last());
                lemma_within_hull(tables, level, picked@, rv, c[0]);
                lemma_within_hull(tables, level, picked@, rv, c.last());
            }
            (deleted, made)
        }
    }

    /// Compacts the first level that holds more than it may and has a table
    /// to start from, into the level below it.
    pub fn major_compaction(&self, input_start: &Vec<Option<(LookUpKey, LookUpKey)>>, file_num: u64) -> (done: Compaction)
        requires
            self.wf(),
            input_start@.len() == self.tables().len(),
        ensures
            compacted_into(
                self.tables(),
                starts_view(input_start@),
                self.l0_threshold(),
                self.l1_max_bytes(),
                done.inputs@,
                done.deleted_tables@,
                done.new_tables@,
                file_num,
                self.block_size(),
            ),
            done.removed_log.is_none(),
    {
        let depth: usize = self.depth();
        let ghost tables = self.tables();
        let ghost starts = starts_view(input_start@);
        let mut level: usize = 0;
        if depth < 2 {
            return Compaction {
                deleted_tables: Vec::new(),
                new_tables: Vec::new(),
                removed_log: None,
                inputs: Vec::new(),
            };
        }
        while level < depth - 1
            invariant
                self.wf(),
                depth >= 2,
                level <= depth - 1,
                depth == tables.len(),
                tables == self.tables(),
                starts == starts_view(input_start@),
                input_start@.len() == depth,
                compaction_level(tables, starts, self.l0_threshold(), self.l1_max_bytes(), 0)
                    == compaction_level(
                    tables,
                    starts,
                    self.l0_threshold(),
                    self.l1_max_bytes(),
                    level as int,
                ),
            decreases depth - level,
        {
            assert(starts[level as int] == (match input_start@[level as int] {
                Some(r) => Some((r.0@, r.1@)),
                None => None,
            }));
            if level_compactable(self, level) {
                match find_seed(self, level, &input_start[level]) {
                    Some(seed) => {
                        let picked = choose_inputs(self, level, seed);
                        let (deleted_tables, made) = self.merge_inputs(
                            level,
                            &picked,
                            file_num,
                            Ghost(seed),
                        );
                        let mut new_tables: Vec<Table> = Vec::new();
                        new_tables.push(made);
                        proof {
                            assert(compaction_level(
                                tables,
                                starts,
                                self.l0_threshold(),
                                self.l1_max_bytes(),
                                level as int,
                            ) == level);
                            assert(level_seed(tables[level as int], starts[level as int]) == Some(
                                seed as int,
                            ));
                            assert(new_tables@[0] == made);
                            assert(merged_into(
                                tables,
                                level,
                                seed,
                                picked@,
                                deleted_tables@,
                                new_tables@[0],
                                file_num,
                                self.block_size(),
                            ));
                        }
                        return Compaction {
                            deleted_tables,
                            new_tables,
                            removed_log: None,
                            inputs: picked,
                        };
                    },
                    None => {},
                }
            }
            level = level + 1;
        }
        Compaction {
            deleted_tables: Vec::new(),
            new_tables: Vec::new(),
            removed_log: None,
            inputs: Vec::new(),
        }
    }

    /// One step of the work in the background. With an in-memory table:
    /// writes it out as a table of level 0. Without one: compacts the first
    /// level that holds more than it may and has a table to start from, into
    /// the level below it. `input_start` says for each level where its
    /// compaction starts. The table that is made gets the file number
    /// `file_num`.
    pub fn background_compaction(
        &self,
        im_mem_table: Option<MemTable>,
        input_start: &Vec<Option<(LookUpKey, LookUpKey)>>,
        file_num: u64,
    ) -> (done: Compaction)
        requires
            self.wf(),
            im_mem_table matches Some(m) ==> m.wf(),
            im_mem_table.is_none() ==> input_start@.len() == self.tables().len(),
        ensures
            forall|i: int|
                0 <= i < done.new_tables@.len() ==> (#[trigger] done.new_tables@[i]).wf()
                    && done.new_tables@[i]@.footer.level < self.tables().len(),
            match im_mem_table {
                Some(m) => {
                    &&& done.deleted_tables@.len() == 0
                    &&& done.inputs@.len() == 0
                    &&& done.removed_log == m.log_num()
                    &&& self.tables().len() > 0 ==> flushed_into(
                        m@,
                        done.new_tables@,
                        file_num,
                        self.block_size(),
                    )
                    &&& self.tables().len() == 0 ==> done.new_tables@.len() == 0
                },
                None => {
                    &&& done.removed_log.is_none()
                    &&& compacted_into(
                        self.tables(),
                        starts_view(input_start@),
                        self.l0_threshold(),
                        self.l1_max_bytes(),
                        done.inputs@,
                        done.deleted_tables@,
                        done.new_tables@,
                        file_num,
                        self.block_size(),
                    )
                },
            },
    {
        match im_mem_table {
            Some(m) => {
                let mut new_tables: Vec<Table> = Vec::new();
                if self.depth() == 0 {
                    let log_num = m.get_log_num();
                    return Compaction {
                        deleted_tables: Vec::new(),
                        new_tables,
                        removed_log: log_num,
                        inputs: Vec::new(),
                    };
                }
                let (table, log_num) = self.write_level0_files(m, file_num);
                match table {
                    Some(t) => {
                        new_tables.push(t);
                    },
                    None => {},
                }
                Compaction {
                    deleted_tables: Vec::new(),
                    new_tables,
                    removed_log: log_num,
                    inputs: Vec::new(),
                }
            },
            None => self.major_compaction(input_start, file_num),
        }
    }
}

/// What a compaction of the levels did. Where no level but the last holds
/// more than it may and has a table to start from: nothing. Else, for the
/// first such level: it took in the table to start from and every table of
/// the level and of the level below that overlaps the range of what it took
/// in; `picked` and `deleted` list them, and `made` holds the one table made
/// of them.
pub open spec fn compacted_into(
    levels: Seq<Seq<Table>>,
    starts: Seq<Option<(LookUpKeyView, LookUpKeyView)>>,
    l0_threshold: usize,
    l1_max_bytes: u64,
    picked: Seq<(usize, usize)>,
    deleted: Seq<(usize, u64)>,
    made: Seq<Table>,
    file_num: u64,
    block_size: usize,
) -> bool {
    let level = compaction_level(levels, starts, l0_threshold, l1_max_bytes, 0);
    if level >= levels.len() {
        picked.len() == 0 && deleted.len() == 0 && made.len() == 0
    } else {
        &&& made.len() == 1
        &&& merged_into(
            levels,
            level as usize,
            level_seed(levels[level], starts[level]).unwrap() as usize,
            picked,
            deleted,
            made[0],
            file_num,
            block_size,
        )
    }
}

/// What writing out an in-memory table made: nothing where the table held
/// nothing; else one table of level 0 that holds the table's versions.
pub open spec fn flushed_into(
    m: Map<(Seq<u8>, u64), (u8, Seq<u8>)>,
    made: Seq<Table>,
    file_num: u64,
    block_size: usize,
) -> bool {
    if m == Map::<(Seq<u8>, u64), (u8, Seq<u8>)>::empty() {
        made.len() == 0
    } else {
        &&& made.len() == 1
        &&& made[0].wf()
        &&& made[0].id() == file_num
        &&& made[0]@.footer.level == 0
        &&& entries_of(made[0]@.content(), m)
        &&& made[0]@.footer.last_seq_num == max_seq_num(made[0]@.content())
        &&& blocks_cut_at(made[0]@.blocks, block_size as nat)
        &&& laid_out(made[0]@)
        &&& made[0].image() == table_image(made[0]@)
    }
}

} // verus!
