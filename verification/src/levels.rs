//! The levels: the sorted tables of the store, grouped by depth.
//!
//! Level 0 holds tables written from the in-memory table, newest first; they
//! may hold the same user keys. A deeper level holds tables ordered by their
//! smallest key. A look-up goes through the levels from the top and stops at
//! the first table that holds a version of the key.

use vstd::prelude::*;
use crate::bytes_order::{bytes_before, bytes_lt};
use crate::key::{KeyView, LookUpKey, LookUpKeyView};
use crate::lsm::Config;
use crate::memtable::{entries_of, MemTable};
use crate::merge::Pair;
use crate::table::{all_entries_wf, blocks_cut_at, entries_sorted, entries_typed, laid_out, max_seq_num, pairs_view, Table, TableView};

verus! {

/// Table `a` comes strictly before table `b` in the order of `level`: in
/// level 0 the table with the larger last sequence number, in a deeper level
/// the table with the smaller smallest key.
pub open spec fn table_before(a: TableView, b: TableView, level: int) -> bool {
    if level == 0 {
        a.footer.last_seq_num > b.footer.last_seq_num
    } else {
        a.min_key.key.lt(b.min_key.key)
    }
}

/// Neither table comes before the other in the order of `level`.
pub open spec fn table_same(a: TableView, b: TableView, level: int) -> bool {
    if level == 0 {
        a.footer.last_seq_num == b.footer.last_seq_num
    } else {
        a.min_key.key.same(b.min_key.key)
    }
}

/// The tables are well-formed tables of `level` in the level's strict order.
pub open spec fn level_wf(tables: Seq<Table>, level: int) -> bool {
    &&& forall|i: int|
        0 <= i < tables.len() ==> (#[trigger] tables[i]).wf() && tables[i]@.footer.level == level
    &&& forall|i: int, j: int|
        0 <= i < j < tables.len() ==> table_before(
            (#[trigger] tables[i])@,
            (#[trigger] tables[j])@,
            level,
        )
}

/// The number of tables at the front of `tables` that come strictly before `t`.
pub open spec fn insert_place(tables: Seq<Table>, t: TableView, level: int) -> int
    decreases tables.len(),
{
    if tables.len() == 0 {
        0
    } else if table_before(tables[0]@, t, level) {
        1 + insert_place(tables.drop_first(), t, level)
    } else {
        0
    }
}

/// The level after `t` was put in: `t` stands at its place in the order,
/// unless a table that is the same in the order stands there; then the level
/// is as it was.
pub open spec fn level_insert(tables: Seq<Table>, t: Table, level: int) -> Seq<Table> {
    let p = insert_place(tables, t@, level);
    if p < tables.len() && table_same(tables[p]@, t@, level) {
        tables
    } else {
        tables.insert(p, t)
    }
}

/// The levels after `t` was put into the level that its footer names.
pub open spec fn put_table(levels: Seq<Seq<Table>>, t: Table) -> Seq<Seq<Table>> {
    let l = t@.footer.level as int;
    levels.update(l, level_insert(levels[l], t, l))
}

/// The levels after the tables of `new` were put in, one after the other.
pub open spec fn put_tables(levels: Seq<Seq<Table>>, new: Seq<Table>) -> Seq<Seq<Table>>
    decreases new.len(),
{
    if new.len() == 0 {
        levels
    } else {
        put_table(put_tables(levels, new.drop_last()), new.last())
    }
}

/// The tables of `tables` whose level and file number are not listed in `deleted`.
pub open spec fn drop_tables(tables: Seq<Table>, level: usize, deleted: Seq<(usize, u64)>) -> Seq<Table>
    decreases tables.len(),
{
    if tables.len() == 0 {
        tables
    } else if deleted.contains((level, tables.last().id())) {
        drop_tables(tables.drop_last(), level, deleted)
    } else {
        drop_tables(tables.drop_last(), level, deleted).push(tables.last())
    }
}

/// The levels without the tables listed in `deleted`.
pub open spec fn drop_all(levels: Seq<Seq<Table>>, deleted: Seq<(usize, u64)>) -> Seq<Seq<Table>> {
    Seq::new(levels.len(), |l: int| drop_tables(levels[l], l as usize, deleted))
}

/// The user key lies between the table's smallest and largest user key.
pub open spec fn brackets(t: TableView, user_key: Seq<u8>) -> bool {
    !bytes_lt(user_key, t.min_key.key.user_key) && !bytes_lt(t.max_key.key.user_key, user_key)
}

/// What a look-up finds in level 0: the answer of the first table that
/// brackets the user key and holds a version of it.
pub open spec fn level0_lookup(tables: Seq<Table>, user_key: Seq<u8>, seq_num: u64) -> Option<
    Option<Seq<u8>>,
>
    decreases tables.len(),
{
    if tables.len() == 0 {
        None
    } else if brackets(tables[0]@, user_key) && tables[0]@.lookup(user_key, seq_num).is_some() {
        tables[0]@.lookup(user_key, seq_num)
    } else {
        level0_lookup(tables.drop_first(), user_key, seq_num)
    }
}

/// What a look-up finds in a deeper level: the answer of the first table
/// that brackets the user key.
pub open spec fn deep_lookup(tables: Seq<Table>, user_key: Seq<u8>, seq_num: u64) -> Option<
    Option<Seq<u8>>,
>
    decreases tables.len(),
{
    if tables.len() == 0 {
        None
    } else if brackets(tables[0]@, user_key) {
        tables[0]@.lookup(user_key, seq_num)
    } else {
        deep_lookup(tables.drop_first(), user_key, seq_num)
    }
}

/// What a look-up finds in the levels from `from` on: the answer of the
/// first level that has one.
pub open spec fn levels_lookup(levels: Seq<Seq<Table>>, from: int, user_key: Seq<u8>, seq_num: u64) -> Option<
    Option<Seq<u8>>,
>
    decreases levels.len() - from,
{
    if from < 0 || from >= levels.len() {
        None
    } else {
        let here = if from == 0 {
            level0_lookup(levels[from], user_key, seq_num)
        } else {
            deep_lookup(levels[from], user_key, seq_num)
        };
        if here.is_some() {
            here
        } else {
            levels_lookup(levels, from + 1, user_key, seq_num)
        }
    }
}

/// What the store answers: the value where a put was found, nothing where a
/// delete or no version was found.
pub open spec fn shown(found: Option<Option<Seq<u8>>>) -> Option<Seq<u8>> {
    match found {
        Some(Some(v)) => Some(v),
        _ => None,
    }
}

/// The key range of a table.
pub open spec fn range_of(t: TableView) -> (LookUpKeyView, LookUpKeyView) {
    (t.min_key, t.max_key)
}

/// The number of tables at the front of `tables` whose smallest key sorts
/// strictly before `key`.
pub open spec fn first_from(tables: Seq<Table>, key: KeyView) -> int
    decreases tables.len(),
{
    if tables.len() == 0 {
        0
    } else if tables[0]@.min_key.key.lt(key) {
        1 + first_from(tables.drop_first(), key)
    } else {
        0
    }
}

/// Where the next compaction of a level starts. In level 0: the last table.
/// In a deeper level: the first table whose smallest key does not sort
/// before the largest key of the table that the last compaction started
/// from; the first table where there is none, or where no compaction went
/// before. `None` where the level is empty.
pub open spec fn pick_start(
    tables: Seq<Table>,
    level: int,
    last: Option<(LookUpKeyView, LookUpKeyView)>,
) -> Option<(LookUpKeyView, LookUpKeyView)> {
    if tables.len() == 0 {
        None
    } else if level == 0 {
        Some(range_of(tables.last()@))
    } else {
        match last {
            Some(l) => {
                let i = first_from(tables, l.1.key);
                if i < tables.len() {
                    Some(range_of(tables[i]@))
                } else {
                    Some(range_of(tables[0]@))
                }
            },
            None => Some(range_of(tables[0]@)),
        }
    }
}

/// The views of a list of key ranges.
pub open spec fn starts_view(starts: Seq<Option<(LookUpKey, LookUpKey)>>) -> Seq<
    Option<(LookUpKeyView, LookUpKeyView)>,
> {
    starts.map_values(
        |s: Option<(LookUpKey, LookUpKey)>|
            match s {
                Some(r) => Some((r.0@, r.1@)),
                None => None,
            },
    )
}

/// Whether `a` comes strictly before `b` in the order of `level`.
pub fn sorts_before(a: &Table, b: &Table, level: usize) -> (r: bool)
    requires
        a.wf(),
        b.wf(),
    ensures
        r == table_before(a@, b@, level as int),
{
    if level == 0 {
        a.get_last_seq_num() > b.get_last_seq_num()
    } else {
        a.get_min_key().sorts_before(b.get_min_key())
    }
}

/// Whether neither of `a` and `b` comes before the other in the order of `level`.
pub fn sorts_same(a: &Table, b: &Table, level: usize) -> (r: bool)
    requires
        a.wf(),
        b.wf(),
    ensures
        r == table_same(a@, b@, level as int),
{
    if level == 0 {
        a.get_last_seq_num() == b.get_last_seq_num()
    } else {
        a.get_min_key().same_as(b.get_min_key())
    }
}

/// Whether the user key lies between the table's smallest and largest user key.
pub fn table_brackets(t: &Table, key: &[u8]) -> (r: bool)
    requires
        t.wf(),
    ensures
        r == brackets(t@, key@),
{
    !bytes_before(key, t.get_min_key().get_user_key()) && !bytes_before(
        t.get_max_key().get_user_key(),
        key,
    )
}

/// `at` is the number of tables at the front that come strictly before `t`.
pub proof fn lemma_insert_place(tables: Seq<Table>, t: TableView, level: int, at: int)
    requires
        0 <= at <= tables.len(),
        forall|k: int| 0 <= k < at ==> table_before((#[trigger] tables[k])@, t, level),
        at < tables.len() ==> !table_before(tables[at]@, t, level),
    ensures
        insert_place(tables, t, level) == at,
    decreases tables.len(),
{
    if tables.len() > 0 && at > 0 {
        let rest = tables.drop_first();
        assert(table_before(tables[0]@, t, level));
        assert forall|k: int| 0 <= k < at - 1 implies table_before((#[trigger] rest[k])@, t, level) by {
            assert(rest[k] == tables[k + 1]);
        }
        lemma_insert_place(rest, t, level, at - 1);
    }
}

/// `at` is the number of tables at the front whose smallest key sorts
/// strictly before `key`.
pub proof fn lemma_first_from(tables: Seq<Table>, key: KeyView, at: int)
    requires
        0 <= at <= tables.len(),
        forall|k: int| 0 <= k < at ==> (#[trigger] tables[k])@.min_key.key.lt(key),
        at < tables.len() ==> !tables[at]@.min_key.key.lt(key),
    ensures
        first_from(tables, key) == at,
    decreases tables.len(),
{
    if tables.len() > 0 && at > 0 {
        let rest = tables.drop_first();
        assert(tables[0]@.min_key.key.lt(key));
        assert forall|k: int| 0 <= k < at - 1 implies (#[trigger] rest[k])@.min_key.key.lt(key) by {
            assert(rest[k] == tables[k + 1]);
        }
        lemma_first_from(rest, key, at - 1);
    }
}

/// Putting a well-formed table of the level into a well-formed level leaves
/// the level well-formed.
pub proof fn lemma_level_insert_wf(tables: Seq<Table>, t: Table, level: int)
    requires
        level_wf(tables, level),
        t.wf(),
        t@.footer.level == level,
    ensures
        level_wf(level_insert(tables, t, level), level),
{
    let p = insert_place(tables, t@, level);
    lemma_insert_place_props(tables, t@, level);
    if !(p < tables.len() && table_same(tables[p]@, t@, level)) {
        let out = tables.insert(p, t);
        assert forall|i: int, j: int| 0 <= i < j < out.len() implies table_before(
            (#[trigger] out[i])@,
            (#[trigger] out[j])@,
            level,
        ) by {
            if j == p {
                assert(out[i] == tables[i]);
            } else if i == p {
                assert(out[j] == tables[j - 1]);
                assert(!table_before(tables[p]@, t@, level));
                if level != 0 {
                    t@.min_key.key.lemma_total(tables[p]@.min_key.key);
                    if j - 1 > p {
                        t@.min_key.key.lemma_lt_transitive(
                            tables[p]@.min_key.key,
                            tables[j - 1]@.min_key.key,
                        );
                    }
                }
            } else {
                let a = if i < p {
                    i
                } else {
                    i - 1
                };
                let b = if j < p {
                    j
                } else {
                    j - 1
                };
                assert(out[i] == tables[a]);
                assert(out[j] == tables[b]);
            }
        }
    }
}

/// The place where a table goes lies within the level, and the tables
/// before it come strictly before the table, and the table at it does not.
pub proof fn lemma_insert_place_props(tables: Seq<Table>, t: TableView, level: int)
    ensures
        0 <= insert_place(tables, t, level) <= tables.len(),
        forall|k: int|
            0 <= k < insert_place(tables, t, level) ==> table_before(
                (#[trigger] tables[k])@,
                t,
                level,
            ),
        insert_place(tables, t, level) < tables.len() ==> !table_before(
            tables[insert_place(tables, t, level)]@,
            t,
            level,
        ),
    decreases tables.len(),
{
    if tables.len() > 0 && table_before(tables[0]@, t, level) {
        let rest = tables.drop_first();
        lemma_insert_place_props(rest, t, level);
        let p = insert_place(rest, t, level);
        assert forall|k: int| 0 <= k < p + 1 implies table_before(
            (#[trigger] tables[k])@,
            t,
            level,
        ) by {
            if k > 0 {
                assert(tables[k] == rest[k - 1]);
            }
        }
        if p < rest.len() {
            assert(rest[p] == tables[p + 1]);
        }
    }
}

/// Puts `t` into the level at its place in the order, unless a table that is
/// the same in the order stands there.
pub fn insert_table(tables: &mut Vec<Table>, t: Table, level: usize)
    requires
        level_wf(old(tables)@, level as int),
        t.wf(),
        t@.footer.level == level,
    ensures
        final(tables)@ == level_insert(old(tables)@, t, level as int),
        level_wf(final(tables)@, level as int),
{
    let n: usize = tables.len();
    let mut p: usize = 0;
    while p < n && sorts_before(&tables[p], &t, level)
        invariant
            p <= n,
            n == tables@.len(),
            tables@ == old(tables)@,
            t.wf(),
            level_wf(tables@, level as int),
            forall|k: int| 0 <= k < p ==> table_before((#[trigger] tables@[k])@, t@, level as int),
        decreases n - p,
    {
        p = p + 1;
    }
    proof {
        lemma_insert_place(tables@, t@, level as int, p as int);
        lemma_level_insert_wf(tables@, t, level as int);
    }
    if p < n && sorts_same(&tables[p], &t, level) {
        return ;
    }
    tables.insert(p, t);
}

/// The same items in the opposite order.
pub fn reversed<T>(v: Vec<T>) -> (r: Vec<T>)
    ensures
        r@.len() == v@.len(),
        forall|i: int| 0 <= i < v@.len() ==> r@[i] == v@[v@.len() - 1 - i],
{
    let mut v = v;
    let ghost orig = v@;
    let mut r: Vec<T> = Vec::new();
    while v.len() > 0
        invariant
            v@.len() + r@.len() == orig.len(),
            forall|i: int| 0 <= i < v@.len() ==> v@[i] == orig[i],
            forall|i: int| 0 <= i < r@.len() ==> r@[i] == orig[orig.len() - 1 - i],
        decreases v@.len(),
    {
        let x = v.pop();
        match x {
            Some(item) => {
                r.push(item);
            },
            None => {},
        }
    }
    r
}

/// Whether the table of `level` with the file number `file_num` is listed.
pub fn listed(deleted: &Vec<(usize, u64)>, level: usize, file_num: u64) -> (r: bool)
    ensures
        r == deleted@.contains((level, file_num)),
{
    let mut i: usize = 0;
    while i < deleted.len()
        invariant
            i <= deleted@.len(),
            forall|k: int| 0 <= k < i ==> deleted@[k] != (level, file_num),
        decreases deleted@.len() - i,
    {
        if deleted[i].0 == level && deleted[i].1 == file_num {
            return true;
        }
        i = i + 1;
    }
    false
}

/// What is left of a well-formed level when tables are dropped is a
/// well-formed level, and each table left is a table of the level.
pub proof fn lemma_drop_tables_wf(tables: Seq<Table>, level: usize, deleted: Seq<(usize, u64)>)
    requires
        level_wf(tables, level as int),
    ensures
        level_wf(drop_tables(tables, level, deleted), level as int),
        forall|i: int|
            0 <= i < drop_tables(tables, level, deleted).len() ==> tables.contains(
                #[trigger] drop_tables(tables, level, deleted)[i],
            ),
        drop_tables(tables, level, deleted).len() > 0 ==> tables.len() > 0 && table_before_or_is(
            drop_tables(tables, level, deleted).last(),
            tables.last(),
            level as int,
        ),
    decreases tables.len(),
{
    if tables.len() > 0 {
        let front = tables.drop_last();
        let d = drop_tables(front, level, deleted);
        let out = drop_tables(tables, level, deleted);
        assert forall|i: int| 0 <= i < front.len() implies (#[trigger] front[i]).wf()
            && front[i]@.footer.level == level by {
            assert(front[i] == tables[i]);
        }
        assert forall|i: int, j: int| 0 <= i < j < front.len() implies table_before(
            (#[trigger] front[i])@,
            (#[trigger] front[j])@,
            level as int,
        ) by {
            assert(front[i] == tables[i] && front[j] == tables[j]);
        }
        lemma_drop_tables_wf(front, level, deleted);
        assert forall|i: int| 0 <= i < out.len() implies tables.contains(#[trigger] out[i]) by {
            if i < d.len() {
                assert(front.contains(d[i]));
                let w = choose|w: int| 0 <= w < front.len() && front[w] == d[i];
                assert(tables[w] == d[i]);
            } else {
                assert(tables[tables.len() - 1] == out[i]);
            }
        }
        if d.len() > 0 {
            lemma_before_or_is_then_before(d.last(), front.last(), tables.last(), level as int);
        }
        if !deleted.contains((level, tables.last().id())) {
            assert forall|i: int, j: int| 0 <= i < j < out.len() implies table_before(
                (#[trigger] out[i])@,
                (#[trigger] out[j])@,
                level as int,
            ) by {
                if j == d.len() {
                    assert(out[i] == d[i]);
                    assert(front.contains(d[i]));
                    let w = choose|w: int| 0 <= w < front.len() && front[w] == d[i];
                    assert(tables[w] == d[i]);
                    assert(table_before(tables[w]@, tables[tables.len() - 1]@, level as int));
                }
            }
        } else if d.len() > 0 {
            assert(front.last() == tables[tables.len() - 2]);
        }
    }
}

/// Table `a` is table `b` or comes strictly before it.
pub open spec fn table_before_or_is(a: Table, b: Table, level: int) -> bool {
    a == b || table_before(a@, b@, level)
}

/// A table that is another or comes before it comes before all that the
/// other comes before.
proof fn lemma_before_or_is_then_before(a: Table, b: Table, c: Table, level: int)
    requires
        table_before_or_is(a, b, level),
        table_before(b@, c@, level),
    ensures
        table_before(a@, c@, level),
{
    if a != b && level != 0 {
        a@.min_key.key.lemma_lt_transitive(b@.min_key.key, c@.min_key.key);
    }
}

/// Drops the listed tables from a level.
pub fn drop_from_level(tables: &mut Vec<Table>, level: usize, deleted: &Vec<(usize, u64)>)
    requires
        level_wf(old(tables)@, level as int),
    ensures
        final(tables)@ == drop_tables(old(tables)@, level, deleted@),
        level_wf(final(tables)@, level as int),
{
    let ghost orig = tables@;
    let mut taken: Vec<Table> = Vec::new();
    std::mem::swap(tables, &mut taken);
    let mut rest = reversed(taken);
    let n: usize = rest.len();
    let mut k: usize = 0;
    assert(orig.take(0) =~= Seq::<Table>::empty());
    while k < n
        invariant
            k <= n,
            n == orig.len(),
            rest@.len() == n - k,
            forall|i: int| 0 <= i < rest@.len() ==> rest@[i] == orig[n - 1 - i],
            tables@ == drop_tables(orig.take(k as int), level, deleted@),
        decreases n - k,
    {
        let popped = rest.pop();
        proof {
            assert(orig.take(k as int + 1).drop_last() =~= orig.take(k as int));
            assert(orig.take(k as int + 1).last() == orig[k as int]);
        }
        match popped {
            Some(t) => {
                assert(t == orig[k as int]);
                if !listed(deleted, level, t.get_file_num()) {
                    tables.push(t);
                }
            },
            None => {},
        }
        k = k + 1;
    }
    proof {
        assert(orig.take(n as int) =~= orig);
        lemma_drop_tables_wf(orig, level, deleted@);
    }
}

/// The sorted tables of the store, level by level, with the sizes that shape
/// them and the number of the next table file.
pub struct Levels {
    inner: Vec<Vec<Table>>,
    next_file_num: u64,
    block_size: usize,
    l0_compaction_threshold: usize,
    l1_max_bytes: u64,
}

/// The tables of a list of levels.
pub open spec fn levels_view(inner: Seq<Vec<Table>>) -> Seq<Seq<Table>> {
    inner.map_values(|v: Vec<Table>| v@)
}

/// Every level is well-formed.
pub open spec fn levels_wf(levels: Seq<Seq<Table>>) -> bool {
    forall|l: int| 0 <= l < levels.len() ==> level_wf(#[trigger] levels[l], l)
}

impl Levels {
    /// The tables, level by level.
    pub closed spec fn tables(&self) -> Seq<Seq<Table>> {
        levels_view(self.inner@)
    }

    /// The number that the next table file gets.
    pub closed spec fn next_file(&self) -> u64 {
        self.next_file_num
    }

    /// The length after which a data block is closed.
    pub closed spec fn block_size(&self) -> usize {
        self.block_size
    }

    /// The number of tables that level 0 may hold without compaction.
    pub closed spec fn l0_threshold(&self) -> usize {
        self.l0_compaction_threshold
    }

    /// The number of bytes that level 1 may hold without compaction.
    pub closed spec fn l1_max_bytes(&self) -> u64 {
        self.l1_max_bytes
    }

    /// Every level holds well-formed tables of its depth in its order.
    pub open spec fn wf(&self) -> bool {
        levels_wf(self.tables())
    }

    /// The length after which a data block is closed.
    pub fn get_block_size(&self) -> (n: usize)
        ensures
            n == self.block_size(),
    {
        self.block_size
    }

    /// The number of tables that level 0 may hold without compaction.
    pub fn get_l0_threshold(&self) -> (n: usize)
        ensures
            n == self.l0_threshold(),
    {
        self.l0_compaction_threshold
    }

    /// The number of bytes that level 1 may hold without compaction.
    pub fn get_l1_max_bytes(&self) -> (n: u64)
        ensures
            n == self.l1_max_bytes(),
    {
        self.l1_max_bytes
    }

    /// There are no more levels, and no level holds more tables, than can
    /// be counted.
    pub proof fn lemma_sized(&self)
        ensures
            self.tables().len() <= usize::MAX,
            forall|l: int| 0 <= l < self.tables().len() ==> (#[trigger] self.tables()[l]).len()
                <= usize::MAX,
    {
        assert(self.inner@.len() == self.inner.len());
        assert forall|l: int| 0 <= l < self.tables().len() implies (#[trigger] self.tables()[l]).len()
            <= usize::MAX by {
            assert(self.tables()[l] == self.inner@[l]@);
            assert(self.inner@[l]@.len() == self.inner@[l].len());
        }
    }

    /// The number of levels.
    pub fn depth(&self) -> (n: usize)
        ensures
            n == self.tables().len(),
    {
        self.inner.len()
    }

    /// The number of tables in `level`.
    pub fn count(&self, level: usize) -> (n: usize)
        requires
            level < self.tables().len(),
        ensures
            n == self.tables()[level as int].len(),
    {
        assert(self.tables()[level as int] == self.inner@[level as int]@);
        self.inner[level].len()
    }

    /// Table `i` of `level`.
    pub fn table(&self, level: usize, i: usize) -> (t: &Table)
        requires
            level < self.tables().len(),
            i < self.tables()[level as int].len(),
        ensures
            *t == self.tables()[level as int][i as int],
    {
        assert(self.tables()[level as int] == self.inner@[level as int]@);
        &self.inner[level][i]
    }

    /// Hands out the number for the next table file and moves on to the
    /// number behind it, or to 0 where there is none.
    pub fn take_file_num(&mut self) -> (file_num: u64)
        ensures
            file_num == old(self).next_file(),
            final(self).next_file() == (if old(self).next_file() == u64::MAX {
                0
            } else {
                (old(self).next_file() + 1) as u64
            }),
            final(self).tables() == old(self).tables(),
            final(self).block_size() == old(self).block_size(),
            final(self).l0_threshold() == old(self).l0_threshold(),
            final(self).l1_max_bytes() == old(self).l1_max_bytes(),
    {
        let n: u64 = self.next_file_num;
        self.next_file_num = if n == u64::MAX {
            0
        } else {
            n + 1
        };
        n
    }
}

/// The largest file number among the tables, 0 where there is none.
pub open spec fn max_file_num(tables: Seq<Table>) -> u64
    decreases tables.len(),
{
    if tables.len() == 0 {
        0
    } else {
        let rest = max_file_num(tables.drop_last());
        if tables.last().id() > rest {
            tables.last().id()
        } else {
            rest
        }
    }
}

/// `n` empty levels.
pub open spec fn empty_levels(n: nat) -> Seq<Seq<Table>> {
    Seq::new(n, |l: int| Seq::<Table>::empty())
}

/// Putting a table into well-formed levels leaves them well-formed.
pub proof fn lemma_put_table_wf(levels: Seq<Seq<Table>>, t: Table)
    requires
        levels_wf(levels),
        t.wf(),
        t@.footer.level < levels.len(),
    ensures
        levels_wf(put_table(levels, t)),
        put_table(levels, t).len() == levels.len(),
{
    let l = t@.footer.level as int;
    assert(level_wf(levels[l], l));
    lemma_level_insert_wf(levels[l], t, l);
    let out = put_table(levels, t);
    assert forall|k: int| 0 <= k < out.len() implies level_wf(#[trigger] out[k], k) by {
        if k != l {
            assert(out[k] == levels[k]);
        }
    }
}

/// Puts a table into the level that its footer names.
pub fn put_into(inner: &mut Vec<Vec<Table>>, t: Table)
    requires
        levels_wf(levels_view(old(inner)@)),
        t.wf(),
        t@.footer.level < old(inner)@.len(),
    ensures
        levels_view(final(inner)@) == put_table(levels_view(old(inner)@), t),
        levels_wf(levels_view(final(inner)@)),
        final(inner)@.len() == old(inner)@.len(),
{
    let l: usize = t.get_level();
    let ghost before = levels_view(inner@);
    let mut level = inner.remove(l);
    proof {
        assert(level@ == before[l as int]);
        assert(level_wf(before[l as int], l as int));
        lemma_put_table_wf(before, t);
    }
    insert_table(&mut level, t, l);
    inner.insert(l, level);
    assert(levels_view(inner@) =~= put_table(before, t));
}

impl Levels {
    /// The levels that hold the given tables, each in the level that its
    /// footer names. The next table file gets the number behind the largest
    /// among the tables' file numbers.
    pub fn new(tables: Vec<Table>, config: &Config) -> (levels: Levels)
        requires
            forall|i: int|
                0 <= i < tables@.len() ==> (#[trigger] tables@[i]).wf() && tables@[i]@.footer.level
                    < config.max_levels && tables@[i].id() < u64::MAX,
        ensures
            levels.wf(),
            levels.tables() == put_tables(empty_levels(config.max_levels as nat), tables@),
            levels.tables().len() == config.max_levels,
            levels.next_file() == max_file_num(tables@) + 1,
            levels.block_size() == config.block_size,
            levels.l0_threshold() == config.l0_compaction_threshold,
            levels.l1_max_bytes() == config.l1_max_bytes,
    {
        let mut inner: Vec<Vec<Table>> = Vec::new();
        let mut l: usize = 0;
        while l < config.max_levels
            invariant
                l <= config.max_levels,
                inner@.len() == l,
                forall|k: int| 0 <= k < l ==> (#[trigger] inner@[k])@ == Seq::<Table>::empty(),
            decreases config.max_levels - l,
        {
            inner.push(Vec::new());
            l = l + 1;
        }
        assert(levels_view(inner@) =~= empty_levels(config.max_levels as nat));
        let ghost all = tables@;
        let n: usize = tables.len();
        let mut rest = reversed(tables);
        let mut max_num: u64 = 0;
        let mut k: usize = 0;
        assert(all.take(0) =~= Seq::<Table>::empty());
        while k < n
            invariant
                k <= n,
                n == all.len(),
                rest@.len() == n - k,
                forall|i: int| 0 <= i < rest@.len() ==> rest@[i] == all[n - 1 - i],
                forall|i: int|
                    0 <= i < all.len() ==> (#[trigger] all[i]).wf() && all[i]@.footer.level
                        < config.max_levels && all[i].id() < u64::MAX,
                inner@.len() == config.max_levels,
                levels_wf(levels_view(inner@)),
                levels_view(inner@) == put_tables(
                    empty_levels(config.max_levels as nat),
                    all.take(k as int),
                ),
                max_num == max_file_num(all.take(k as int)),
                max_num < u64::MAX,
            decreases n - k,
        {
            let popped = rest.pop();
            proof {
                assert(all.take(k as int + 1).drop_last() =~= all.take(k as int));
                assert(all.take(k as int + 1).last() == all[k as int]);
            }
            match popped {
                Some(t) => {
                    assert(t == all[k as int]);
                    if t.get_file_num() > max_num {
                        max_num = t.get_file_num();
                    }
                    put_into(&mut inner, t);
                },
                None => {},
            }
            k = k + 1;
        }
        assert(all.take(n as int) =~= all);
        Levels {
            inner,
            next_file_num: max_num + 1,
            block_size: config.block_size,
            l0_compaction_threshold: config.l0_compaction_threshold,
            l1_max_bytes: config.l1_max_bytes,
        }
    }

    /// Looks `key` up as of `seq_num` in the levels from the top: the value
    /// of the put that the first table with a version of the key holds;
    /// `None` where that version is a delete or no table holds a version.
    pub fn search(&self, key: &[u8], seq_num: u64) -> (res: Option<Vec<u8>>)
        requires
            self.wf(),
        ensures
            match shown(levels_lookup(self.tables(), 0, key@, seq_num)) {
                Some(v) => res.is_some() && res.unwrap()@ == v,
                None => res.is_none(),
            },
    {
        let depth: usize = self.inner.len();
        let ghost levels = self.tables();
        let mut level: usize = 0;
        while level < depth
            invariant
                level <= depth,
                depth == levels.len(),
                levels == self.tables(),
                self.wf(),
                levels_lookup(levels, 0, key@, seq_num) == levels_lookup(
                    levels,
                    level as int,
                    key@,
                    seq_num,
                ),
            decreases depth - level,
        {
            let tables = &self.inner[level];
            assert(tables@ == levels[level as int]);
            assert(level_wf(levels[level as int], level as int));
            let n: usize = tables.len();
            let mut i: usize = 0;
            let mut found: Option<Option<Vec<u8>>> = None;
            assert(tables@.skip(0) =~= tables@);
            while i < n && found.is_none()
                invariant
                    i <= n,
                    n == tables@.len(),
                    level_wf(tables@, level as int),
                    found.is_none() ==> (if level == 0 {
                        level0_lookup(tables@, key@, seq_num) == level0_lookup(
                            tables@.skip(i as int),
                            key@,
                            seq_num,
                        )
                    } else {
                        deep_lookup(tables@, key@, seq_num) == deep_lookup(
                            tables@.skip(i as int),
                            key@,
                            seq_num,
                        )
                    }),
                    found.is_some() ==> answers(
                        found,
                        if level == 0 {
                            level0_lookup(tables@, key@, seq_num)
                        } else {
                            deep_lookup(tables@, key@, seq_num)
                        },
                    ),
                decreases n - i + (if found.is_none() { 1int } else { 0int }),
            {
                let table = &tables[i];
                proof {
                    assert(tables@.skip(i as int)[0] == tables@[i as int]);
                    assert(tables@.skip(i as int).drop_first() =~= tables@.skip(i as int + 1));
                }
                if table_brackets(table, key) {
                    let res = table.search(key, seq_num);
                    if level == 0 {
                        if res.is_some() {
                            found = res;
                        } else {
                            i = i + 1;
                        }
                    } else {
                        if res.is_some() {
                            found = res;
                        } else {
                            // the one table that brackets the key holds no version
                            proof {
                                assert(deep_lookup(tables@, key@, seq_num).is_none());
                            }
                            i = n;
                            assert(tables@.skip(n as int) =~= Seq::<Table>::empty());
                        }
                    }
                } else {
                    i = i + 1;
                }
            }
            match found {
                Some(answer) => {
                    return answer;
                },
                None => {
                    proof {
                        if i == n {
                            assert(tables@.skip(n as int) =~= Seq::<Table>::empty());
                        }
                    }
                },
            }
            level = level + 1;
        }
        None
    }

    /// Where the next compaction of each level starts, given where the last
    /// one started; an empty `last_input_start` stands for no compaction
    /// before.
    pub fn get_input_start(&self, last_input_start: &Vec<Option<(LookUpKey, LookUpKey)>>) -> (starts: Vec<
        Option<(LookUpKey, LookUpKey)>,
    >)
        requires
            self.wf(),
            last_input_start@.len() == 0 || last_input_start@.len() == self.tables().len(),
        ensures
            starts@.len() == self.tables().len(),
            forall|l: int|
                0 <= l < self.tables().len() ==> (#[trigger] starts_view(starts@)[l]) == pick_start(
                    self.tables()[l],
                    l,
                    if last_input_start@.len() == 0 {
                        None
                    } else {
                        starts_view(last_input_start@)[l]
                    },
                ),
    {
        let depth: usize = self.inner.len();
        let ghost levels = self.tables();
        let mut starts: Vec<Option<(LookUpKey, LookUpKey)>> = Vec::new();
        let mut level: usize = 0;
        while level < depth
            invariant
                level <= depth,
                depth == levels.len(),
                levels == self.tables(),
                self.wf(),
                last_input_start@.len() == 0 || last_input_start@.len() == depth,
                starts@.len() == level,
                forall|l: int|
                    0 <= l < level ==> (#[trigger] starts_view(starts@)[l]) == pick_start(
                        levels[l],
                        l,
                        if last_input_start@.len() == 0 {
                            None
                        } else {
                            starts_view(last_input_start@)[l]
                        },
                    ),
            decreases depth - level,
        {
            let tables = &self.inner[level];
            assert(tables@ == levels[level as int]);
            assert(level_wf(levels[level as int], level as int));
            let n: usize = tables.len();
            let mut pick: usize = 0;
            if n > 0 && level == 0 {
                pick = n - 1;
            } else if n > 0 && last_input_start.len() > 0 {
                assert(starts_view(last_input_start@)[level as int] == (match last_input_start@[level as int] {
                    Some(r) => Some((r.0@, r.1@)),
                    None => None,
                }));
                match &last_input_start[level] {
                    Some(last) => {
                        let mut i: usize = 0;
                        while i < n && tables[i].get_min_key().sorts_before(&last.1)
                            invariant
                                i <= n,
                                n == tables@.len(),
                                level_wf(tables@, level as int),
                                forall|k: int|
                                    0 <= k < i ==> (#[trigger] tables@[k])@.min_key.key.lt(
                                        last.1@.key,
                                    ),
                            decreases n - i,
                        {
                            i = i + 1;
                        }
                        proof {
                            lemma_first_from(tables@, last.1@.key, i as int);
                        }
                        if i < n {
                            pick = i;
                        }
                    },
                    None => {},
                }
            }
            let ghost before = starts_view(starts@);
            let start = if n > 0 {
                Some((tables[pick].get_min_key().duplicate(), tables[pick].get_max_key().duplicate()))
            } else {
                None
            };
            proof {
                let added = starts@.push(start);
                assert(starts_view(added) =~= before.push(starts_view(added)[level as int]));
            }
            starts.push(start);
            level = level + 1;
        }
        starts
    }

    /// Takes the listed tables out of the levels, then puts the new tables in.
    pub fn update(&mut self, deleted_tables: &Vec<(usize, u64)>, new_tables: Vec<Table>)
        requires
            old(self).wf(),
            forall|i: int|
                0 <= i < new_tables@.len() ==> (#[trigger] new_tables@[i]).wf()
                    && new_tables@[i]@.footer.level < old(self).tables().len(),
        ensures
            final(self).wf(),
            final(self).tables() == put_tables(
                drop_all(old(self).tables(), deleted_tables@),
                new_tables@,
            ),
            final(self).tables().len() == old(self).tables().len(),
            final(self).next_file() == old(self).next_file(),
            final(self).block_size() == old(self).block_size(),
            final(self).l0_threshold() == old(self).l0_threshold(),
            final(self).l1_max_bytes() == old(self).l1_max_bytes(),
    {
        let depth: usize = self.inner.len();
        let ghost orig = self.tables();
        let mut l: usize = 0;
        while l < depth
            invariant
                l <= depth,
                depth == orig.len(),
                self.inner@.len() == depth,
                levels_wf(orig),
                levels_wf(self.tables()),
                forall|k: int|
                    0 <= k < depth ==> (#[trigger] self.tables()[k]) == (if k < l {
                        drop_tables(orig[k], k as usize, deleted_tables@)
                    } else {
                        orig[k]
                    }),
                self.next_file() == old(self).next_file(),
                self.block_size() == old(self).block_size(),
                self.l0_threshold() == old(self).l0_threshold(),
                self.l1_max_bytes() == old(self).l1_max_bytes(),
            decreases depth - l,
        {
            let ghost before = self.tables();
            let mut level = self.inner.remove(l);
            proof {
                assert(level@ == before[l as int]);
                assert(level_wf(orig[l as int], l as int));
            }
            drop_from_level(&mut level, l, deleted_tables);
            self.inner.insert(l, level);
            proof {
                let after = self.tables();
                assert forall|k: int| 0 <= k < depth implies (#[trigger] after[k]) == (if k < l + 1 {
                    drop_tables(orig[k], k as usize, deleted_tables@)
                } else {
                    orig[k]
                }) by {
                    if k != l {
                        assert(after[k] == before[k]);
                    }
                }
                assert forall|k: int| 0 <= k < after.len() implies level_wf(#[trigger] after[k], k) by {
                    if k != l {
                        assert(after[k] == before[k]);
                        assert(level_wf(before[k], k));
                    }
                }
            }
            l = l + 1;
        }
        assert(self.tables() =~= drop_all(orig, deleted_tables@));
        let ghost all = new_tables@;
        let ghost base = self.tables();
        let n: usize = new_tables.len();
        let mut rest = reversed(new_tables);
        let mut k: usize = 0;
        assert(all.take(0) =~= Seq::<Table>::empty());
        while k < n
            invariant
                k <= n,
                n == all.len(),
                rest@.len() == n - k,
                forall|i: int| 0 <= i < rest@.len() ==> rest@[i] == all[n - 1 - i],
                forall|i: int|
                    0 <= i < all.len() ==> (#[trigger] all[i]).wf() && all[i]@.footer.level < depth,
                self.inner@.len() == depth,
                levels_wf(self.tables()),
                self.tables() == put_tables(base, all.take(k as int)),
                self.next_file() == old(self).next_file(),
                self.block_size() == old(self).block_size(),
                self.l0_threshold() == old(self).l0_threshold(),
                self.l1_max_bytes() == old(self).l1_max_bytes(),
            decreases n - k,
        {
            let popped = rest.pop();
            proof {
                assert(all.take(k as int + 1).drop_last() =~= all.take(k as int));
                assert(all.take(k as int + 1).last() == all[k as int]);
            }
            match popped {
                Some(t) => {
                    assert(t == all[k as int]);
                    put_into(&mut self.inner, t);
                },
                None => {},
            }
            k = k + 1;
        }
        assert(all.take(n as int) =~= all);
    }

    /// Builds the table with the file number `file_num` that holds `entries`
    /// at `level`.
    pub fn write_file(&self, entries: Vec<Pair>, level: usize, file_num: u64) -> (table: Table)
        requires
            entries@.len() > 0,
            all_entries_wf(pairs_view(entries@)),
            entries_sorted(pairs_view(entries@)),
            entries_typed(pairs_view(entries@)),
        ensures
            table.wf(),
            table.id() == file_num,
            table@.content() == pairs_view(entries@),
            table@.footer.level == level,
            table@.footer.last_seq_num == max_seq_num(pairs_view(entries@)),
            blocks_cut_at(table@.blocks, self.block_size() as nat),
            laid_out(table@),
            table.image() == crate::table::table_image(table@),
    {
        Table::new(file_num, entries, level, self.block_size)
    }

    /// Writes an in-memory table out as a table of level 0 with the file
    /// number `file_num`. Returns the table, or `None` where the in-memory
    /// table holds nothing, and the number of the log that is no longer
    /// needed, if the in-memory table had one.
    pub fn write_level0_files(&self, im_mem_table: MemTable, file_num: u64) -> (res: (
        Option<Table>,
        Option<u64>,
    ))
        requires
            im_mem_table.wf(),
        ensures
            res.1 == im_mem_table.log_num(),
            match res.0 {
                Some(table) => {
                    &&& table.wf()
                    &&& table.id() == file_num
                    &&& table@.footer.level == 0
                    &&& entries_of(table@.content(), im_mem_table@)
                    &&& table@.footer.last_seq_num == max_seq_num(table@.content())
                    &&& blocks_cut_at(table@.blocks, self.block_size() as nat)
                    &&& laid_out(table@)
                    &&& table.image() == crate::table::table_image(table@)
                },
                None => true,
            },
            res.0.is_none() <==> im_mem_table@ == Map::<(Seq<u8>, u64), (u8, Seq<u8>)>::empty(),
    {
        let mut mem = im_mem_table;
        let entries = mem.take();
        let log_num = mem.get_log_num();
        if entries.len() == 0 {
            proof {
                assert forall|k: (Seq<u8>, u64)| !im_mem_table@.contains_key(k) by {
                    if im_mem_table@.contains_key(k) {
                        let i = choose|i: int|
                            0 <= i < pairs_view(entries@).len() && #[trigger] pairs_view(entries@)[i]
                                == crate::memtable::entry_of(k.0, k.1, im_mem_table@[k]);
                    }
                }
                assert(im_mem_table@ =~= Map::<(Seq<u8>, u64), (u8, Seq<u8>)>::empty());
            }
            (None, log_num)
        } else {
            proof {
                let e = pairs_view(entries@)[0];
                assert(im_mem_table@.contains_key((e.key.key.user_key, e.key.key.seq_num() as u64)));
            }
            (Some(self.write_file(entries, 0, file_num)), log_num)
        }
    }
}

/// `found` is the answer `want`.
pub open spec fn answers(found: Option<Option<Vec<u8>>>, want: Option<Option<Seq<u8>>>) -> bool {
    match want {
        Some(Some(v)) => found.is_some() && found.unwrap().is_some() && found.unwrap().unwrap()@ == v,
        Some(None) => found == Some(None::<Vec<u8>>),
        None => found.is_none(),
    }
}

} // verus!
