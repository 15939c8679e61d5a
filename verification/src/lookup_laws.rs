//! What a look-up in a table finds, told in terms of the entries that the
//! table holds and of the in-memory table that it was written from.

use vstd::prelude::*;
use crate::bytes_order::{bytes_lt, lemma_bytes_lt_asymmetric, lemma_bytes_lt_irreflexive, lemma_bytes_lt_total};
use crate::key::KeyView;
use crate::memtable::{entries_of, entry_of, is_newest, lemma_tail_parts, mem_lookup, versions_ok, MemView, SEQ_LIMIT};
use crate::compaction::lemma_entry_within;
use crate::levels::{brackets, level0_lookup, level_insert, levels_lookup, levels_wf, lemma_insert_place, put_table};
use crate::lsm::LsmView;
use crate::sst::{EntryView, IndexEntryView};
use crate::table::{all_entries_wf, answer_of, block_follows, entries_sorted, entries_typed, first_block_for, lemma_flatten_in_order, scan_block, target_key, Table, TableView};

verus! {

/// The entry answers a look-up that starts from `target` for `user_key`: it
/// does not sort before the target and has the user key.
pub open spec fn hit(e: EntryView, target: KeyView, user_key: Seq<u8>) -> bool {
    target.le(e.key.key) && e.key.key.user_key == user_key
}

/// What a look-up answers for the first entry of a run that answers it.
pub open spec fn scan_answer(entries: Seq<EntryView>, target: KeyView, user_key: Seq<u8>) -> Option<
    Option<Seq<u8>>,
> {
    match scan_block(entries, target, user_key) {
        Some(e) => Some(answer_of(e)),
        None => None,
    }
}

/// What scanning a run of entries finds: the first entry that answers the
/// look-up, or nothing where none does.
pub proof fn lemma_scan_first(entries: Seq<EntryView>, target: KeyView, user_key: Seq<u8>)
    ensures
        match scan_block(entries, target, user_key) {
            Some(e) => exists|i: int|
                0 <= i < entries.len() && #[trigger] entries[i] == e && hit(e, target, user_key)
                    && forall|j: int| 0 <= j < i ==> !hit(#[trigger] entries[j], target, user_key),
            None => forall|j: int|
                0 <= j < entries.len() ==> !hit(#[trigger] entries[j], target, user_key),
        },
    decreases entries.len(),
{
    if entries.len() > 0 {
        if hit(entries[0], target, user_key) {
            assert(entries[0] == entries[0]);
        } else {
            let rest = entries.drop_first();
            lemma_scan_first(rest, target, user_key);
            match scan_block(rest, target, user_key) {
                Some(e) => {
                    let i = choose|i: int|
                        0 <= i < rest.len() && #[trigger] rest[i] == e && hit(e, target, user_key)
                            && forall|j: int|
                            0 <= j < i ==> !hit(#[trigger] rest[j], target, user_key);
                    assert(entries[i + 1] == e);
                    assert forall|j: int| 0 <= j < i + 1 implies !hit(
                        #[trigger] entries[j],
                        target,
                        user_key,
                    ) by {
                        if j > 0 {
                            assert(entries[j] == rest[j - 1]);
                        }
                    }
                },
                None => {
                    assert forall|j: int| 0 <= j < entries.len() implies !hit(
                        #[trigger] entries[j],
                        target,
                        user_key,
                    ) by {
                        if j > 0 {
                            assert(entries[j] == rest[j - 1]);
                        }
                    }
                },
            }
        }
    }
}

/// A run in which no entry answers the look-up is scanned in vain.
pub proof fn lemma_scan_none(entries: Seq<EntryView>, target: KeyView, user_key: Seq<u8>)
    requires
        forall|j: int| 0 <= j < entries.len() ==> !hit(#[trigger] entries[j], target, user_key),
    ensures
        scan_block(entries, target, user_key).is_none(),
    decreases entries.len(),
{
    if entries.len() > 0 {
        let rest = entries.drop_first();
        assert(!hit(entries[0], target, user_key));
        assert forall|j: int| 0 <= j < rest.len() implies !hit(#[trigger] rest[j], target, user_key) by {
            assert(rest[j] == entries[j + 1]);
        }
        lemma_scan_none(rest, target, user_key);
    }
}

/// Scanning two runs one after the other finds what scanning the first
/// finds, or else what scanning the second finds.
pub proof fn lemma_scan_concat(a: Seq<EntryView>, b: Seq<EntryView>, target: KeyView, user_key: Seq<u8>)
    ensures
        scan_block(a + b, target, user_key) == (if scan_block(a, target, user_key).is_some() {
            scan_block(a, target, user_key)
        } else {
            scan_block(b, target, user_key)
        }),
    decreases a.len(),
{
    if a.len() == 0 {
        assert(a + b =~= b);
    } else {
        assert((a + b)[0] == a[0]);
        assert((a + b).drop_first() =~= a.drop_first() + b);
        lemma_scan_concat(a.drop_first(), b, target, user_key);
    }
}

/// Blocks in order with their index.
pub open spec fn blocks_in_order(index: Seq<IndexEntryView>, blocks: Seq<Seq<EntryView>>) -> bool {
    &&& index.len() == blocks.len()
    &&& forall|i: int|
        0 <= i < blocks.len() ==> {
            &&& (#[trigger] blocks[i]).len() >= 1
            &&& entries_sorted(blocks[i])
            &&& entries_typed(blocks[i])
            &&& all_entries_wf(blocks[i])
            &&& index[i].max_key == blocks[i].last().key
        }
    &&& forall|i: int| 0 <= i < blocks.len() - 1 ==> #[trigger] block_follows(blocks, i)
}

/// What the look-up in the block that the index names finds.
pub open spec fn block_lookup(
    index: Seq<IndexEntryView>,
    blocks: Seq<Seq<EntryView>>,
    target: KeyView,
    user_key: Seq<u8>,
) -> Option<EntryView> {
    let b = first_block_for(index, target);
    if b < blocks.len() {
        scan_block(blocks[b], target, user_key)
    } else {
        None
    }
}

/// The place of the block for a look-up lies within the index or right
/// behind it.
pub proof fn lemma_first_block_bound(index: Seq<IndexEntryView>, target: KeyView)
    ensures
        0 <= first_block_for(index, target) <= index.len(),
    decreases index.len(),
{
    if index.len() > 0 {
        lemma_first_block_bound(index.drop_first(), target);
    }
}

/// Blocks in order without the first are in order.
proof fn lemma_rest_in_order(index: Seq<IndexEntryView>, blocks: Seq<Seq<EntryView>>)
    requires
        blocks_in_order(index, blocks),
        blocks.len() >= 1,
    ensures
        blocks_in_order(index.drop_first(), blocks.drop_first()),
{
    let ri = index.drop_first();
    let rb = blocks.drop_first();
    assert forall|i: int| 0 <= i < rb.len() implies {
        &&& (#[trigger] rb[i]).len() >= 1
        &&& entries_sorted(rb[i])
        &&& entries_typed(rb[i])
        &&& all_entries_wf(rb[i])
        &&& ri[i].max_key == rb[i].last().key
    } by {
        assert(rb[i] == blocks[i + 1]);
        assert(ri[i] == index[i + 1]);
    }
    assert forall|i: int| 0 <= i < rb.len() - 1 implies #[trigger] block_follows(rb, i) by {
        assert(block_follows(blocks, i + 1));
        assert(rb[i] == blocks[i + 1]);
        assert(rb[i + 1] == blocks[i + 2]);
    }
}

/// Looking up in the block that the index names finds what scanning all
/// entries finds.
pub proof fn lemma_block_lookup_is_scan(
    index: Seq<IndexEntryView>,
    blocks: Seq<Seq<EntryView>>,
    target: KeyView,
    user_key: Seq<u8>,
)
    requires
        blocks_in_order(index, blocks),
        target.user_key == user_key,
    ensures
        block_lookup(index, blocks, target, user_key) == scan_block(
            blocks.flatten(),
            target,
            user_key,
        ),
    decreases blocks.len(),
{
    if blocks.len() == 0 {
        assert(blocks.flatten() =~= Seq::<EntryView>::empty());
    } else {
        let first = blocks[0];
        let ri = index.drop_first();
        let rb = blocks.drop_first();
        let last = first.last();
        lemma_rest_in_order(index, blocks);
        lemma_scan_concat(first, rb.flatten(), target, user_key);
        assert(blocks.flatten() == first + rb.flatten());
        if index[0].max_key.key.lt(target) {
            // the whole block sorts before the target
            assert forall|j: int| 0 <= j < first.len() implies !hit(
                #[trigger] first[j],
                target,
                user_key,
            ) by {
                if j < first.len() - 1 {
                    assert(first[j].key.key.lt(first[first.len() - 1].key.key));
                    first[j].key.key.lemma_lt_transitive(last.key.key, target);
                }
                first[j].key.key.lemma_lt_asymmetric(target);
            }
            lemma_scan_none(first, target, user_key);
            lemma_block_lookup_is_scan(ri, rb, target, user_key);
            let b = first_block_for(ri, target);
            lemma_first_block_bound(ri, target);
            if b < rb.len() {
                assert(rb[b] == blocks[b + 1]);
            }
        } else if scan_block(first, target, user_key).is_none() {
            // the block ends behind the target with another user key: so do all that follow
            lemma_scan_first(first, target, user_key);
            assert(!hit(first[first.len() - 1], target, user_key));
            target.lemma_total(last.key.key);
            assert(target.le(last.key.key));
            assert(last.key.key.user_key != user_key);
            assert(bytes_lt(user_key, last.key.key.user_key)) by {
                lemma_bytes_lt_irreflexive(user_key);
            }
            if rb.len() > 0 {
                lemma_flatten_in_order(rb);
                let flat = rb.flatten();
                assert(block_follows(blocks, 0));
                assert(rb[0] == blocks[1]);
                assert forall|j: int| 0 <= j < flat.len() implies !hit(
                    #[trigger] flat[j],
                    target,
                    user_key,
                ) by {
                    if j > 0 {
                        assert(flat[0].key.key.lt(flat[j].key.key));
                        last.key.key.lemma_lt_transitive(flat[0].key.key, flat[j].key.key);
                    }
                    assert(last.key.key.lt(flat[j].key.key));
                    if flat[j].key.key.user_key == user_key {
                        lemma_bytes_lt_asymmetric(user_key, last.key.key.user_key);
                        lemma_bytes_lt_irreflexive(user_key);
                    }
                }
                lemma_scan_none(flat, target, user_key);
            } else {
                assert(rb.flatten() =~= Seq::<EntryView>::empty());
            }
        }
    }
}

/// A look-up in a table in order finds the first of all entries that does
/// not sort before the target and has the user key.
pub proof fn lemma_lookup_is_scan(v: TableView, user_key: Seq<u8>, seq_num: u64)
    requires
        v.valid(),
        forall|i: int| 0 <= i < v.blocks.len() ==> all_entries_wf(#[trigger] v.blocks[i]),
    ensures
        v.lookup(user_key, seq_num) == scan_answer(
            v.content(),
            target_key(user_key, seq_num),
            user_key,
        ),
{
    lemma_block_lookup_is_scan(v.index, v.blocks, target_key(user_key, seq_num), user_key);
}

/// Scanning the entries written from an in-memory table finds what a
/// look-up in the in-memory table finds.
pub proof fn lemma_scan_is_newest(entries: Seq<EntryView>, m: MemView, user_key: Seq<u8>, seq_num: u64)
    requires
        entries_of(entries, m),
        versions_ok(m),
    ensures
        scan_answer(entries, target_key(user_key, seq_num), user_key) == mem_lookup(
            m,
            user_key,
            seq_num,
        ),
{
    let target = target_key(user_key, seq_num);
    let snap = (seq_num % SEQ_LIMIT) as u64;
    assert(target.seq_num() == snap);
    lemma_scan_first(entries, target, user_key);
    lemma_bytes_lt_irreflexive(user_key);
    match scan_block(entries, target, user_key) {
        Some(e) => {
            let i = choose|i: int|
                0 <= i < entries.len() && #[trigger] entries[i] == e && hit(e, target, user_key)
                    && forall|j: int| 0 <= j < i ==> !hit(#[trigger] entries[j], target, user_key);
            let s = e.key.key.seq_num() as u64;
            assert(m.contains_key((user_key, s)));
            assert(m[(user_key, s)].0 <= 3);
            assert(s <= snap);
            assert forall|t: u64| m.contains_key((user_key, t)) && t <= snap implies t <= s by {
                let k = (user_key, t);
                let j = choose|j: int|
                    0 <= j < entries.len() && #[trigger] entries[j] == entry_of(k.0, k.1, m[k]);
                assert(m[k].0 <= 3);
                lemma_tail_parts(t, m[k].0);
                assert(entries[j].key.key.seq_num() == t);
                assert(hit(entries[j], target, user_key));
                if j > i {
                    assert(entries[i].key.key.lt(entries[j].key.key));
                }
            }
            assert(is_newest(m, user_key, snap, s));
            let c = choose|c: u64| is_newest(m, user_key, snap, c);
            assert(c == s);
            assert(e == entry_of(user_key, s, m[(user_key, s)]));
            lemma_tail_parts(s, m[(user_key, s)].0);
        },
        None => {
            assert forall|t: u64| !is_newest(m, user_key, snap, t) by {
                if is_newest(m, user_key, snap, t) {
                    let k = (user_key, t);
                    let j = choose|j: int|
                        0 <= j < entries.len() && #[trigger] entries[j] == entry_of(k.0, k.1, m[k]);
                    assert(m[k].0 <= 3);
                    lemma_tail_parts(t, m[k].0);
                    assert(hit(entries[j], target, user_key));
                }
            }
        },
    }
}

/// Writing an in-memory table out keeps what a look-up finds: a look-up in
/// the table that holds the versions of an in-memory table finds what the
/// look-up in the in-memory table finds.
pub proof fn lemma_flush_keeps_lookup(table: &Table, m: MemView, user_key: Seq<u8>, seq_num: u64)
    requires
        table.wf(),
        entries_of(table@.content(), m),
        versions_ok(m),
    ensures
        table@.lookup(user_key, seq_num) == mem_lookup(m, user_key, seq_num),
{
    table.lemma_blocks();
    lemma_lookup_is_scan(table@, user_key, seq_num);
    lemma_scan_is_newest(table@.content(), m, user_key, seq_num);
}

/// The first of two answers that is one.
pub open spec fn first_of(a: Option<Option<Seq<u8>>>, b: Option<Option<Seq<u8>>>) -> Option<
    Option<Seq<u8>>,
> {
    if a.is_some() {
        a
    } else {
        b
    }
}

/// A table that holds a version of a user key brackets the key.
pub proof fn lemma_found_is_bracketed(t: &Table, user_key: Seq<u8>, seq_num: u64)
    requires
        t.wf(),
        t@.lookup(user_key, seq_num).is_some(),
    ensures
        brackets(t@, user_key),
{
    t.lemma_blocks();
    lemma_lookup_is_scan(t@, user_key, seq_num);
    let target = target_key(user_key, seq_num);
    let c = t@.content();
    lemma_scan_first(c, target, user_key);
    let e = scan_block(c, target, user_key).unwrap();
    let i = choose|i: int|
        0 <= i < c.len() && #[trigger] c[i] == e && hit(e, target, user_key) && forall|j: int|
            0 <= j < i ==> !hit(#[trigger] c[j], target, user_key);
    lemma_entry_within(t, i);
    lemma_bytes_lt_total(t@.min_key.key.user_key, user_key);
    lemma_bytes_lt_total(user_key, t@.max_key.key.user_key);
    if bytes_lt(user_key, t@.min_key.key.user_key) {
        lemma_bytes_lt_asymmetric(user_key, t@.min_key.key.user_key);
    }
    if bytes_lt(t@.max_key.key.user_key, user_key) {
        lemma_bytes_lt_asymmetric(t@.max_key.key.user_key, user_key);
    }
}

/// A look-up in the levels from a level on finds the same in two lists of
/// levels that are the same from that level on.
pub proof fn lemma_lookup_below(
    a: Seq<Seq<Table>>,
    b: Seq<Seq<Table>>,
    from: int,
    user_key: Seq<u8>,
    seq_num: u64,
)
    requires
        a.len() == b.len(),
        from >= 1,
        forall|l: int| from <= l < a.len() ==> #[trigger] a[l] == b[l],
    ensures
        levels_lookup(a, from, user_key, seq_num) == levels_lookup(b, from, user_key, seq_num),
    decreases a.len() - from,
{
    if from < a.len() {
        assert(a[from] == b[from]);
        lemma_lookup_below(a, b, from + 1, user_key, seq_num);
    }
}

/// Writing an in-memory table out keeps what the store shows. Where the
/// table that holds the versions of an in-memory table is newer than every
/// table of level 0, a look-up in the levels with the table put in finds
/// what the look-up in the in-memory table finds, or else what the look-up
/// in the levels found before.
pub proof fn lemma_install_keeps_lookup(
    levels: Seq<Seq<Table>>,
    t: Table,
    m: MemView,
    user_key: Seq<u8>,
    seq_num: u64,
)
    requires
        levels_wf(levels),
        levels.len() > 0,
        t.wf(),
        t@.footer.level == 0,
        entries_of(t@.content(), m),
        versions_ok(m),
        forall|i: int|
            0 <= i < levels[0].len() ==> (#[trigger] levels[0][i])@.footer.last_seq_num
                < t@.footer.last_seq_num,
    ensures
        levels_lookup(put_table(levels, t), 0, user_key, seq_num) == first_of(
            mem_lookup(m, user_key, seq_num),
            levels_lookup(levels, 0, user_key, seq_num),
        ),
{
    let old = levels[0];
    lemma_insert_place(old, t@, 0, 0);
    let new = level_insert(old, t, 0);
    assert(new == old.insert(0, t));
    assert(new[0] == t);
    assert(new.drop_first() =~= old);
    let after = put_table(levels, t);
    lemma_flush_keeps_lookup(&t, m, user_key, seq_num);
    if t@.lookup(user_key, seq_num).is_some() {
        lemma_found_is_bracketed(&t, user_key, seq_num);
    }
    assert(level0_lookup(new, user_key, seq_num) == first_of(
        mem_lookup(m, user_key, seq_num),
        level0_lookup(old, user_key, seq_num),
    ));
    lemma_lookup_below(after, levels, 1, user_key, seq_num);
}

/// Durability after a clean flush: once the in-memory table that waited is
/// written out as the newest table of level 0, the store shows what it
/// showed while the table waited.
pub proof fn lemma_flush_keeps_shown(
    v: LsmView,
    t: Table,
    user_key: Seq<u8>,
    version: Option<u64>,
)
    requires
        v.im.is_some(),
        levels_wf(v.levels),
        v.levels.len() > 0,
        t.wf(),
        t@.footer.level == 0,
        entries_of(t@.content(), v.im.unwrap()),
        versions_ok(v.im.unwrap()),
        forall|i: int|
            0 <= i < v.levels[0].len() ==> (#[trigger] v.levels[0][i])@.footer.last_seq_num
                < t@.footer.last_seq_num,
    ensures
        (LsmView { im: None, levels: put_table(v.levels, t), ..v }).lookup(user_key, version)
            == v.lookup(user_key, version),
{
    let seq_num = match version {
        Some(s) => s,
        None => crate::lsm::prev_num(v.next_seq_num),
    };
    lemma_install_keeps_lookup(v.levels, t, v.im.unwrap(), user_key, seq_num);
}

} // verus!
