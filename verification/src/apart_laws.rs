//! The tables of a deeper level keep apart: no two of them hold the same
//! user key. Writing an in-memory table out and compacting keep it so.

use vstd::prelude::*;
use crate::bytes_order::{bytes_le, bytes_lt, lemma_bytes_le_transitive, lemma_bytes_lt_irreflexive, lemma_bytes_lt_total, lemma_bytes_lt_transitive};
use crate::compaction::{compacted_into, compaction_level, files_at, flushed_into, hull_hi, hull_lo, lemma_entry_within, level_closed, level_seed, merged_into, overlaps, table_at};
use crate::key::LookUpKeyView;
use crate::levels::{drop_all, drop_tables, insert_place, lemma_drop_tables_wf, lemma_insert_place_props, level_insert, level_wf, levels_wf, put_table, put_tables, table_same};
use crate::memtable::MemView;
use crate::table::Table;

verus! {

/// The smallest user key of a table.
pub open spec fn lo(t: Table) -> Seq<u8> {
    t@.min_key.key.user_key
}

/// The largest user key of a table.
pub open spec fn hi(t: Table) -> Seq<u8> {
    t@.max_key.key.user_key
}

/// The tables keep apart: the user keys of each lie before those of the next.
pub open spec fn level_apart(tables: Seq<Table>) -> bool {
    forall|i: int, j: int|
        0 <= i < j < tables.len() ==> bytes_lt(hi(#[trigger] tables[i]), lo(#[trigger] tables[j]))
}

/// The tables of every level but level 0 keep apart.
pub open spec fn levels_apart(levels: Seq<Seq<Table>>) -> bool {
    forall|l: int| 1 <= l < levels.len() ==> level_apart(#[trigger] levels[l])
}

/// There are no more levels, and no level holds more tables, than can be
/// counted.
pub open spec fn sized(levels: Seq<Seq<Table>>) -> bool {
    &&& levels.len() <= usize::MAX
    &&& forall|l: int| 0 <= l < levels.len() ==> (#[trigger] levels[l]).len() <= usize::MAX
}

/// The level that is compacted is one of the levels but the last, or none.
pub proof fn lemma_compaction_level_bound(
    levels: Seq<Seq<Table>>,
    starts: Seq<Option<(LookUpKeyView, LookUpKeyView)>>,
    l0_threshold: usize,
    l1_max_bytes: u64,
    from: int,
)
    requires
        0 <= from,
    ensures
        ({
            let level = compaction_level(levels, starts, l0_threshold, l1_max_bytes, from);
            level == levels.len() || (from <= level < levels.len() - 1 && level_seed(
                levels[level],
                starts[level],
            ).is_some())
        }),
    decreases levels.len() - from,
{
    if from < levels.len() - 1 {
        lemma_compaction_level_bound(levels, starts, l0_threshold, l1_max_bytes, from + 1);
    }
}

/// What is not behind a byte string comes before all that it comes before.
proof fn lemma_le_lt(a: Seq<u8>, b: Seq<u8>, c: Seq<u8>)
    requires
        bytes_le(a, b),
        bytes_lt(b, c),
    ensures
        bytes_lt(a, c),
{
    if bytes_lt(a, b) {
        lemma_bytes_lt_transitive(a, b, c);
    }
}

/// What comes before a byte string comes before all that are not before it.
proof fn lemma_lt_le(a: Seq<u8>, b: Seq<u8>, c: Seq<u8>)
    requires
        bytes_lt(a, b),
        bytes_le(b, c),
    ensures
        bytes_lt(a, c),
{
    if bytes_lt(b, c) {
        lemma_bytes_lt_transitive(a, b, c);
    }
}

/// The smallest user key of a well-formed table is not larger than its
/// largest.
pub proof fn lemma_lo_hi(t: Table)
    requires
        t.wf(),
    ensures
        bytes_le(lo(t), hi(t)),
{
    t.lemma_content();
    lemma_entry_within(&t, 0);
    lemma_bytes_le_transitive(lo(t), t@.content()[0].key.key.user_key, hi(t));
}

/// What is left of tables that keep apart, when tables are dropped, keeps
/// apart; each table left is one of the tables, and is not listed.
pub proof fn lemma_drop_keeps_apart(tables: Seq<Table>, level: usize, deleted: Seq<(usize, u64)>)
    requires
        level_apart(tables),
    ensures
        level_apart(drop_tables(tables, level, deleted)),
        forall|i: int|
            0 <= i < drop_tables(tables, level, deleted).len() ==> tables.contains(
                #[trigger] drop_tables(tables, level, deleted)[i],
            ) && !deleted.contains((level, drop_tables(tables, level, deleted)[i].id())),
    decreases tables.len(),
{
    if tables.len() > 0 {
        let front = tables.drop_last();
        let d = drop_tables(front, level, deleted);
        let out = drop_tables(tables, level, deleted);
        assert forall|i: int, j: int| 0 <= i < j < front.len() implies bytes_lt(
            hi(#[trigger] front[i]),
            lo(#[trigger] front[j]),
        ) by {
            assert(front[i] == tables[i] && front[j] == tables[j]);
        }
        lemma_drop_keeps_apart(front, level, deleted);
        assert forall|i: int| 0 <= i < out.len() implies tables.contains(#[trigger] out[i])
            && !deleted.contains((level, out[i].id())) by {
            if i < d.len() {
                assert(front.contains(d[i]));
                let w = choose|w: int| 0 <= w < front.len() && front[w] == d[i];
                assert(tables[w] == d[i]);
            } else {
                assert(tables[tables.len() - 1] == out[i]);
            }
        }
        assert forall|i: int, j: int| 0 <= i < j < out.len() implies bytes_lt(
            hi(#[trigger] out[i]),
            lo(#[trigger] out[j]),
        ) by {
            if j == d.len() {
                assert(out[i] == d[i]);
                assert(front.contains(d[i]));
                let w = choose|w: int| 0 <= w < front.len() && front[w] == d[i];
                assert(tables[w] == d[i]);
                assert(out[j] == tables[tables.len() - 1]);
            }
        }
    }
}

/// A table that overlaps none of the tables of a level that keep apart
/// goes between them, and they keep apart.
pub proof fn lemma_insert_keeps_apart(tables: Seq<Table>, t: Table, level: int)
    requires
        level >= 1,
        level_wf(tables, level),
        t.wf(),
        level_apart(tables),
        forall|i: int| 0 <= i < tables.len() ==> !overlaps((#[trigger] tables[i])@, lo(t), hi(t)),
    ensures
        level_apart(level_insert(tables, t, level)),
{
    let p = insert_place(tables, t@, level);
    lemma_insert_place_props(tables, t@, level);
    lemma_lo_hi(t);
    lemma_bytes_lt_irreflexive(lo(t));
    lemma_bytes_lt_irreflexive(hi(t));
    // the tables before the place lie before the table
    assert forall|i: int| 0 <= i < p implies bytes_lt(hi(#[trigger] tables[i]), lo(t)) by {
        let r = tables[i];
        assert(!overlaps(r@, lo(t), hi(t)));
        assert(r@.min_key.key.lt(t@.min_key.key));
        assert(bytes_le(lo(r), lo(t)));
        if bytes_lt(hi(t), lo(r)) {
            lemma_le_lt(lo(t), hi(t), lo(r));
            lemma_lt_le(lo(t), lo(r), lo(t));
        }
    }
    // the tables from the place on lie behind the table
    assert forall|i: int| p <= i < tables.len() implies bytes_lt(hi(t), lo(#[trigger] tables[i])) by {
        let first = tables[p];
        let r = tables[i];
        assert(!overlaps(first@, lo(t), hi(t)));
        assert(!overlaps(r@, lo(t), hi(t)));
        lemma_lo_hi(first);
        lemma_lo_hi(r);
        lemma_bytes_lt_irreflexive(lo(first));
        lemma_bytes_lt_irreflexive(lo(r));
        t@.min_key.key.lemma_total(first@.min_key.key);
        assert(bytes_le(lo(t), lo(first)));
        if bytes_lt(hi(first), lo(t)) {
            lemma_le_lt(lo(first), hi(first), lo(t));
            lemma_lt_le(lo(first), lo(t), lo(first));
        }
        if i > p {
            assert(bytes_lt(hi(first), lo(r)));
            if bytes_lt(hi(r), lo(t)) {
                lemma_le_lt(lo(first), hi(first), lo(r));
                lemma_le_lt(lo(t), lo(first), lo(r));
                lemma_le_lt(lo(r), hi(r), lo(t));
                lemma_bytes_lt_transitive(lo(t), lo(r), lo(t));
            }
        }
    }
    if p < tables.len() && table_same(tables[p]@, t@, level) {
        assert(bytes_lt(hi(t), lo(tables[p])));
        lemma_le_lt(lo(t), hi(t), lo(tables[p]));
    }
    let out = tables.insert(p, t);
    assert forall|i: int, j: int| 0 <= i < j < out.len() implies bytes_lt(
        hi(#[trigger] out[i]),
        lo(#[trigger] out[j]),
    ) by {
        if j == p {
            assert(out[i] == tables[i]);
        } else if i == p {
            assert(out[j] == tables[j - 1]);
        } else {
            let a = if i < p {
                i
            } else {
                i - 1
            };
            let b = if j < p {
                j
            } else {
                j - 1
            };
            assert(out[i] == tables[a]);
            assert(out[j] == tables[b]);
        }
    }
}

/// Level disjointness outlasts a compaction: where the tables of every
/// deeper level keep apart, they do so after the tables that the compaction
/// took in are dropped and the table that it made is put in.
pub proof fn lemma_compaction_keeps_apart(
    levels: Seq<Seq<Table>>,
    starts: Seq<Option<(LookUpKeyView, LookUpKeyView)>>,
    l0_threshold: usize,
    l1_max_bytes: u64,
    picked: Seq<(usize, usize)>,
    deleted: Seq<(usize, u64)>,
    made: Seq<Table>,
    file_num: u64,
    block_size: usize,
)
    requires
        levels_wf(levels),
        sized(levels),
        levels_apart(levels),
        compacted_into(
            levels,
            starts,
            l0_threshold,
            l1_max_bytes,
            picked,
            deleted,
            made,
            file_num,
            block_size,
        ),
    ensures
        levels_apart(put_tables(drop_all(levels, deleted), made)),
{
    let level = compaction_level(levels, starts, l0_threshold, l1_max_bytes, 0);
    lemma_compaction_level_bound(levels, starts, l0_threshold, l1_max_bytes, 0);
    let dropped = drop_all(levels, deleted);
    assert forall|l: int| 1 <= l < dropped.len() implies level_apart(#[trigger] dropped[l]) by {
        assert(level_apart(levels[l]));
        lemma_drop_keeps_apart(levels[l], l as usize, deleted);
    }
    if level >= levels.len() {
        assert(made =~= Seq::<Table>::empty());
    } else {
        let t = made[0];
        assert(made.drop_last() =~= Seq::<Table>::empty());
        assert(put_tables(dropped, made.drop_last()) == dropped);
        assert(put_tables(dropped, made) == put_table(dropped, t));
        let below = level + 1;
        let seed = level_seed(levels[level], starts[level]).unwrap() as usize;
        assert(merged_into(
            levels,
            level as usize,
            seed,
            picked,
            deleted,
            t,
            file_num,
            block_size,
        ));
        let old = levels[below];
        let rest = dropped[below];
        assert(level_wf(old, below));
        assert(level_apart(old));
        lemma_drop_keeps_apart(old, below as usize, deleted);
        lemma_drop_tables_wf(old, below as usize, deleted);
        let lo_all = hull_lo(levels, picked);
        let hi_all = hull_hi(levels, picked);
        assert forall|i: int| 0 <= i < rest.len() implies !overlaps(
            (#[trigger] rest[i])@,
            lo(t),
            hi(t),
        ) by {
            let r = rest[i];
            assert(old.contains(r));
            let w = choose|w: int| 0 <= w < old.len() && old[w] == r;
            let place = (below as usize, w as usize);
            if picked.contains(place) {
                let k = choose|k: int| 0 <= k < picked.len() && picked[k] == place;
                assert(files_at(levels, picked)[k] == (below as usize, r.id()));
                assert(deleted[k] == (below as usize, r.id()));
            }
            assert(level_closed(levels, below as usize, picked));
            assert(table_at(levels, place) == r@);
            assert(!overlaps(r@, lo_all, hi_all));
            lemma_bytes_lt_total(hi_all, lo(r));
            lemma_bytes_lt_total(hi(r), lo_all);
            if bytes_lt(hi_all, lo(r)) {
                lemma_le_lt(hi(t), hi_all, lo(r));
            } else {
                lemma_lt_le(hi(r), lo_all, lo(t));
            }
        }
        lemma_insert_keeps_apart(rest, t, below);
        let after = put_table(dropped, t);
        assert forall|l: int| 1 <= l < after.len() implies level_apart(#[trigger] after[l]) by {
            if l != below {
                assert(after[l] == dropped[l]);
            }
        }
    }
}

/// Level disjointness outlasts writing an in-memory table out: the table
/// that is made goes to level 0, and the deeper levels stay as they are.
pub proof fn lemma_flush_keeps_apart(
    levels: Seq<Seq<Table>>,
    m: MemView,
    made: Seq<Table>,
    file_num: u64,
    block_size: usize,
)
    requires
        levels.len() > 0,
        levels_apart(levels),
        flushed_into(m, made, file_num, block_size),
    ensures
        levels_apart(put_tables(levels, made)),
{
    if made.len() > 0 {
        let t = made[0];
        assert(made.drop_last() =~= Seq::<Table>::empty());
        assert(put_tables(levels, made.drop_last()) == levels);
        let after = put_table(levels, t);
        assert forall|l: int| 1 <= l < after.len() implies level_apart(#[trigger] after[l]) by {
            assert(after[l] == levels[l]);
        }
    }
}

} // verus!
