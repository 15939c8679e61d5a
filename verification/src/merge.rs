//! Merging sorted runs of entries and dropping overwritten versions.
//!
//! A compaction merges the entries of several tables into one run in key
//! order and keeps, for each user key, the first entry only: the newest
//! version.

use vstd::prelude::*;
use crate::bytes_order::{bytes_before, bytes_equal, bytes_lt};
use crate::bytes_order::{lemma_bytes_lt_asymmetric, lemma_bytes_lt_total, lemma_bytes_lt_transitive};
use crate::key::LookUpKey;
use crate::sst::EntryView;
use crate::table::{entries_sorted, pairs_view};
use crate::utils::copy_bytes;

verus! {

/// A key and the value stored under it.
pub type Pair = (LookUpKey, Vec<u8>);

/// The order in which runs are merged: by key, and among equal keys by the
/// bytes of the value.
pub open spec fn entry_lt(a: EntryView, b: EntryView) -> bool {
    a.key.key.lt(b.key.key) || (a.key.key.same(b.key.key) && bytes_lt(a.value, b.value))
}

/// The run is in merging order: no entry comes strictly before an earlier one.
pub open spec fn run_ordered(run: Seq<EntryView>) -> bool {
    forall|i: int, j: int| 0 <= i < j < run.len() ==> !entry_lt(#[trigger] run[j], #[trigger] run[i])
}

/// The views of a list of runs.
pub open spec fn runs_view(runs: Seq<Vec<Pair>>) -> Seq<Seq<EntryView>> {
    runs.map_values(|r: Vec<Pair>| pairs_view(r@))
}

/// Every run is in merging order.
pub open spec fn runs_ordered(runs: Seq<Seq<EntryView>>) -> bool {
    forall|r: int| 0 <= r < runs.len() ==> run_ordered(#[trigger] runs[r])
}

/// Whether `a` comes strictly before `b` in merging order.
pub fn entry_before(a: &Pair, b: &Pair) -> (r: bool)
    ensures
        r == entry_lt(
            EntryView { key: a.0@, value: a.1@ },
            EntryView { key: b.0@, value: b.1@ },
        ),
{
    if a.0.sorts_before(&b.0) {
        true
    } else if a.0.same_as(&b.0) {
        bytes_before(a.1.as_slice(), b.1.as_slice())
    } else {
        false
    }
}

/// The run that merging the given runs yields.
pub uninterp spec fn kmerge_result(runs: Seq<Seq<EntryView>>) -> Seq<EntryView>;

/// `itertools::kmerge_by` with the merging order: the result holds the
/// entries of all runs, each as often as the runs hold it, and where every
/// run is in merging order the result is too.
#[verifier::external_body]
pub(crate) fn kmerge_runs(runs: Vec<Vec<Pair>>) -> (merged: Vec<Pair>)
    ensures
        pairs_view(merged@) == kmerge_result(runs_view(runs@)),
        pairs_view(merged@).to_multiset() == runs_view(runs@).flatten().to_multiset(),
        runs_ordered(runs_view(runs@)) ==> run_ordered(pairs_view(merged@)),
{
    itertools::kmerge_by(runs, |a: &Pair, b: &Pair| entry_before(a, b)).collect()
}

/// Entry `i` of `s` starts a run of entries with one user key.
pub open spec fn starts_user_key(s: Seq<EntryView>, i: int) -> bool {
    i == 0 || s[i].key.key.user_key != s[i - 1].key.key.user_key
}

/// The entries of `s` without those that follow an entry with the same user
/// key: of each run of entries with one user key the first is kept.
pub open spec fn dedup_user_keys(s: Seq<EntryView>) -> Seq<EntryView>
    decreases s.len(),
{
    if s.len() == 0 {
        s
    } else if starts_user_key(s, s.len() - 1) {
        dedup_user_keys(s.drop_last()).push(s.last())
    } else {
        dedup_user_keys(s.drop_last())
    }
}

/// Keeps of each run of entries with one user key the first.
pub fn dedup_by_user_key(merged: &Vec<Pair>) -> (out: Vec<Pair>)
    ensures
        pairs_view(out@) == dedup_user_keys(pairs_view(merged@)),
{
    let n: usize = merged.len();
    let ghost s = pairs_view(merged@);
    let mut out: Vec<Pair> = Vec::new();
    let mut i: usize = 0;
    assert(s.take(0) =~= Seq::<EntryView>::empty());
    assert(pairs_view(out@) =~= Seq::<EntryView>::empty());
    while i < n
        invariant
            i <= n,
            n == merged@.len(),
            s == pairs_view(merged@),
            pairs_view(out@) == dedup_user_keys(s.take(i as int)),
        decreases n - i,
    {
        let ghost t = s.take(i as int + 1);
        proof {
            assert(t.drop_last() =~= s.take(i as int));
            assert(t.last() == s[i as int]);
            assert(s[i as int] == (EntryView { key: merged@[i as int].0@, value: merged@[i as int].1@ }));
            if i > 0 {
                assert(t[i as int - 1] == s[i as int - 1]);
                assert(s[i as int - 1].key == merged@[i as int - 1].0@);
            }
        }
        let keep: bool = i == 0 || !bytes_equal(
            merged[i].0.get_user_key(),
            merged[i - 1].0.get_user_key(),
        );
        assert(keep == starts_user_key(t, i as int));
        if keep {
            let key = merged[i].0.duplicate();
            let value = copy_bytes(merged[i].1.as_slice());
            proof {
                let ghost before = pairs_view(out@);
                assert(pairs_view(out@.push((key, value))) =~= before.push(s[i as int]));
            }
            out.push((key, value));
        }
        i = i + 1;
    }
    assert(s.take(n as int) =~= s);
    out
}

/// Every entry is a put or a delete with a rightly framed key.
pub open spec fn entries_fine(s: Seq<EntryView>) -> bool {
    forall|i: int| 0 <= i < s.len() ==> (#[trigger] s[i]).wf() && s[i].key.key.op_type() <= 3
}

/// No entry's key sorts strictly after a later entry's key.
pub open spec fn keys_ascend(s: Seq<EntryView>) -> bool {
    forall|i: int, j: int|
        0 <= i < j < s.len() ==> (#[trigger] s[i]).key.key.le((#[trigger] s[j]).key.key)
}

/// A run in merging order has keys that do not descend.
pub proof fn lemma_ordered_keys_ascend(s: Seq<EntryView>)
    requires
        run_ordered(s),
    ensures
        keys_ascend(s),
{
    assert forall|i: int, j: int| 0 <= i < j < s.len() implies (#[trigger] s[i]).key.key.le(
        (#[trigger] s[j]).key.key,
    ) by {
        assert(!entry_lt(s[j], s[i]));
        s[i].key.key.lemma_total(s[j].key.key);
    }
}

/// A run in strictly ascending key order is in merging order.
pub proof fn lemma_sorted_is_ordered(s: Seq<EntryView>)
    requires
        entries_sorted(s),
    ensures
        run_ordered(s),
{
    assert forall|i: int, j: int| 0 <= i < j < s.len() implies !entry_lt(
        #[trigger] s[j],
        #[trigger] s[i],
    ) by {
        s[i].key.key.lemma_lt_asymmetric(s[j].key.key);
    }
}

/// What is left of a run whose keys do not descend, when of each user key the
/// first entry only is kept: a run in strictly ascending key order with
/// strictly ascending user keys; it starts with the run's first entry, ends
/// with an entry of the run's last user key, and each of its entries is an
/// entry of the run.
pub proof fn lemma_dedup_in_order(s: Seq<EntryView>)
    requires
        keys_ascend(s),
    ensures
        entries_sorted(dedup_user_keys(s)),
        dedup_user_keys(s).len() <= s.len(),
        s.len() > 0 ==> dedup_user_keys(s).len() > 0 && dedup_user_keys(s)[0] == s[0]
            && dedup_user_keys(s).last().key.key.user_key == s.last().key.key.user_key,
        forall|i: int, j: int|
            0 <= i < j < dedup_user_keys(s).len() ==> bytes_lt(
                (#[trigger] dedup_user_keys(s)[i]).key.key.user_key,
                (#[trigger] dedup_user_keys(s)[j]).key.key.user_key,
            ),
        forall|i: int|
            0 <= i < dedup_user_keys(s).len() ==> s.contains(#[trigger] dedup_user_keys(s)[i]),
    decreases s.len(),
{
    if s.len() > 0 {
        let front = s.drop_last();
        let d = dedup_user_keys(front);
        let out = dedup_user_keys(s);
        assert forall|i: int, j: int| 0 <= i < j < front.len() implies (#[trigger] front[i]).key.key.le(
            (#[trigger] front[j]).key.key,
        ) by {
            assert(front[i] == s[i] && front[j] == s[j]);
        }
        lemma_dedup_in_order(front);
        assert forall|i: int| 0 <= i < out.len() implies s.contains(#[trigger] out[i]) by {
            if i < d.len() {
                assert(front.contains(d[i]));
                let w = choose|w: int| 0 <= w < front.len() && front[w] == d[i];
                assert(s[w] == d[i]);
            } else {
                assert(s[s.len() - 1] == out[i]);
            }
        }
        if s.len() > 1 && starts_user_key(s, s.len() - 1) {
            let last = s.last();
            let prev = s[s.len() - 2];
            assert(prev == front.last());
            assert(prev.key.key.le(last.key.key));
            lemma_bytes_lt_total(prev.key.key.user_key, last.key.key.user_key);
            if bytes_lt(last.key.key.user_key, prev.key.key.user_key) {
                lemma_bytes_lt_asymmetric(last.key.key.user_key, prev.key.key.user_key);
            }
            assert(bytes_lt(prev.key.key.user_key, last.key.key.user_key));
            assert forall|i: int, j: int| 0 <= i < j < out.len() implies bytes_lt(
                (#[trigger] out[i]).key.key.user_key,
                (#[trigger] out[j]).key.key.user_key,
            ) by {
                if j == d.len() {
                    if i < d.len() - 1 {
                        assert(bytes_lt(d[i].key.key.user_key, d[d.len() - 1].key.key.user_key));
                        lemma_bytes_lt_transitive(
                            d[i].key.key.user_key,
                            prev.key.key.user_key,
                            last.key.key.user_key,
                        );
                    }
                }
            }
        }
        assert forall|i: int, j: int| 0 <= i < j < out.len() implies (#[trigger] out[i]).key.key.lt(
            (#[trigger] out[j]).key.key,
        ) by {
            assert(bytes_lt(out[i].key.key.user_key, out[j].key.key.user_key));
        }
    }
}

/// An entry of one of the runs is an entry of the runs put one after the other.
pub proof fn lemma_flatten_contains(runs: Seq<Seq<EntryView>>, e: EntryView)
    requires
        runs.flatten().contains(e),
    ensures
        exists|r: int| 0 <= r < runs.len() && (#[trigger] runs[r]).contains(e),
    decreases runs.len(),
{
    if runs.len() == 0 {
        assert(runs.flatten() =~= Seq::<EntryView>::empty());
    } else {
        let front = runs.drop_last();
        let last = runs.last();
        assert(runs =~= front.push(last));
        front.lemma_flatten_push(last);
        let flat = runs.flatten();
        let w = choose|w: int| 0 <= w < flat.len() && flat[w] == e;
        if w < front.flatten().len() {
            assert(front.flatten()[w] == e);
            lemma_flatten_contains(front, e);
            let r = choose|r: int| 0 <= r < front.len() && (#[trigger] front[r]).contains(e);
            assert(runs[r] == front[r]);
        } else {
            assert(last[w - front.flatten().len()] == e);
            assert(runs[runs.len() - 1].contains(e));
        }
    }
}

/// Where two runs hold the same entries equally often and the entries of one
/// are puts and deletes with rightly framed keys, so are those of the other.
pub proof fn lemma_merged_fine(merged: Seq<EntryView>, runs: Seq<Seq<EntryView>>)
    requires
        merged.to_multiset() == runs.flatten().to_multiset(),
        forall|r: int| 0 <= r < runs.len() ==> entries_fine(#[trigger] runs[r]),
    ensures
        entries_fine(merged),
{
    let flat = runs.flatten();
    merged.to_multiset_ensures();
    flat.to_multiset_ensures();
    assert forall|i: int| 0 <= i < merged.len() implies (#[trigger] merged[i]).wf()
        && merged[i].key.key.op_type() <= 3 by {
        let e = merged[i];
        assert(merged.contains(e));
        assert(merged.to_multiset().count(e) > 0);
        assert(flat.contains(e));
        lemma_flatten_contains(runs, e);
        let r = choose|r: int| 0 <= r < runs.len() && (#[trigger] runs[r]).contains(e);
        let w = choose|w: int| 0 <= w < runs[r].len() && runs[r][w] == e;
        assert(runs[r][w].wf());
    }
}

/// Merges runs of entries into one and keeps of each user key the first
/// entry. Where the runs are in strictly ascending key order, so is the
/// result.
pub fn merge_runs(runs: Vec<Vec<Pair>>) -> (out: Vec<Pair>)
    ensures
        pairs_view(out@) == dedup_user_keys(kmerge_result(runs_view(runs@))),
        (forall|r: int| 0 <= r < runs@.len() ==> entries_sorted(#[trigger] runs_view(runs@)[r]))
            ==> entries_sorted(pairs_view(out@)),
        (forall|r: int| 0 <= r < runs@.len() ==> entries_fine(#[trigger] runs_view(runs@)[r]))
            ==> entries_fine(pairs_view(out@)),
        (exists|r: int| 0 <= r < runs@.len() && (#[trigger] runs_view(runs@)[r]).len() > 0)
            ==> out@.len() > 0,
        (forall|r: int| 0 <= r < runs@.len() ==> entries_sorted(#[trigger] runs_view(runs@)[r]))
            ==> forall|i: int|
            0 <= i < out@.len() ==> runs_view(runs@).flatten().contains(
                #[trigger] pairs_view(out@)[i],
            ),
{
    let ghost rv = runs_view(runs@);
    let merged = kmerge_runs(runs);
    let out = dedup_by_user_key(&merged);
    proof {
        let m = pairs_view(merged@);
        let d = pairs_view(out@);
        if forall|r: int| 0 <= r < rv.len() ==> entries_sorted(#[trigger] rv[r]) {
            assert forall|r: int| 0 <= r < rv.len() implies run_ordered(#[trigger] rv[r]) by {
                lemma_sorted_is_ordered(rv[r]);
            }
            lemma_ordered_keys_ascend(m);
            lemma_dedup_in_order(m);
            m.to_multiset_ensures();
            rv.flatten().to_multiset_ensures();
            assert forall|i: int| 0 <= i < d.len() implies rv.flatten().contains(#[trigger] d[i]) by {
                assert(m.contains(d[i]));
                assert(m.to_multiset().count(d[i]) > 0);
            }
        }
        if forall|r: int| 0 <= r < rv.len() ==> entries_fine(#[trigger] rv[r]) {
            lemma_merged_fine(m, rv);
            lemma_dedup_subset_fine(m);
        }
        if exists|r: int| 0 <= r < rv.len() && (#[trigger] rv[r]).len() > 0 {
            let r = choose|r: int| 0 <= r < rv.len() && (#[trigger] rv[r]).len() > 0;
            lemma_flatten_nonempty(rv, r);
            m.to_multiset_ensures();
            rv.flatten().to_multiset_ensures();
            assert(m.len() > 0);
            lemma_dedup_nonempty(m);
        }
    }
    out
}

/// What is left of a run of puts and deletes with rightly framed keys after
/// the later entries of each user key were dropped is such a run.
pub proof fn lemma_dedup_subset_fine(s: Seq<EntryView>)
    requires
        entries_fine(s),
    ensures
        entries_fine(dedup_user_keys(s)),
    decreases s.len(),
{
    if s.len() > 0 {
        let front = s.drop_last();
        assert forall|i: int| 0 <= i < front.len() implies (#[trigger] front[i]).wf()
            && front[i].key.key.op_type() <= 3 by {
            assert(front[i] == s[i]);
        }
        lemma_dedup_subset_fine(front);
        assert(s.last() == s[s.len() - 1]);
    }
}

/// What is left of a run that is not empty is not empty.
pub proof fn lemma_dedup_nonempty(s: Seq<EntryView>)
    requires
        s.len() > 0,
    ensures
        dedup_user_keys(s).len() > 0,
    decreases s.len(),
{
    if s.len() > 1 {
        lemma_dedup_nonempty(s.drop_last());
    }
}

/// Runs of which one is not empty are not empty when put one after the other.
pub proof fn lemma_flatten_nonempty(runs: Seq<Seq<EntryView>>, r: int)
    requires
        0 <= r < runs.len(),
        runs[r].len() > 0,
    ensures
        runs.flatten().len() > 0,
    decreases runs.len(),
{
    let front = runs.drop_last();
    let last = runs.last();
    assert(runs =~= front.push(last));
    front.lemma_flatten_push(last);
    if r < runs.len() - 1 {
        assert(front[r] == runs[r]);
        lemma_flatten_nonempty(front, r);
    }
}

} // verus!
