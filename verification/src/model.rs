//! The table as a mathematical map from keys to statistics, and what holds
//! of recording and merging.

use vstd::prelude::*;
use crate::stats::{lemma_combine_wf, StatsView};

verus! {

/// A table: the statistics of each key that was seen.
pub type TableView = Map<Seq<u8>, StatsView>;

/// One measurement of one key.
pub type Observation = (Seq<u8>, int);

/// The keys are finitely many and each has well-formed statistics.
pub open spec fn table_wf(t: TableView) -> bool {
    &&& t.dom().finite()
    &&& forall|k: Seq<u8>| t.dom().contains(k) ==> (#[trigger] t[k]).wf()
}

/// Every count fits a `u64`.
pub open spec fn counts_fit(t: TableView) -> bool {
    forall|k: Seq<u8>| t.dom().contains(k) ==> (#[trigger] t[k]).count <= u64::MAX
}

/// The table after taking in statistics for one key: combined with what the
/// key already has, or entered as they are.
pub open spec fn absorb_spec(t: TableView, key: Seq<u8>, stats: StatsView) -> TableView {
    t.insert(
        key,
        if t.dom().contains(key) {
            t[key].combine(stats)
        } else {
            stats
        },
    )
}

/// The table after one more measurement of `key`.
pub open spec fn record_spec(t: TableView, key: Seq<u8>, value: int) -> TableView {
    absorb_spec(t, key, StatsView::single(value))
}

/// The table of two disjoint sets of lines taken together: every key of
/// either, with the statistics combined where both have it. A key that one
/// table lacks has no measurements there.
pub open spec fn merge_spec(a: TableView, b: TableView) -> TableView {
    Map::new(
        |k: Seq<u8>| a.dom().contains(k) || b.dom().contains(k),
        |k: Seq<u8>|
            if a.dom().contains(k) && b.dom().contains(k) {
                a[k].combine(b[k])
            } else if a.dom().contains(k) {
                a[k]
            } else {
                b[k]
            },
    )
}

/// The table of a sequence of measurements.
pub open spec fn aggregate(obs: Seq<Observation>) -> TableView
    decreases obs.len(),
{
    if obs.len() == 0 {
        Map::empty()
    } else {
        record_spec(aggregate(obs.drop_last()), obs.last().0, obs.last().1)
    }
}

/// The sum of the counts of all keys.
pub open spec fn total_count(t: TableView) -> nat
    decreases t.dom().len(),
{
    if t.dom().finite() && t.dom().len() > 0 {
        let k = t.dom().choose();
        t[k].count + total_count(t.remove(k))
    } else {
        0
    }
}

/// The measurements of one key, in the order in which they were taken.
pub open spec fn values_of(obs: Seq<Observation>, key: Seq<u8>) -> Seq<int>
    decreases obs.len(),
{
    if obs.len() == 0 {
        Seq::empty()
    } else if obs.last().0 == key {
        values_of(obs.drop_last(), key).push(obs.last().1)
    } else {
        values_of(obs.drop_last(), key)
    }
}

/// The least of some values.
pub open spec fn seq_min(v: Seq<int>) -> int
    decreases v.len(),
{
    if v.len() <= 1 {
        v[0]
    } else if v.last() < seq_min(v.drop_last()) {
        v.last()
    } else {
        seq_min(v.drop_last())
    }
}

/// The greatest of some values.
pub open spec fn seq_max(v: Seq<int>) -> int
    decreases v.len(),
{
    if v.len() <= 1 {
        v[0]
    } else if v.last() > seq_max(v.drop_last()) {
        v.last()
    } else {
        seq_max(v.drop_last())
    }
}

/// The sum of some values.
pub open spec fn seq_sum(v: Seq<int>) -> int
    decreases v.len(),
{
    if v.len() == 0 {
        0
    } else {
        seq_sum(v.drop_last()) + v.last()
    }
}

/// The statistics of a non-empty sequence of values.
pub open spec fn stats_of(v: Seq<int>) -> StatsView {
    StatsView { min: seq_min(v), max: seq_max(v), sum: seq_sum(v), count: v.len() }
}

/// Taking in well-formed statistics keeps a table well formed.
pub proof fn lemma_absorb_wf(t: TableView, key: Seq<u8>, stats: StatsView)
    requires
        table_wf(t),
        stats.wf(),
    ensures
        table_wf(absorb_spec(t, key, stats)),
{
    if t.dom().contains(key) {
        lemma_combine_wf(t[key], stats);
    }
}

/// Merging keeps tables well formed.
pub proof fn lemma_merge_wf(a: TableView, b: TableView)
    requires
        table_wf(a),
        table_wf(b),
    ensures
        table_wf(merge_spec(a, b)),
{
    let m = merge_spec(a, b);
    assert(m.dom() =~= a.dom().union(b.dom()));
    vstd::set_lib::lemma_set_union_finite_iff(a.dom(), b.dom());
    assert forall|k: Seq<u8>| m.dom().contains(k) implies (#[trigger] m[k]).wf() by {
        if a.dom().contains(k) && b.dom().contains(k) {
            lemma_combine_wf(a[k], b[k]);
        }
    }
}

/// The table of any measurements is well formed.
pub proof fn lemma_aggregate_wf(obs: Seq<Observation>)
    ensures
        table_wf(aggregate(obs)),
    decreases obs.len(),
{
    if obs.len() > 0 {
        lemma_aggregate_wf(obs.drop_last());
        lemma_absorb_wf(aggregate(obs.drop_last()), obs.last().0, StatsView::single(obs.last().1));
    }
}

/// Merging is associative: `(a ∘ b) ∘ c` and `a ∘ (b ∘ c)` are the same
/// table.
pub proof fn lemma_merge_associative(a: TableView, b: TableView, c: TableView)
    ensures
        merge_spec(merge_spec(a, b), c) == merge_spec(a, merge_spec(b, c)),
{
    assert(merge_spec(merge_spec(a, b), c) =~= merge_spec(a, merge_spec(b, c)));
}

/// Merging is commutative.
pub proof fn lemma_merge_commutative(a: TableView, b: TableView)
    ensures
        merge_spec(a, b) == merge_spec(b, a),
{
    assert(merge_spec(a, b) =~= merge_spec(b, a));
}

/// Merging with the empty table changes nothing.
pub proof fn lemma_merge_empty(a: TableView)
    ensures
        merge_spec(a, Map::empty()) == a,
        merge_spec(Map::empty(), a) == a,
{
    assert(merge_spec(a, Map::empty()) =~= a);
    assert(merge_spec(Map::empty(), a) =~= a);
}

/// Taking statistics into the second of two merged tables is taking them
/// into the merged table.
pub proof fn lemma_merge_absorb(a: TableView, b: TableView, key: Seq<u8>, stats: StatsView)
    ensures
        merge_spec(a, absorb_spec(b, key, stats)) == absorb_spec(merge_spec(a, b), key, stats),
{
    assert(merge_spec(a, absorb_spec(b, key, stats)) =~= absorb_spec(
        merge_spec(a, b),
        key,
        stats,
    ));
}

/// The table of two runs of measurements, one after the other, is the merge
/// of their tables.
pub proof fn lemma_aggregate_concat(a: Seq<Observation>, b: Seq<Observation>)
    ensures
        aggregate(a + b) == merge_spec(aggregate(a), aggregate(b)),
    decreases b.len(),
{
    if b.len() == 0 {
        assert(a + b =~= a);
        lemma_merge_empty(aggregate(a));
    } else {
        assert((a + b).drop_last() =~= a + b.drop_last());
        lemma_aggregate_concat(a, b.drop_last());
        lemma_merge_absorb(
            aggregate(a),
            aggregate(b.drop_last()),
            b.last().0,
            StatsView::single(b.last().1),
        );
    }
}

/// The sum of the counts is the count of any one key and the sum over the
/// others.
pub proof fn lemma_total_count_split(t: TableView, key: Seq<u8>)
    requires
        t.dom().finite(),
        t.dom().contains(key),
    ensures
        total_count(t) == t[key].count + total_count(t.remove(key)),
    decreases t.dom().len(),
{
    let c = t.dom().choose();
    if c != key {
        lemma_total_count_split(t.remove(c), key);
        lemma_total_count_split(t.remove(key), c);
        assert(t.remove(c).remove(key) =~= t.remove(key).remove(c));
    }
}

/// Taking in statistics adds their count to the sum of the counts.
pub proof fn lemma_total_count_absorb(t: TableView, key: Seq<u8>, stats: StatsView)
    requires
        t.dom().finite(),
    ensures
        total_count(absorb_spec(t, key, stats)) == total_count(t) + stats.count,
{
    let u = absorb_spec(t, key, stats);
    lemma_total_count_split(u, key);
    if t.dom().contains(key) {
        lemma_total_count_split(t, key);
        assert(u.remove(key) =~= t.remove(key));
    } else {
        assert(u.remove(key) =~= t);
    }
}

/// Every measurement is counted once: the counts of the table of `obs` sum
/// to the number of measurements.
pub proof fn lemma_total_count_aggregate(obs: Seq<Observation>)
    ensures
        total_count(aggregate(obs)) == obs.len(),
    decreases obs.len(),
{
    if obs.len() > 0 {
        lemma_total_count_aggregate(obs.drop_last());
        lemma_aggregate_wf(obs.drop_last());
        lemma_total_count_absorb(
            aggregate(obs.drop_last()),
            obs.last().0,
            StatsView::single(obs.last().1),
        );
    }
}

/// No key of the table of `obs` has a count above the number of
/// measurements.
pub proof fn lemma_count_bound(obs: Seq<Observation>, key: Seq<u8>)
    requires
        aggregate(obs).dom().contains(key),
    ensures
        aggregate(obs)[key].count <= obs.len(),
{
    lemma_aggregate_wf(obs);
    lemma_total_count_aggregate(obs);
    lemma_total_count_split(aggregate(obs), key);
}

/// A key is in the table of `obs` exactly if it was measured, and its
/// statistics are then the least, the greatest, the sum and the number of
/// its measurements.
pub proof fn lemma_aggregate_key(obs: Seq<Observation>, key: Seq<u8>)
    ensures
        aggregate(obs).dom().contains(key) <==> values_of(obs, key).len() > 0,
        aggregate(obs).dom().contains(key) ==> aggregate(obs)[key] == stats_of(
            values_of(obs, key),
        ),
    decreases obs.len(),
{
    if obs.len() > 0 {
        let before = obs.drop_last();
        lemma_aggregate_key(before, key);
        if obs.last().0 == key {
            let v = values_of(obs, key);
            let w = values_of(before, key);
            assert(v.drop_last() =~= w);
            assert(v.last() == obs.last().1);
            assert(seq_sum(v) == seq_sum(w) + v.last());
            if w.len() == 0 {
                assert(seq_sum(w) == 0);
                assert(!aggregate(before).dom().contains(key));
            } else {
                assert(aggregate(before)[key] == stats_of(w));
            }
        }
    }
}

/// The least of some values is one of them and none is below it; likewise
/// the greatest.
pub proof fn lemma_seq_min_max(v: Seq<int>)
    requires
        v.len() > 0,
    ensures
        forall|i: int| 0 <= i < v.len() ==> seq_min(v) <= #[trigger] v[i] <= seq_max(v),
        exists|i: int| 0 <= i < v.len() && v[i] == seq_min(v),
        exists|i: int| 0 <= i < v.len() && v[i] == seq_max(v),
    decreases v.len(),
{
    if v.len() == 1 {
        assert(v[0] == seq_min(v) && v[0] == seq_max(v));
    } else {
        let w = v.drop_last();
        lemma_seq_min_max(w);
        let i = choose|i: int| 0 <= i < w.len() && w[i] == seq_min(w);
        let j = choose|j: int| 0 <= j < w.len() && w[j] == seq_max(w);
        assert(v[i] == w[i] && v[j] == w[j]);
        assert(v[v.len() - 1] == v.last());
        assert forall|k: int| 0 <= k < v.len() implies seq_min(v) <= #[trigger] v[k] <= seq_max(
            v,
        ) by {
            if k < w.len() {
                assert(v[k] == w[k]);
            }
        }
    }
}

/// A key with its statistics.
pub type Row = (Seq<u8>, StatsView);

/// No key occurs twice in the listing.
pub open spec fn distinct_keys(rows: Seq<Row>) -> bool {
    forall|i: int, j: int| 0 <= i < j < rows.len() ==> (#[trigger] rows[i]).0 != (#[trigger] rows[j]).0
}

/// The table that a listing of rows stands for.
pub open spec fn listing_map(rows: Seq<Row>) -> TableView
    decreases rows.len(),
{
    if rows.len() == 0 {
        Map::empty()
    } else {
        listing_map(rows.drop_last()).insert(rows.last().0, rows.last().1)
    }
}

/// The table of a listing without repeated keys holds exactly the listed
/// keys, each with the statistics listed for it.
pub proof fn lemma_listing_map(rows: Seq<Row>)
    requires
        distinct_keys(rows),
    ensures
        listing_map(rows).dom().finite(),
        forall|i: int|
            0 <= i < rows.len() ==> listing_map(rows).dom().contains((#[trigger] rows[i]).0)
                && listing_map(rows)[rows[i].0] == rows[i].1,
        forall|k: Seq<u8>|
            listing_map(rows).dom().contains(k) ==> exists|i: int|
                0 <= i < rows.len() && (#[trigger] rows[i]).0 == k,
    decreases rows.len(),
{
    if rows.len() > 0 {
        let before = rows.drop_last();
        let m = listing_map(rows);
        lemma_listing_map(before);
        assert forall|i: int| 0 <= i < rows.len() implies m.dom().contains(
            (#[trigger] rows[i]).0,
        ) && m[rows[i].0] == rows[i].1 by {
            if i < before.len() {
                assert(before[i] == rows[i]);
                assert(rows[i].0 != rows[rows.len() - 1].0);
            }
        }
        assert forall|k: Seq<u8>| m.dom().contains(k) implies exists|i: int|
            0 <= i < rows.len() && (#[trigger] rows[i]).0 == k by {
            if k == rows.last().0 {
                assert(rows[rows.len() - 1].0 == k);
            } else {
                let i = choose|i: int| 0 <= i < before.len() && (#[trigger] before[i]).0 == k;
                assert(rows[i].0 == k);
            }
        }
    }
}

/// The merge of a sequence of tables, from the first to the last.
pub open spec fn merge_all_spec(tables: Seq<TableView>) -> TableView
    decreases tables.len(),
{
    if tables.len() == 0 {
        Map::empty()
    } else {
        merge_spec(merge_all_spec(tables.drop_last()), tables.last())
    }
}

/// Merging a sequence of tables in two groups and then the two results
/// gives what merging them one after the other gives.
pub proof fn lemma_merge_all_concat(a: Seq<TableView>, b: Seq<TableView>)
    ensures
        merge_all_spec(a + b) == merge_spec(merge_all_spec(a), merge_all_spec(b)),
    decreases b.len(),
{
    if b.len() == 0 {
        assert(a + b =~= a);
        lemma_merge_empty(merge_all_spec(a));
    } else {
        assert((a + b).drop_last() =~= a + b.drop_last());
        assert((a + b).last() == b.last());
        lemma_merge_all_concat(a, b.drop_last());
        lemma_merge_associative(merge_all_spec(a), merge_all_spec(b.drop_last()), b.last());
    }
}

/// Merging lowers no count: where the counts of a merged table fit, those
/// of both tables did.
pub proof fn lemma_merge_counts(a: TableView, b: TableView)
    requires
        counts_fit(merge_spec(a, b)),
    ensures
        counts_fit(a),
        counts_fit(b),
{
    let m = merge_spec(a, b);
    assert forall|k: Seq<u8>| a.dom().contains(k) implies (#[trigger] a[k]).count <= u64::MAX by {
        assert(m.dom().contains(k));
        assert(m[k].count >= a[k].count);
    }
    assert forall|k: Seq<u8>| b.dom().contains(k) implies (#[trigger] b[k]).count <= u64::MAX by {
        assert(m.dom().contains(k));
        assert(m[k].count >= b[k].count);
    }
}

/// Merging three tables fails for a count in either grouping or in
/// neither: `(a ∘ b) ∘ c` has counts that fit at every step exactly if
/// `a ∘ (b ∘ c)` has.
pub proof fn lemma_merge_fits_either_way(a: TableView, b: TableView, c: TableView)
    ensures
        counts_fit(merge_spec(a, b)) && counts_fit(merge_spec(merge_spec(a, b), c)) <==> counts_fit(
            merge_spec(b, c),
        ) && counts_fit(merge_spec(a, merge_spec(b, c))),
{
    lemma_merge_associative(a, b, c);
    if counts_fit(merge_spec(merge_spec(a, b), c)) {
        lemma_merge_counts(merge_spec(a, b), c);
        lemma_merge_counts(a, merge_spec(b, c));
    }
}

/// Where the counts of the merge of all tables fit, so do those of the
/// merge of any run of them.
pub proof fn lemma_merge_all_counts(tables: Seq<TableView>, lo: int, hi: int)
    requires
        0 <= lo <= hi <= tables.len(),
        counts_fit(merge_all_spec(tables)),
    ensures
        counts_fit(merge_all_spec(tables.subrange(lo, hi))),
{
    let head = tables.subrange(0, lo);
    let mid = tables.subrange(lo, hi);
    let tail = tables.subrange(hi, tables.len() as int);
    assert(tables =~= (head + mid) + tail);
    lemma_merge_all_concat(head + mid, tail);
    lemma_merge_counts(merge_all_spec(head + mid), merge_all_spec(tail));
    lemma_merge_all_concat(head, mid);
    lemma_merge_counts(merge_all_spec(head), merge_all_spec(mid));
}

/// The keys of a listing, in its order.
pub open spec fn keys_of(rows: Seq<Row>) -> Seq<Seq<u8>> {
    Seq::new(rows.len(), |i: int| rows[i].0)
}

/// The listing that names the keys of `order` in that order, each with the
/// statistics that `table` has for it.
pub open spec fn rows_in_order(order: Seq<Seq<u8>>, table: TableView) -> Seq<Row> {
    Seq::new(order.len(), |i: int| (order[i], table[order[i]]))
}

/// The order of keys after `key` came: it is put last if it is new.
pub open spec fn append_new(order: Seq<Seq<u8>>, key: Seq<u8>) -> Seq<Seq<u8>> {
    if order.contains(key) {
        order
    } else {
        order.push(key)
    }
}

/// The order in which keys first came in a sequence of measurements.
pub open spec fn first_seen(obs: Seq<Observation>) -> Seq<Seq<u8>>
    decreases obs.len(),
{
    if obs.len() == 0 {
        Seq::empty()
    } else {
        append_new(first_seen(obs.drop_last()), obs.last().0)
    }
}

/// The order of keys of a merged table: the keys of the first table in its
/// order, then the keys that only the second has, in its order.
pub open spec fn merge_order(a: Seq<Seq<u8>>, b: Seq<Seq<u8>>) -> Seq<Seq<u8>>
    decreases b.len(),
{
    if b.len() == 0 {
        a
    } else {
        append_new(merge_order(a, b.drop_last()), b.last())
    }
}

/// The order of keys of the merge of a sequence of tables.
pub open spec fn merge_order_all(orders: Seq<Seq<Seq<u8>>>) -> Seq<Seq<u8>>
    decreases orders.len(),
{
    if orders.len() == 0 {
        Seq::empty()
    } else {
        merge_order(merge_order_all(orders.drop_last()), orders.last())
    }
}

/// A merged order holds the keys of both orders.
pub proof fn lemma_merge_order_contains(a: Seq<Seq<u8>>, b: Seq<Seq<u8>>, key: Seq<u8>)
    ensures
        merge_order(a, b).contains(key) <==> a.contains(key) || b.contains(key),
    decreases b.len(),
{
    if b.len() > 0 {
        let before = merge_order(a, b.drop_last());
        lemma_merge_order_contains(a, b.drop_last(), key);
        if b.contains(key) {
            let i = choose|i: int| 0 <= i < b.len() && b[i] == key;
            if i < b.len() - 1 {
                assert(b.drop_last()[i] == key);
            }
        }
        if b.drop_last().contains(key) {
            let i = choose|i: int| 0 <= i < b.drop_last().len() && b.drop_last()[i] == key;
            assert(b[i] == key);
        }
        assert(b[b.len() - 1] == b.last());
        if !before.contains(b.last()) {
            let after = before.push(b.last());
            assert(after[after.len() - 1] == b.last());
            if before.contains(key) {
                let i = choose|i: int| 0 <= i < before.len() && before[i] == key;
                assert(after[i] == key);
            }
            if after.contains(key) {
                let i = choose|i: int| 0 <= i < after.len() && after[i] == key;
                if i < before.len() {
                    assert(before[i] == key);
                }
            }
        }
    }
}

/// A key that comes to the second order comes to the merged order.
pub proof fn lemma_merge_order_append(a: Seq<Seq<u8>>, b: Seq<Seq<u8>>, key: Seq<u8>)
    ensures
        merge_order(a, append_new(b, key)) == append_new(merge_order(a, b), key),
{
    if b.contains(key) {
        lemma_merge_order_contains(a, b, key);
    } else {
        assert(b.push(key).drop_last() =~= b);
    }
}

/// The order in which keys first come in two runs of measurements, one
/// after the other, is the merged order of the two runs.
pub proof fn lemma_first_seen_concat(a: Seq<Observation>, b: Seq<Observation>)
    ensures
        first_seen(a + b) == merge_order(first_seen(a), first_seen(b)),
    decreases b.len(),
{
    if b.len() == 0 {
        assert(a + b =~= a);
    } else {
        assert((a + b).drop_last() =~= a + b.drop_last());
        assert((a + b).last() == b.last());
        lemma_first_seen_concat(a, b.drop_last());
        lemma_merge_order_append(first_seen(a), first_seen(b.drop_last()), b.last().0);
    }
}

/// Merging orders is associative.
pub proof fn lemma_merge_order_associative(a: Seq<Seq<u8>>, b: Seq<Seq<u8>>, c: Seq<Seq<u8>>)
    ensures
        merge_order(merge_order(a, b), c) == merge_order(a, merge_order(b, c)),
    decreases c.len(),
{
    if c.len() > 0 {
        lemma_merge_order_associative(a, b, c.drop_last());
        lemma_merge_order_append(a, merge_order(b, c.drop_last()), c.last());
    }
}

/// An order without repeated keys, merged into the empty order, is itself.
pub proof fn lemma_merge_order_empty(b: Seq<Seq<u8>>)
    requires
        b.no_duplicates(),
    ensures
        merge_order(Seq::empty(), b) == b,
    decreases b.len(),
{
    if b.len() > 0 {
        let before = b.drop_last();
        assert(before.no_duplicates()) by {
            assert forall|i: int, j: int|
                0 <= i < before.len() && 0 <= j < before.len() && i != j implies before[i]
                != before[j] by {
                assert(before[i] == b[i] && before[j] == b[j]);
            }
        }
        lemma_merge_order_empty(before);
        if before.contains(b.last()) {
            let i = choose|i: int| 0 <= i < before.len() && before[i] == b.last();
            assert(b[i] == b[b.len() - 1]);
        }
        assert(before.push(b.last()) =~= b);
    } else {
        assert(b =~= Seq::empty());
    }
}

/// Merging the orders of a sequence of tables in two groups and then the
/// two results gives what merging them one after the other gives.
pub proof fn lemma_merge_order_all_concat(a: Seq<Seq<Seq<u8>>>, b: Seq<Seq<Seq<u8>>>)
    ensures
        merge_order_all(a + b) == merge_order(merge_order_all(a), merge_order_all(b)),
    decreases b.len(),
{
    if b.len() == 0 {
        assert(a + b =~= a);
    } else {
        assert((a + b).drop_last() =~= a + b.drop_last());
        assert((a + b).last() == b.last());
        lemma_merge_order_all_concat(a, b.drop_last());
        lemma_merge_order_associative(merge_order_all(a), merge_order_all(b.drop_last()), b.last());
    }
}

} // verus!
