//! Merging many tables into one, one after the other or as a tree.

use vstd::prelude::*;
use crate::model::{
    counts_fit, lemma_merge_all_concat, lemma_merge_all_counts, lemma_merge_empty,
    lemma_merge_order_all_concat, lemma_merge_order_empty, merge_all_spec, merge_order_all,
    TableView,
};
use crate::stats::{CountOverflow, StatsView};
use crate::table::Table;

verus! {

/// The tables as mathematical maps.
pub open spec fn table_views(tables: Seq<Table>) -> Seq<TableView> {
    Seq::new(tables.len(), |i: int| tables[i]@)
}

/// The orders in which the tables list their keys.
pub open spec fn table_orders(tables: Seq<Table>) -> Seq<Seq<Seq<u8>>> {
    Seq::new(tables.len(), |i: int| tables[i].order())
}

/// Every table is well formed.
pub open spec fn all_wf(tables: Seq<Table>) -> bool {
    forall|i: int| 0 <= i < tables.len() ==> (#[trigger] tables[i]).wf()
}

/// Merges the tables from `lo` up to `hi` into one, in order. Fails where
/// the count of some key would exceed `u64::MAX`.
pub fn merge_range(tables: &[Table], lo: usize, hi: usize) -> (r: Result<Table, CountOverflow>)
    requires
        lo <= hi <= tables@.len(),
        all_wf(tables@),
    ensures
        r is Ok <==> counts_fit(merge_all_spec(table_views(tables@).subrange(lo as int, hi as int))),
        r matches Ok(t) ==> t.wf() && t@ == merge_all_spec(
            table_views(tables@).subrange(lo as int, hi as int),
        ) && t.order() == merge_order_all(table_orders(tables@).subrange(lo as int, hi as int)),
{
    let ghost views = table_views(tables@);
    let ghost orders = table_orders(tables@);
    let mut acc: Table = Table::new();
    let mut j: usize = lo;
    proof {
        assert(views.subrange(lo as int, lo as int) =~= Seq::<TableView>::empty());
        assert(orders.subrange(lo as int, lo as int) =~= Seq::<Seq<Seq<u8>>>::empty());
    }
    while j < hi
        invariant
            lo <= j <= hi <= tables@.len(),
            all_wf(tables@),
            views == table_views(tables@),
            acc.wf(),
            acc@ == merge_all_spec(views.subrange(lo as int, j as int)),
            orders == table_orders(tables@),
            acc.order() == merge_order_all(orders.subrange(lo as int, j as int)),
        decreases hi - j,
    {
        let ghost group = views.subrange(lo as int, hi as int);
        proof {
            assert(views.subrange(lo as int, j + 1).drop_last() =~= views.subrange(
                lo as int,
                j as int,
            ));
            assert(views.subrange(lo as int, j + 1).last() == tables@[j as int]@);
            assert(orders.subrange(lo as int, j + 1).drop_last() =~= orders.subrange(
                lo as int,
                j as int,
            ));
            assert(orders.subrange(lo as int, j + 1).last() == tables@[j as int].order());
            assert(group.subrange(0, j + 1 - lo) =~= views.subrange(lo as int, j + 1));
            if counts_fit(merge_all_spec(group)) {
                lemma_merge_all_counts(group, 0, j + 1 - lo);
            }
        }
        match acc.merge(&tables[j]) {
            Ok(t) => {
                acc = t;
            },
            Err(e) => {
                return Err(e);
            },
        }
        j += 1;
    }
    proof {
        acc.lemma_listing();
    }
    Ok(acc)
}

/// Merges all tables into one, in order. Fails where the count of some key
/// would exceed `u64::MAX`.
pub fn merge_all(tables: &[Table]) -> (r: Result<Table, CountOverflow>)
    requires
        all_wf(tables@),
    ensures
        r is Ok <==> counts_fit(merge_all_spec(table_views(tables@))),
        r matches Ok(t) ==> t.wf() && t@ == merge_all_spec(table_views(tables@)) && t.order()
            == merge_order_all(table_orders(tables@)),
{
    proof {
        let views = table_views(tables@);
        let orders = table_orders(tables@);
        assert(views.subrange(0, views.len() as int) =~= views);
        assert(orders.subrange(0, orders.len() as int) =~= orders);
    }
    merge_range(tables, 0, tables.len())
}

/// Merges all tables into one as a tree: groups of `fan_in` neighbours are
/// merged, then groups of the results, until one table is left. The result
/// is that of merging them in order. Fails where the count of some key would
/// exceed `u64::MAX`.
pub fn reduce(tables: Vec<Table>, fan_in: usize) -> (r: Result<Table, CountOverflow>)
    requires
        fan_in >= 2,
        all_wf(tables@),
    ensures
        r is Ok <==> counts_fit(merge_all_spec(table_views(tables@))),
        r matches Ok(t) ==> t.wf() && t@ == merge_all_spec(table_views(tables@)) && t.order()
            == merge_order_all(table_orders(tables@)),
{
    let ghost goal = merge_all_spec(table_views(tables@));
    let ghost order_goal = merge_order_all(table_orders(tables@));
    let mut level: Vec<Table> = tables;
    while level.len() > 1
        invariant
            fan_in >= 2,
            all_wf(level@),
            merge_all_spec(table_views(level@)) == goal,
            goal == merge_all_spec(table_views(tables@)),
            merge_order_all(table_orders(level@)) == order_goal,
            order_goal == merge_order_all(table_orders(tables@)),
        decreases level.len(),
    {
        let n: usize = level.len();
        let ghost views = table_views(level@);
        let ghost orders = table_orders(level@);
        let mut next: Vec<Table> = Vec::new();
        let mut i: usize = 0;
        proof {
            assert(views.take(0) =~= Seq::<TableView>::empty());
            assert(table_views(next@) =~= Seq::<TableView>::empty());
            assert(orders.take(0) =~= Seq::<Seq<Seq<u8>>>::empty());
            assert(table_orders(next@) =~= Seq::<Seq<Seq<u8>>>::empty());
        }
        while i < n
            invariant
                fan_in >= 2,
                i <= n,
                n == level@.len(),
                views == table_views(level@),
                all_wf(level@),
                all_wf(next@),
                merge_all_spec(views) == goal,
                goal == merge_all_spec(table_views(tables@)),
                merge_all_spec(table_views(next@)) == merge_all_spec(views.take(i as int)),
                orders == table_orders(level@),
                merge_order_all(orders) == order_goal,
                order_goal == merge_order_all(table_orders(tables@)),
                merge_order_all(table_orders(next@)) == merge_order_all(orders.take(i as int)),
                2 * next@.len() <= i + 1,
                i < n ==> 2 * next@.len() <= i,
            decreases n - i,
        {
            let j: usize = if n - i > fan_in { i + fan_in } else { n };
            proof {
                if counts_fit(goal) {
                    lemma_merge_all_counts(views, i as int, j as int);
                }
                assert(views.take(j as int) =~= views.take(i as int) + views.subrange(
                    i as int,
                    j as int,
                ));
                lemma_merge_all_concat(views.take(i as int), views.subrange(i as int, j as int));
                assert(orders.take(j as int) =~= orders.take(i as int) + orders.subrange(
                    i as int,
                    j as int,
                ));
                lemma_merge_order_all_concat(
                    orders.take(i as int),
                    orders.subrange(i as int, j as int),
                );
            }
            match merge_range(level.as_slice(), i, j) {
                Err(e) => {
                    return Err(e);
                },
                Ok(t) => {
                    let ghost before = table_views(next@);
                    let ghost orders_before = table_orders(next@);
                    next.push(t);
                    proof {
                        assert(table_views(next@).drop_last() =~= before);
                        assert(table_views(next@).last() == t@);
                        assert(table_orders(next@).drop_last() =~= orders_before);
                        assert(table_orders(next@).last() == t.order());
                    }
                },
            }
            i = j;
        }
        proof {
            assert(views.take(n as int) =~= views);
            assert(orders.take(n as int) =~= orders);
        }
        level = next;
    }
    proof {
        let views = table_views(level@);
        let orders = table_orders(level@);
        let none = Seq::<TableView>::empty();
        let no_orders = Seq::<Seq<Seq<u8>>>::empty();
        assert(merge_all_spec(none) == Map::<Seq<u8>, StatsView>::empty());
        assert(merge_order_all(no_orders) == Seq::<Seq<u8>>::empty());
        if level@.len() == 1 {
            assert(views.drop_last() =~= none);
            assert(views.last() == level@[0]@);
            lemma_merge_empty(level@[0]@);
            assert(goal == level@[0]@);
            level@[0].lemma_listing();
            assert(orders.drop_last() =~= no_orders);
            assert(orders.last() == level@[0].order());
            lemma_merge_order_empty(level@[0].order());
        } else {
            assert(views =~= none);
            assert(orders =~= no_orders);
            assert(counts_fit(goal));
        }
    }
    match level.pop() {
        Some(t) => Ok(t),
        None => Ok(Table::new()),
    }
}

} // verus!
