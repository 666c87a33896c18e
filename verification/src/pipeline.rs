//! The whole run: plan the partitions, scan each, merge the tables.

use vstd::prelude::*;
use crate::model::{
    aggregate, counts_fit, first_seen, lemma_aggregate_concat, lemma_aggregate_key,
    lemma_count_bound, lemma_first_seen_concat, lemma_total_count_aggregate, merge_all_spec,
    merge_order_all, rows_in_order, stats_of, total_count, values_of, Row, TableView,
};
use crate::output::{format_table, report_spec};
use crate::plan::{lemma_plan_covers, plan, plan_spec, Partition};
use crate::reduce::{all_wf, reduce, table_orders, table_views};
use crate::scan::{
    all_starts, assigned_starts, first_failure, lemma_observations_len, lemma_scan_concat,
    lemma_quota_of_owned, lemma_starts_bounds, lemma_starts_past_end, lemma_starts_split,
    observations, owned_starts,
    scan_partition, scan_spec, starts_in, ScanError,
};
use crate::table::Table;

verus! {

/// The number of partitions where no other is asked for.
pub const DEFAULT_PARTITIONS: usize = 16;

/// How many tables are merged at a time.
pub const FAN_IN: usize = 4;

/// The parameters of a run.
#[derive(Clone, Copy, Debug, PartialEq, Eq, Structural)]
pub struct Config {
    /// The number of partitions, at least one.
    pub partition_count: usize,
    /// The expected number of lines. Without it every partition reads the
    /// lines that it owns. With it every partition reads its share of that
    /// many lines, the first partition one more; lines beyond the shares
    /// are not read, and lines of unequal length may be read twice.
    pub line_count_hint: Option<usize>,
}

impl Config {
    /// There is at least one partition.
    pub open spec fn wf(self) -> bool {
        self.partition_count >= 1
    }

    /// The parameters, if there is at least one partition.
    pub fn new(partition_count: usize, line_count_hint: Option<usize>) -> (r: Option<Config>)
        ensures
            r is Some <==> partition_count >= 1,
            r matches Some(c) ==> c == (Config { partition_count, line_count_hint }),
    {
        if partition_count >= 1 {
            Some(Config { partition_count, line_count_hint })
        } else {
            None
        }
    }
}

/// Why a run failed.
#[derive(Clone, Copy, Debug, PartialEq, Eq, Structural)]
pub enum RunError {
    /// A line was rejected.
    Rejected(ScanError),
    /// Lines were read so often that the count of a key exceeds `u64::MAX`.
    CountOverflow,
}

/// The quota of lines of the partition at `index`: none without a hint,
/// else the hint divided by the number of partitions, and one more for the
/// first partition.
pub open spec fn quota_spec(config: Config, index: int) -> Option<usize> {
    match config.line_count_hint {
        None => None,
        Some(hint) => {
            let share = hint / config.partition_count;
            if index == 0 && share < usize::MAX {
                Some((share + 1) as usize)
            } else {
                Some(share)
            }
        },
    }
}

/// The quota of lines of the partition at `index`.
pub fn quota_of(config: &Config, index: usize) -> (quota: Option<usize>)
    requires
        config.wf(),
    ensures
        quota == quota_spec(*config, index as int),
{
    match config.line_count_hint {
        None => None,
        Some(hint) => {
            let share: usize = hint / config.partition_count;
            if index == 0 && share < usize::MAX {
                Some(share + 1)
            } else {
                Some(share)
            }
        },
    }
}

/// The offsets of the lines that the first `upto` partitions read, one
/// partition after the other.
pub open spec fn planned_starts(s: Seq<u8>, parts: Seq<Partition>, config: Config, upto: int) -> Seq<
    int,
>
    decreases upto,
{
    if upto <= 0 {
        Seq::empty()
    } else {
        planned_starts(s, parts, config, upto - 1) + assigned_starts(
            s,
            parts[upto - 1],
            quota_spec(config, upto - 1),
        )
    }
}

/// The tables of the first `upto` partitions.
pub open spec fn partition_tables(
    s: Seq<u8>,
    parts: Seq<Partition>,
    config: Config,
    upto: int,
) -> Seq<TableView>
    decreases upto,
{
    if upto <= 0 {
        Seq::empty()
    } else {
        partition_tables(s, parts, config, upto - 1).push(
            aggregate(
                observations(s, assigned_starts(s, parts[upto - 1], quota_spec(config, upto - 1))),
            ),
        )
    }
}

/// The offsets of the lines that a run reads, partition by partition.
pub open spec fn run_starts(s: Seq<u8>, config: Config) -> Seq<int> {
    planned_starts(
        s,
        plan_spec(s.len() as usize, config.partition_count),
        config,
        config.partition_count as int,
    )
}

/// What a run gives: the first rejected line of the first partition that has
/// one, or the table of all measurements read, unless a count in it exceeds
/// `u64::MAX`.
pub open spec fn run_spec(s: Seq<u8>, config: Config) -> Result<TableView, RunError> {
    match first_failure(s, run_starts(s, config)) {
        Some(e) => Err(RunError::Rejected(e)),
        None => {
            let table = aggregate(observations(s, run_starts(s, config)));
            if counts_fit(table) {
                Ok(table)
            } else {
                Err(RunError::CountOverflow)
            }
        },
    }
}

/// The listing of the table of the lines at `starts`: every key once, in
/// the order in which the keys first come, with its statistics.
pub open spec fn listing_of(s: Seq<u8>, starts: Seq<int>) -> Seq<Row> {
    rows_in_order(first_seen(observations(s, starts)), aggregate(observations(s, starts)))
}

/// The listing of the table that a run gives.
pub open spec fn run_listing(s: Seq<u8>, config: Config) -> Seq<Row> {
    listing_of(s, run_starts(s, config))
}

/// The merge of the partitions' tables is the table of the lines that the
/// partitions read.
pub proof fn lemma_partition_tables(s: Seq<u8>, parts: Seq<Partition>, config: Config, upto: int)
    ensures
        merge_all_spec(partition_tables(s, parts, config, upto)) == aggregate(
            observations(s, planned_starts(s, parts, config, upto)),
        ),
    decreases upto,
{
    if upto > 0 {
        let before = planned_starts(s, parts, config, upto - 1);
        let here = assigned_starts(s, parts[upto - 1], quota_spec(config, upto - 1));
        let tables = partition_tables(s, parts, config, upto);
        lemma_partition_tables(s, parts, config, upto - 1);
        assert(tables.drop_last() =~= partition_tables(s, parts, config, upto - 1));
        lemma_scan_concat(s, before, here);
        lemma_aggregate_concat(observations(s, before), observations(s, here));
    }
}

/// A rejected line among the lines of the first partitions is the first
/// rejected line of all.
pub proof fn lemma_failure_stays(
    s: Seq<u8>,
    parts: Seq<Partition>,
    config: Config,
    from: int,
    upto: int,
)
    requires
        0 <= from <= upto,
        first_failure(s, planned_starts(s, parts, config, from)) is Some,
    ensures
        first_failure(s, planned_starts(s, parts, config, upto)) == first_failure(
            s,
            planned_starts(s, parts, config, from),
        ),
    decreases upto - from,
{
    if from < upto {
        lemma_failure_stays(s, parts, config, from, upto - 1);
        lemma_scan_concat(
            s,
            planned_starts(s, parts, config, upto - 1),
            assigned_starts(s, parts[upto - 1], quota_spec(config, upto - 1)),
        );
    }
}

/// The partitions follow one another: only the first has index 0, none ends
/// before it starts, and each starts where the one before it ends.
pub open spec fn chained(parts: Seq<Partition>) -> bool {
    forall|i: int|
        0 <= i < parts.len() ==> {
            let p = #[trigger] parts[i];
            &&& p.index == 0 <==> i == 0
            &&& p.start <= p.end
            &&& i > 0 ==> p.start == parts[i - 1].end
        }
}

/// Wherever the cuts fall, the first `upto` of partitions that follow one
/// another own, in order, the lines that start up to and including the end
/// of the last of them: each such line is owned by exactly one of them.
pub proof fn lemma_chained_ranges(s: Seq<u8>, parts: Seq<Partition>, config: Config, upto: int)
    requires
        chained(parts),
        config.line_count_hint is None,
        0 <= upto <= parts.len(),
    ensures
        planned_starts(s, parts, config, upto) == starts_in(
            s,
            0,
            if upto == 0 {
                0
            } else {
                parts[upto - 1].end + 1
            },
        ),
    decreases upto,
{
    if upto > 0 {
        lemma_chained_ranges(s, parts, config, upto - 1);
        let part = parts[upto - 1];
        let from: int = if upto == 1 { 0 } else { parts[upto - 2].end + 1 };
        assert(owned_starts(s, part) == starts_in(s, from, part.end + 1));
        lemma_starts_split(s, 0, from, part.end + 1);
    }
}

/// Wherever the cuts fall, partitions that follow one another up to the end
/// of the input own every line of the input exactly once.
pub proof fn lemma_any_cuts(s: Seq<u8>, parts: Seq<Partition>, config: Config)
    requires
        chained(parts),
        config.line_count_hint is None,
        parts.len() >= 1,
        parts.last().end >= s.len(),
    ensures
        planned_starts(s, parts, config, parts.len() as int) == all_starts(s),
{
    lemma_chained_ranges(s, parts, config, parts.len() as int);
    lemma_starts_past_end(s, 0, parts.last().end + 1);
}

/// Without a hint a run reads every line of the input once, in order,
/// whatever the number of partitions.
pub proof fn lemma_run_covers(s: Seq<u8>, config: Config)
    requires
        s.len() <= usize::MAX,
        config.wf(),
        config.line_count_hint is None,
    ensures
        run_starts(s, config) == all_starts(s),
        counts_fit(aggregate(observations(s, all_starts(s)))),
{
    let count = config.partition_count;
    lemma_plan_covers(s.len() as usize, count);
    lemma_any_cuts(s, plan_spec(s.len() as usize, count), config);
    let obs = observations(s, all_starts(s));
    let table = aggregate(obs);
    assert forall|k: Seq<u8>| table.dom().contains(k) implies (#[trigger] table[k]).count
        <= u64::MAX by {
        lemma_count_bound(obs, k);
        lemma_observations_len(s, all_starts(s));
        lemma_starts_bounds(s, 0, s.len() as int);
    }
}

/// Without a hint the result of a run does not depend on the number of
/// partitions.
pub proof fn lemma_partition_invariance(s: Seq<u8>, p: usize, q: usize)
    requires
        s.len() <= usize::MAX,
        p >= 1,
        q >= 1,
    ensures
        run_spec(s, Config { partition_count: p, line_count_hint: None }) == run_spec(
            s,
            Config { partition_count: q, line_count_hint: None },
        ),
{
    lemma_run_covers(s, Config { partition_count: p, line_count_hint: None });
    lemma_run_covers(s, Config { partition_count: q, line_count_hint: None });
}

/// Without a hint, where no line is rejected, the counts of the final table
/// sum to the number of lines of the input, whatever the number of
/// partitions.
pub proof fn lemma_every_line_counted(s: Seq<u8>, config: Config)
    requires
        s.len() <= usize::MAX,
        config.wf(),
        config.line_count_hint is None,
        first_failure(s, all_starts(s)) is None,
    ensures
        run_spec(s, config) is Ok,
        total_count(run_spec(s, config)->Ok_0) == all_starts(s).len(),
{
    lemma_run_covers(s, config);
    lemma_observations_len(s, all_starts(s));
    lemma_total_count_aggregate(observations(s, all_starts(s)));
}

/// Without a hint, where no line is rejected, a key is in the final table
/// exactly if a line holds it, and its statistics are the least, the
/// greatest, the sum and the number of its measurements, whatever the
/// number of partitions.
pub proof fn lemma_key_statistics(s: Seq<u8>, config: Config, key: Seq<u8>)
    requires
        s.len() <= usize::MAX,
        config.wf(),
        config.line_count_hint is None,
        first_failure(s, all_starts(s)) is None,
    ensures
        run_spec(s, config) is Ok,
        run_spec(s, config)->Ok_0.dom().contains(key) <==> values_of(
            observations(s, all_starts(s)),
            key,
        ).len() > 0,
        run_spec(s, config)->Ok_0.dom().contains(key) ==> run_spec(s, config)->Ok_0[key]
            == stats_of(values_of(observations(s, all_starts(s)), key)),
{
    lemma_run_covers(s, config);
    lemma_aggregate_key(observations(s, all_starts(s)), key);
}

/// Wherever a cut falls, at the first byte, within a line or on a
/// terminator, each line of the input is owned by exactly one of the two
/// partitions that the cut parts: their lines, one after the other, are the
/// lines of the input.
pub proof fn lemma_boundary(s: Seq<u8>, cut: usize)
    requires
        cut <= s.len() <= usize::MAX,
    ensures
        owned_starts(s, Partition { index: 0, start: 0, end: cut }) + owned_starts(
            s,
            Partition { index: 1, start: cut, end: s.len() as usize },
        ) == all_starts(s),
{
    lemma_starts_split(s, 0, cut + 1, s.len() as int + 1);
    lemma_starts_past_end(s, 0, s.len() as int + 1);
}

/// With a hint of at least the number of lines, a run with one partition
/// reads every line of the input once.
pub proof fn lemma_single_partition_hint(s: Seq<u8>, hint: usize)
    requires
        s.len() <= usize::MAX,
        hint >= all_starts(s).len(),
    ensures
        run_starts(s, Config { partition_count: 1, line_count_hint: Some(hint) }) == all_starts(
            s,
        ),
{
    let config = Config { partition_count: 1, line_count_hint: Some(hint) };
    let parts = plan_spec(s.len() as usize, 1);
    lemma_plan_covers(s.len() as usize, 1);
    assert(planned_starts(s, parts, config, 0) =~= Seq::<int>::empty());
    assert(hint / 1 == hint);
    let here = assigned_starts(s, parts[0], quota_spec(config, 0));
    assert(here == all_starts(s));
    assert(Seq::<int>::empty() + here =~= here);
}

/// Whether the quota of the partition at `index` is the number of lines
/// that the partition owns.
pub open spec fn quota_is_owned(s: Seq<u8>, config: Config, index: int) -> bool {
    match quota_spec(config, index) {
        Some(q) => q == owned_starts(
            s,
            plan_spec(s.len() as usize, config.partition_count)[index],
        ).len(),
        None => false,
    }
}

/// With a hint under which the quota of every partition is the number of
/// lines that it owns, the first `upto` partitions read what they read
/// without a hint.
pub proof fn lemma_exact_quotas_planned(s: Seq<u8>, config: Config, upto: int)
    requires
        0 <= upto <= config.partition_count,
        forall|i: int| 0 <= i < config.partition_count ==> #[trigger] quota_is_owned(s, config, i),
    ensures
        planned_starts(s, plan_spec(s.len() as usize, config.partition_count), config, upto)
            == planned_starts(
            s,
            plan_spec(s.len() as usize, config.partition_count),
            Config { partition_count: config.partition_count, line_count_hint: None },
            upto,
        ),
    decreases upto,
{
    if upto > 0 {
        lemma_exact_quotas_planned(s, config, upto - 1);
        let part = plan_spec(s.len() as usize, config.partition_count)[upto - 1];
        assert(quota_is_owned(s, config, upto - 1));
        let q = quota_spec(config, upto - 1)->Some_0;
        lemma_quota_of_owned(s, part, q);
    }
}

/// With a hint under which the quota of every partition is the number of
/// lines that it owns, a run reads every line of the input once, in order.
pub proof fn lemma_exact_quotas(s: Seq<u8>, config: Config)
    requires
        s.len() <= usize::MAX,
        config.wf(),
        forall|i: int| 0 <= i < config.partition_count ==> #[trigger] quota_is_owned(s, config, i),
    ensures
        run_starts(s, config) == all_starts(s),
{
    lemma_exact_quotas_planned(s, config, config.partition_count as int);
    lemma_run_covers(s, Config { partition_count: config.partition_count, line_count_hint: None });
}

/// Runs the whole pipeline on the input: plans the partitions, scans each
/// in turn, and merges their tables as a tree.
pub fn run(data: &[u8], config: &Config) -> (r: Result<Table, RunError>)
    requires
        config.wf(),
    ensures
        match r {
            Ok(t) => t.wf() && run_spec(data@, *config) == Ok::<TableView, RunError>(t@)
                && t.listing() == run_listing(data@, *config),
            Err(e) => run_spec(data@, *config) == Err::<TableView, RunError>(e),
        },
        config.line_count_hint is None ==> match r {
            Ok(t) => scan_spec(data@, all_starts(data@)) == Ok::<TableView, ScanError>(t@)
                && t.listing() == listing_of(data@, all_starts(data@)),
            Err(RunError::Rejected(e)) => scan_spec(data@, all_starts(data@)) == Err::<
                TableView,
                ScanError,
            >(e),
            Err(RunError::CountOverflow) => false,
        },
{
    let n: usize = data.len();
    let count: usize = config.partition_count;
    let parts: Vec<Partition> = plan(n, count);
    let ghost s = data@;
    let ghost planned = plan_spec(n, count);
    let mut tables: Vec<Table> = Vec::new();
    let mut i: usize = 0;
    proof {
        assert(table_views(tables@) =~= partition_tables(s, planned, *config, 0));
        assert(table_orders(tables@) =~= Seq::<Seq<Seq<u8>>>::empty());
    }
    while i < count
        invariant
            i <= count,
            count == config.partition_count,
            count >= 1,
            n == s.len(),
            s == data@,
            parts@ == planned,
            planned == plan_spec(n, count),
            tables@.len() == i,
            all_wf(tables@),
            table_views(tables@) == partition_tables(s, planned, *config, i as int),
            merge_order_all(table_orders(tables@)) == first_seen(
                observations(s, planned_starts(s, planned, *config, i as int)),
            ),
            first_failure(s, planned_starts(s, planned, *config, i as int)) is None,
        decreases count - i,
    {
        let part: Partition = parts[i];
        let quota: Option<usize> = quota_of(config, i);
        proof {
            lemma_plan_covers(n, count);
            lemma_scan_concat(
                s,
                planned_starts(s, planned, *config, i as int),
                assigned_starts(s, part, quota),
            );
        }
        match scan_partition(data, &part, quota) {
            Err(e) => {
                proof {
                    lemma_failure_stays(s, planned, *config, i + 1, count as int);
                    if config.line_count_hint is None {
                        lemma_run_covers(s, *config);
                    }
                }
                return Err(RunError::Rejected(e));
            },
            Ok(t) => {
                let ghost before = table_views(tables@);
                let ghost orders = table_orders(tables@);
                tables.push(t);
                proof {
                    assert(table_views(tables@) =~= before.push(t@));
                    assert(table_orders(tables@).drop_last() =~= orders);
                    assert(table_orders(tables@).last() == t.order());
                    lemma_first_seen_concat(
                        observations(s, planned_starts(s, planned, *config, i as int)),
                        observations(s, assigned_starts(s, part, quota)),
                    );
                }
            },
        }
        i += 1;
    }
    proof {
        lemma_partition_tables(s, planned, *config, count as int);
        if config.line_count_hint is None {
            lemma_run_covers(s, *config);
        }
    }
    match reduce(tables, FAN_IN) {
        Ok(t) => {
            proof {
                t.lemma_listing();
            }
            Ok(t)
        },
        Err(_) => Err(RunError::CountOverflow),
    }
}

/// Runs the whole pipeline on the input and gives the report: one line per
/// key, in the order in which the keys first come.
pub fn report(data: &[u8], config: &Config) -> (r: Result<Vec<u8>, RunError>)
    requires
        config.wf(),
    ensures
        match r {
            Ok(out) => run_spec(data@, *config) is Ok && out@ == report_spec(
                run_listing(data@, *config),
            ),
            Err(e) => run_spec(data@, *config) == Err::<TableView, RunError>(e),
        },
        config.line_count_hint is None ==> match r {
            Ok(out) => first_failure(data@, all_starts(data@)) is None && out@ == report_spec(
                listing_of(data@, all_starts(data@)),
            ),
            Err(RunError::Rejected(e)) => first_failure(data@, all_starts(data@)) == Some(e),
            Err(RunError::CountOverflow) => false,
        },
{
    match run(data, config) {
        Ok(table) => Ok(format_table(&table)),
        Err(e) => Err(e),
    }
}

} // verus!
