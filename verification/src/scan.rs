//! Scanning the lines that a partition owns.
//!
//! A line belongs to the partition that holds the terminator of the line
//! before it; the first line belongs to the first partition. A partition
//! other than the first therefore passes over everything up to the first
//! terminator at or after its start, and every partition reads on past its
//! end until the line that starts at or before it is complete.
//!
//! A partition may instead be given a quota of lines. It then starts in the
//! same way, reads that many lines, or as many as there are, and pays no
//! heed to its end. Lines of unequal length are then read twice or not at
//! all, unless each quota is the number of lines that the partition owns.

use vstd::prelude::*;
use vstd::slice::slice_subrange;
use crate::bytes::{find_byte, find_from, lemma_find_byte};
use crate::line::{parse_line, parse_line_spec, LineError};
use crate::model::{aggregate, first_seen, lemma_count_bound, Observation, TableView};
use crate::plan::Partition;
use crate::table::Table;

verus! {

/// The line feed, which ends a line.
pub const NEWLINE: u8 = 10;

/// The carriage return, which may stand before the line feed.
pub const RETURN: u8 = 13;

/// A line that was rejected: why, and the offset of its first byte.
#[derive(Clone, Copy, Debug, PartialEq, Eq, Structural)]
pub struct ScanError {
    pub kind: LineError,
    pub offset: usize,
}

/// Whether a line starts at `p`: at the first byte, or behind a terminator,
/// and before the end of the input.
pub open spec fn starts_line(s: Seq<u8>, p: int) -> bool {
    0 <= p < s.len() && (p == 0 || s[p - 1] == 10)
}

/// The offsets in `[lo, hi)` at which a line starts, in rising order.
pub open spec fn starts_in(s: Seq<u8>, lo: int, hi: int) -> Seq<int>
    decreases hi - lo,
{
    if hi <= lo {
        Seq::empty()
    } else if starts_line(s, hi - 1) {
        starts_in(s, lo, hi - 1).push(hi - 1)
    } else {
        starts_in(s, lo, hi - 1)
    }
}

/// The offsets of all lines of the input.
pub open spec fn all_starts(s: Seq<u8>) -> Seq<int> {
    starts_in(s, 0, s.len() as int)
}

/// The least offset at which a line of the partition can start: the first
/// byte for the first partition, for any other the byte behind its start.
pub open spec fn first_offset(part: Partition) -> int {
    if part.index == 0 {
        0
    } else {
        part.start + 1
    }
}

/// The offsets of the lines that a partition owns: those that start behind
/// its first byte, up to and including the byte at its end. The first
/// partition also owns the line at its first byte.
pub open spec fn owned_starts(s: Seq<u8>, part: Partition) -> Seq<int> {
    starts_in(s, first_offset(part), part.end + 1)
}

/// The offsets of the lines that a partition reads: without a quota those
/// that it owns, with a quota the first so many of the lines that start at
/// or behind its first offset, or all of them where there are fewer.
pub open spec fn assigned_starts(s: Seq<u8>, part: Partition, quota: Option<usize>) -> Seq<int> {
    match quota {
        None => owned_starts(s, part),
        Some(q) => {
            let all = starts_in(s, first_offset(part), s.len() as int);
            if q < all.len() {
                all.take(q as int)
            } else {
                all
            }
        },
    }
}

/// The line that starts at `p`, without its terminator: the bytes up to the
/// next line feed, and where there is one, without a carriage return just
/// before it.
pub open spec fn line_at(s: Seq<u8>, p: int) -> Seq<u8> {
    let end = find_byte(s, 10, p);
    if p < end < s.len() && s[end - 1] == 13 {
        s.subrange(p, end - 1)
    } else {
        s.subrange(p, end)
    }
}

/// The measurements that the well-formed lines at `starts` hold, in order.
pub open spec fn observations(s: Seq<u8>, starts: Seq<int>) -> Seq<Observation>
    decreases starts.len(),
{
    if starts.len() == 0 {
        Seq::empty()
    } else {
        match parse_line_spec(line_at(s, starts.last())) {
            Ok((key, value)) => observations(s, starts.drop_last()).push((key, value as int)),
            Err(_) => observations(s, starts.drop_last()),
        }
    }
}

/// The first of the lines at `starts` that is rejected, if any is.
pub open spec fn first_failure(s: Seq<u8>, starts: Seq<int>) -> Option<ScanError>
    decreases starts.len(),
{
    if starts.len() == 0 {
        None
    } else {
        match first_failure(s, starts.drop_last()) {
            Some(e) => Some(e),
            None => match parse_line_spec(line_at(s, starts.last())) {
                Ok(_) => None,
                Err(kind) => Some(ScanError { kind, offset: starts.last() as usize }),
            },
        }
    }
}

/// What scanning the lines at `starts` gives: the first rejected line, or
/// the table of all their measurements.
pub open spec fn scan_spec(s: Seq<u8>, starts: Seq<int>) -> Result<TableView, ScanError> {
    match first_failure(s, starts) {
        Some(e) => Err(e),
        None => Ok(aggregate(observations(s, starts))),
    }
}

/// The line starts of a range are those of its two halves.
pub proof fn lemma_starts_split(s: Seq<u8>, lo: int, mid: int, hi: int)
    requires
        lo <= mid <= hi,
    ensures
        starts_in(s, lo, hi) == starts_in(s, lo, mid) + starts_in(s, mid, hi),
    decreases hi - mid,
{
    if mid < hi {
        lemma_starts_split(s, lo, mid, hi - 1);
        if starts_line(s, hi - 1) {
            assert(starts_in(s, lo, hi) =~= starts_in(s, lo, mid) + starts_in(s, mid, hi));
        }
    } else {
        assert(starts_in(s, lo, hi) =~= starts_in(s, lo, mid) + starts_in(s, mid, hi));
    }
}

/// A range in which no line starts has no line starts.
pub proof fn lemma_no_starts(s: Seq<u8>, lo: int, hi: int)
    requires
        forall|p: int| lo <= p < hi ==> !starts_line(s, p),
    ensures
        starts_in(s, lo, hi) == Seq::<int>::empty(),
    decreases hi - lo,
{
    if lo < hi {
        lemma_no_starts(s, lo, hi - 1);
    }
}

/// Every line start of a range lies in it, and there are no more of them
/// than the range has bytes.
pub proof fn lemma_starts_bounds(s: Seq<u8>, lo: int, hi: int)
    ensures
        starts_in(s, lo, hi).len() <= if hi > lo { hi - lo } else { 0 },
        forall|i: int|
            0 <= i < starts_in(s, lo, hi).len() ==> {
                let p = #[trigger] starts_in(s, lo, hi)[i];
                lo <= p < hi && starts_line(s, p)
            },
    decreases hi - lo,
{
    if lo < hi {
        lemma_starts_bounds(s, lo, hi - 1);
    }
}

/// The line starts of a range rise strictly: none is listed twice.
pub proof fn lemma_starts_increasing(s: Seq<u8>, lo: int, hi: int)
    ensures
        forall|i: int, j: int|
            0 <= i < j < starts_in(s, lo, hi).len() ==> starts_in(s, lo, hi)[i] < starts_in(
                s,
                lo,
                hi,
            )[j],
    decreases hi - lo,
{
    if lo < hi {
        lemma_starts_increasing(s, lo, hi - 1);
        lemma_starts_bounds(s, lo, hi - 1);
    }
}

/// Behind `from`, the next line starts behind the first terminator at or
/// after `from`.
pub proof fn lemma_skip(s: Seq<u8>, from: int, hi: int)
    requires
        0 <= from,
    ensures
        starts_in(s, from + 1, hi) == starts_in(s, find_byte(s, 10, from) + 1, hi),
{
    let next = find_byte(s, 10, from) + 1;
    if from >= s.len() {
        lemma_no_starts(s, from + 1, hi);
        lemma_no_starts(s, next, hi);
    } else {
        lemma_find_byte(s, 10, from);
        if next >= hi {
            lemma_no_starts(s, from + 1, hi);
            lemma_no_starts(s, next, hi);
        } else {
            lemma_starts_split(s, from + 1, next, hi);
            lemma_no_starts(s, from + 1, next);
            assert(Seq::<int>::empty() + starts_in(s, next, hi) =~= starts_in(s, next, hi));
        }
    }
}

/// From a line start, the line starts are that one and those behind its
/// terminator.
pub proof fn lemma_starts_step(s: Seq<u8>, p: int, hi: int)
    requires
        starts_line(s, p),
        p < hi,
    ensures
        starts_in(s, p, hi) == seq![p] + starts_in(s, find_byte(s, 10, p) + 1, hi),
{
    lemma_starts_split(s, p, p + 1, hi);
    lemma_skip(s, p, hi);
    assert(starts_in(s, p, p) =~= Seq::<int>::empty());
    assert(starts_in(s, p, p + 1) =~= seq![p]);
}

/// The measurements of two runs of lines are those of the first followed by
/// those of the second, and the first rejected line is that of the first
/// run, or else that of the second.
pub proof fn lemma_scan_concat(s: Seq<u8>, a: Seq<int>, b: Seq<int>)
    ensures
        observations(s, a + b) == observations(s, a) + observations(s, b),
        first_failure(s, a + b) == match first_failure(s, a) {
            Some(e) => Some(e),
            None => first_failure(s, b),
        },
    decreases b.len(),
{
    if b.len() == 0 {
        assert(a + b =~= a);
        assert(observations(s, a) + observations(s, b) =~= observations(s, a));
    } else {
        assert((a + b).drop_last() =~= a + b.drop_last());
        assert((a + b).last() == b.last());
        lemma_scan_concat(s, a, b.drop_last());
        assert(observations(s, a + b) =~= observations(s, a) + observations(s, b));
    }
}

/// There are no more measurements than lines.
pub proof fn lemma_observations_len(s: Seq<u8>, starts: Seq<int>)
    ensures
        observations(s, starts).len() <= starts.len(),
        first_failure(s, starts) is None ==> observations(s, starts).len() == starts.len(),
    decreases starts.len(),
{
    if starts.len() > 0 {
        lemma_observations_len(s, starts.drop_last());
    }
}

/// No line starts at or behind the end of the input.
pub proof fn lemma_starts_past_end(s: Seq<u8>, lo: int, hi: int)
    requires
        lo <= s.len() <= hi,
    ensures
        starts_in(s, lo, hi) == starts_in(s, lo, s.len() as int),
{
    lemma_starts_split(s, lo, s.len() as int, hi);
    lemma_no_starts(s, s.len() as int, hi);
    assert(starts_in(s, lo, s.len() as int) + Seq::<int>::empty() =~= starts_in(
        s,
        lo,
        s.len() as int,
    ));
}

/// The lines that a partition owns are the first of those that start at or
/// behind its first offset: a quota of their number assigns exactly them.
pub proof fn lemma_quota_of_owned(s: Seq<u8>, part: Partition, quota: usize)
    requires
        quota == owned_starts(s, part).len(),
    ensures
        assigned_starts(s, part, Some(quota)) == owned_starts(s, part),
{
    let lo = first_offset(part);
    let n = s.len() as int;
    let all = starts_in(s, lo, n);
    let owned = owned_starts(s, part);
    if part.end + 1 >= n {
        if lo <= n {
            lemma_starts_past_end(s, lo, part.end + 1);
        } else {
            lemma_no_starts(s, lo, part.end + 1);
            lemma_no_starts(s, lo, n);
        }
    } else if lo <= part.end + 1 {
        lemma_starts_split(s, lo, part.end + 1, n);
        assert(all.take(owned.len() as int) =~= owned);
        assert(all.len() == owned.len() ==> all =~= owned);
    } else {
        lemma_no_starts(s, lo, part.end + 1);
        assert(all.take(0) =~= Seq::<int>::empty());
    }
}

/// Scans the lines that `part` reads, by its range or by a quota of lines,
/// and gives their table, or the first of them that is rejected. The first
/// partition reads from the first byte of the input.
pub fn scan_partition(data: &[u8], part: &Partition, quota: Option<usize>) -> (r: Result<
    Table,
    ScanError,
>)
    ensures
        match r {
            Ok(t) => t.wf() && scan_spec(data@, assigned_starts(data@, *part, quota)) == Ok::<
                TableView,
                ScanError,
            >(t@) && t.order() == first_seen(
                observations(data@, assigned_starts(data@, *part, quota)),
            ),
            Err(e) => scan_spec(data@, assigned_starts(data@, *part, quota)) == Err::<
                TableView,
                ScanError,
            >(e),
        },
{
    let n: usize = data.len();
    let last: usize = match quota {
        Some(_) => usize::MAX,
        None => part.end,
    };
    let limit: usize = match quota {
        Some(q) => q,
        None => usize::MAX,
    };
    let ghost s = data@;
    let ghost lo: int = first_offset(*part);
    let ghost hi: int = last + 1;
    let ghost reach = starts_in(s, lo, hi);
    let ghost assigned = assigned_starts(s, *part, quota);
    let mut pos: usize = 0;
    if part.index != 0 {
        let first: usize = find_from(data, NEWLINE, part.start);
        proof {
            lemma_skip(s, part.start as int, hi);
            if part.start <= n {
                lemma_find_byte(s, 10, part.start as int);
            }
            lemma_no_starts(s, n as int, hi);
            lemma_no_starts(s, n + 1, hi);
        }
        pos = if first >= n { n } else { first + 1 };
    }
    let mut table: Table = Table::new();
    let mut taken: usize = 0;
    let ghost mut done: Seq<int> = Seq::empty();
    proof {
        assert(reach =~= done + starts_in(s, pos as int, hi));
    }
    while pos < n && pos <= last && taken < limit
        invariant
            n == s.len(),
            s == data@,
            hi == last + 1,
            lo == first_offset(*part),
            reach == starts_in(s, lo, hi),
            assigned == assigned_starts(s, *part, quota),
            quota matches Some(q) ==> limit == q && last == usize::MAX,
            quota is None ==> limit == usize::MAX && last == part.end,
            pos <= n,
            pos < n ==> starts_line(s, pos as int),
            reach == done + starts_in(s, pos as int, hi),
            done.len() == taken,
            taken <= pos,
            taken <= limit,
            first_failure(s, done) is None,
            table.wf(),
            table@ == aggregate(observations(s, done)),
            table.order() == first_seen(observations(s, done)),
        decreases n - pos,
    {
        let end: usize = find_from(data, NEWLINE, pos);
        let ghost rest = starts_in(s, end + 1, hi);
        let ghost now = done.push(pos as int);
        proof {
            lemma_find_byte(s, 10, pos as int);
            lemma_starts_step(s, pos as int, hi);
            assert(now.drop_last() =~= done);
            assert(now.last() == pos);
            assert(reach =~= now + rest);
            lemma_no_starts(s, n as int, hi);
            lemma_no_starts(s, n + 1, hi);
        }
        let stop: usize = if pos < end && end < n && data[end - 1] == RETURN {
            end - 1
        } else {
            end
        };
        match parse_line(slice_subrange(data, pos, stop)) {
            Err(kind) => {
                proof {
                    lemma_assigned_prefix(s, *part, quota, now, rest);
                    let tail = choose|tail: Seq<int>| assigned == now + tail;
                    lemma_scan_concat(s, now, tail);
                }
                return Err(ScanError { kind, offset: pos });
            },
            Ok((key, value)) => {
                proof {
                    lemma_observations_len(s, done);
                    if table@.dom().contains(key@) {
                        lemma_count_bound(observations(s, done), key@);
                    }
                }
                let recorded = table.record(key, value);
                assert(recorded is Ok);
                proof {
                    let before = observations(s, done);
                    let after = before.push((key@, value as int));
                    assert(observations(s, now) == after);
                    assert(after.drop_last() =~= before);
                }
            },
        }
        proof {
            done = now;
        }
        taken = taken + 1;
        pos = if end >= n { n } else { end + 1 };
    }
    proof {
        lemma_assigned_prefix(s, *part, quota, done, starts_in(s, pos as int, hi));
        if pos >= n || pos > last {
            lemma_no_starts(s, pos as int, hi);
            assert(reach =~= done);
        }
    }
    Ok(table)
}

/// What a scan has read is the beginning of what the partition is assigned,
/// and all of it once the quota is used up or no line is left.
proof fn lemma_assigned_prefix(
    s: Seq<u8>,
    part: Partition,
    quota: Option<usize>,
    done: Seq<int>,
    rest: Seq<int>,
)
    requires
        s.len() <= usize::MAX,
        done + rest == starts_in(
            s,
            first_offset(part),
            if quota is Some {
                usize::MAX + 1
            } else {
                part.end + 1
            },
        ),
        quota matches Some(q) ==> done.len() <= q,
    ensures
        exists|tail: Seq<int>| assigned_starts(s, part, quota) == done + tail,
        rest.len() == 0 ==> assigned_starts(s, part, quota) == done,
        quota == Some(done.len() as usize) ==> assigned_starts(s, part, quota) == done,
{
    let lo = first_offset(part);
    let assigned = assigned_starts(s, part, quota);
    match quota {
        None => {
            assert(assigned == done + rest);
            if rest.len() == 0 {
                assert(done + rest =~= done);
            }
        },
        Some(q) => {
            let all = starts_in(s, lo, s.len() as int);
            if lo <= s.len() {
                lemma_starts_past_end(s, lo, usize::MAX + 1);
            } else {
                lemma_no_starts(s, lo, usize::MAX + 1);
                lemma_no_starts(s, lo, s.len() as int);
            }
            assert(all == done + rest);
            if q < all.len() {
                let tail = rest.take(q - done.len());
                assert(all.take(q as int) =~= done + tail);
                if q == done.len() {
                    assert(all.take(q as int) =~= done);
                }
            } else {
                assert(assigned == done + rest);
                if rest.len() == 0 || q == done.len() {
                    assert(done + rest =~= done);
                }
            }
        },
    }
}

} // verus!
