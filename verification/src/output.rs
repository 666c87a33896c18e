//! The report: one line per key, `key,min,max,mean`.

use vstd::prelude::*;
use crate::measure::{append_measurement, render_spec};
use crate::model::Row;
use crate::stats::{Stats, StatsView};
use crate::table::Table;

verus! {

/// The byte `,`, which parts the fields of a report line.
pub const COMMA: u8 = 44;

/// The report line of a key, without a terminator: the key, its least and
/// its greatest measurement and its mean, each with one fractional digit.
pub open spec fn line_spec(key: Seq<u8>, stats: StatsView) -> Seq<u8> {
    key + seq![44u8] + render_spec(stats.min) + seq![44u8] + render_spec(stats.max) + seq![44u8]
        + render_spec(stats.mean())
}

/// The report of a listing: the line of each row, in order, each ended by a
/// line feed.
pub open spec fn report_spec(rows: Seq<Row>) -> Seq<u8>
    decreases rows.len(),
{
    if rows.len() == 0 {
        Seq::empty()
    } else {
        report_spec(rows.drop_last()) + line_spec(rows.last().0, rows.last().1) + seq![10u8]
    }
}

/// Appends `bytes` to `out`.
pub fn append_bytes(out: &mut Vec<u8>, bytes: &[u8])
    ensures
        final(out)@ == old(out)@ + bytes@,
{
    let n: usize = bytes.len();
    let mut i: usize = 0;
    proof {
        assert(out@ =~= old(out)@ + bytes@.take(0));
    }
    while i < n
        invariant
            i <= n,
            n == bytes@.len(),
            out@ == old(out)@ + bytes@.take(i as int),
        decreases n - i,
    {
        out.push(bytes[i]);
        proof {
            assert(out@ =~= old(out)@ + bytes@.take(i + 1));
        }
        i += 1;
    }
    proof {
        assert(bytes@.take(n as int) =~= bytes@);
    }
}

/// Appends the report line of a key to `out`, without a terminator.
pub fn append_line(out: &mut Vec<u8>, key: &[u8], stats: &Stats)
    requires
        stats.wf(),
    ensures
        final(out)@ == old(out)@ + line_spec(key@, stats@),
{
    append_bytes(out, key);
    out.push(COMMA);
    append_measurement(out, stats.min());
    out.push(COMMA);
    append_measurement(out, stats.max());
    out.push(COMMA);
    append_measurement(out, stats.mean());
    proof {
        assert(out@ =~= old(out)@ + line_spec(key@, stats@));
    }
}

/// The report line of a key, without a terminator.
pub fn format_line(key: &[u8], stats: &Stats) -> (out: Vec<u8>)
    requires
        stats.wf(),
    ensures
        out@ == line_spec(key@, stats@),
{
    let mut out: Vec<u8> = Vec::new();
    append_line(&mut out, key, stats);
    proof {
        assert(out@ =~= line_spec(key@, stats@));
    }
    out
}

/// The report of a table: the line of each key, in the order of the table's
/// listing, each ended by a line feed.
pub fn format_table(table: &Table) -> (out: Vec<u8>)
    requires
        table.wf(),
    ensures
        out@ == report_spec(table.listing()),
{
    let n: usize = table.len();
    let ghost rows = table.listing();
    let mut out: Vec<u8> = Vec::new();
    let mut i: usize = 0;
    proof {
        assert(rows.take(0) =~= Seq::<Row>::empty());
    }
    while i < n
        invariant
            i <= n,
            n == rows.len(),
            rows == table.listing(),
            table.wf(),
            out@ == report_spec(rows.take(i as int)),
        decreases n - i,
    {
        let stats: Stats = table.stats_at(i);
        append_line(&mut out, table.key_at(i), &stats);
        out.push(10u8);
        proof {
            assert(rows.take(i + 1).drop_last() =~= rows.take(i as int));
            assert(rows.take(i + 1).last() == rows[i as int]);
        }
        i += 1;
    }
    proof {
        assert(rows.take(n as int) =~= rows);
    }
    out
}

} // verus!
