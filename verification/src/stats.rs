//! The statistics kept for one key: least and greatest measurement, their
//! sum, and how many there were.

use vstd::prelude::*;

verus! {

/// The statistics of one key as mathematical values.
pub struct StatsView {
    pub min: int,
    pub max: int,
    pub sum: int,
    pub count: nat,
}

impl StatsView {
    /// At least one measurement was taken, and the sum lies between `count`
    /// times the least and `count` times the greatest of them.
    pub open spec fn wf(self) -> bool {
        &&& self.count >= 1
        &&& self.min <= self.max
        &&& self.min * self.count <= self.sum <= self.max * self.count
    }

    /// The statistics of a single measurement.
    pub open spec fn single(value: int) -> StatsView {
        StatsView { min: value, max: value, sum: value, count: 1 }
    }

    /// The statistics of two disjoint sets of measurements taken together.
    pub open spec fn combine(self, other: StatsView) -> StatsView {
        StatsView {
            min: if other.min < self.min { other.min } else { self.min },
            max: if other.max > self.max { other.max } else { self.max },
            sum: self.sum + other.sum,
            count: self.count + other.count,
        }
    }

    /// The statistics after one more measurement.
    pub open spec fn record(self, value: int) -> StatsView {
        self.combine(StatsView::single(value))
    }

    /// The mean in tenths, rounded to the nearest tenth, a half upwards.
    pub open spec fn mean(self) -> int {
        (2 * self.sum + self.count) / (2 * self.count as int)
    }
}

/// A count would exceed `u64::MAX`.
#[derive(Clone, Copy, Debug, PartialEq, Eq)]
pub struct CountOverflow;

/// The statistics of one key. Measurements are in tenths.
#[derive(Clone, Copy, Debug)]
pub struct Stats {
    min: i64,
    max: i64,
    sum: i128,
    count: u64,
}

impl View for Stats {
    type V = StatsView;

    closed spec fn view(&self) -> StatsView {
        StatsView {
            min: self.min as int,
            max: self.max as int,
            sum: self.sum as int,
            count: self.count as nat,
        }
    }
}

proof fn lemma_scale_le(a: int, b: int, c: int)
    requires
        a <= b,
        0 <= c,
    ensures
        a * c <= b * c,
{
    assert(a * c <= b * c) by (nonlinear_arith)
        requires
            a <= b,
            0 <= c,
    ;
}

proof fn lemma_widen_le(b: int, c: int, d: int)
    requires
        0 <= c <= d,
        0 <= b,
    ensures
        b * c <= b * d,
{
    assert(b * c <= b * d) by (nonlinear_arith)
        requires
            0 <= c <= d,
            0 <= b,
    ;
}

/// Combining keeps statistics well formed.
pub proof fn lemma_combine_wf(a: StatsView, b: StatsView)
    requires
        a.wf(),
        b.wf(),
    ensures
        a.combine(b).wf(),
{
    let c = a.combine(b);
    lemma_scale_le(c.min, a.min, a.count as int);
    lemma_scale_le(c.min, b.min, b.count as int);
    lemma_scale_le(a.max, c.max, a.count as int);
    lemma_scale_le(b.max, c.max, b.count as int);
    assert(c.min * c.count == c.min * a.count + c.min * b.count) by (nonlinear_arith)
        requires
            c.count == a.count + b.count,
    ;
    assert(c.max * c.count == c.max * a.count + c.max * b.count) by (nonlinear_arith)
        requires
            c.count == a.count + b.count,
    ;
}

/// Combining is associative.
pub proof fn lemma_combine_associative(a: StatsView, b: StatsView, c: StatsView)
    ensures
        a.combine(b).combine(c) == a.combine(b.combine(c)),
{
}

/// Combining is commutative.
pub proof fn lemma_combine_commutative(a: StatsView, b: StatsView)
    ensures
        a.combine(b) == b.combine(a),
{
}

/// The rounded mean lies between the least and the greatest measurement.
pub proof fn lemma_mean_bounds(s: StatsView)
    requires
        s.wf(),
    ensures
        s.min <= s.mean() <= s.max,
{
    let n: int = 2 * s.sum + s.count;
    let d: int = 2 * (s.count as int);
    assert(s.min * d == 2 * (s.min * s.count)) by (nonlinear_arith)
        requires
            d == 2 * s.count,
    ;
    assert(s.max * d == 2 * (s.max * s.count)) by (nonlinear_arith)
        requires
            d == 2 * s.count,
    ;
    assert((s.max + 1) * d == s.max * d + d) by (nonlinear_arith);
    vstd::arithmetic::div_mod::lemma_fundamental_div_mod(n, d);
    let q = n / d;
    assert(d * q + n % d == n);
    assert(0 <= n % d < d);
    if q < s.min {
        assert(d * q <= d * (s.min - 1)) by (nonlinear_arith)
            requires
                q <= s.min - 1,
                d > 0,
        ;
        assert(d * (s.min - 1) == s.min * d - d) by (nonlinear_arith);
    }
    if q > s.max {
        assert(d * q >= d * (s.max + 1)) by (nonlinear_arith)
            requires
                q >= s.max + 1,
                d > 0,
        ;
        assert(d * (s.max + 1) == s.max * d + d) by (nonlinear_arith);
    }
}

proof fn lemma_sum_fits(s: StatsView)
    requires
        s.wf(),
        i64::MIN <= s.min,
        s.max <= i64::MAX,
        s.count <= u64::MAX,
    ensures
        i128::MIN < s.sum < i128::MAX,
{
    let c = s.count as int;
    if s.max >= 0 {
        lemma_widen_le(s.max, c, u64::MAX as int);
        lemma_scale_le(s.max, i64::MAX as int, u64::MAX as int);
    } else {
        assert(s.max * c <= 0) by (nonlinear_arith)
            requires
                s.max < 0,
                c >= 0,
        ;
    }
    if s.min <= 0 {
        lemma_widen_le(-s.min, c, u64::MAX as int);
        lemma_scale_le(-s.min, -(i64::MIN as int), u64::MAX as int);
        assert((-s.min) * c == -(s.min * c)) by (nonlinear_arith);
    } else {
        assert(s.min * c >= 0) by (nonlinear_arith)
            requires
                s.min > 0,
                c >= 0,
        ;
    }
}

proof fn lemma_rounded_quotient(n: int, d: int, q: int, r: int)
    requires
        d > 0,
        0 <= r < d,
        n == q * d + r,
    ensures
        n / d == q,
{
    vstd::arithmetic::div_mod::lemma_fundamental_div_mod_converse(n, d, q, r);
}

impl Stats {
    /// Whether the statistics are those of at least one measurement.
    pub open spec fn wf(&self) -> bool {
        self@.wf()
    }

    /// The count of statistics that are held fits a `u64`.
    pub proof fn lemma_count_fits(&self)
        ensures
            self@.count <= u64::MAX,
            i64::MIN <= self@.min <= i64::MAX,
            i64::MIN <= self@.max <= i64::MAX,
    {
    }

    /// The statistics of a single measurement.
    pub fn single(value: i64) -> (r: Stats)
        ensures
            r.wf(),
            r@ == StatsView::single(value as int),
    {
        let r = Stats { min: value, max: value, sum: value as i128, count: 1 };
        proof {
            assert(value * 1 == value as int);
        }
        r
    }

    /// Takes in the statistics of other measurements of the same key. Fails,
    /// and changes nothing, where the count would exceed `u64::MAX`.
    pub fn combine(&mut self, other: &Stats) -> (r: Result<(), CountOverflow>)
        requires
            old(self).wf(),
            other.wf(),
        ensures
            final(self).wf(),
            r is Err <==> old(self)@.count + other@.count > u64::MAX,
            r is Ok ==> final(self)@ == old(self)@.combine(other@),
            r is Err ==> *final(self) == *old(self),
    {
        if other.count > u64::MAX - self.count {
            return Err(CountOverflow);
        }
        proof {
            lemma_combine_wf(self@, other@);
            lemma_sum_fits(self@.combine(other@));
        }
        if other.min < self.min {
            self.min = other.min;
        }
        if other.max > self.max {
            self.max = other.max;
        }
        self.sum = self.sum + other.sum;
        self.count = self.count + other.count;
        Ok(())
    }

    /// Takes in one more measurement. Fails, and changes nothing, where the
    /// count would exceed `u64::MAX`.
    pub fn record(&mut self, value: i64) -> (r: Result<(), CountOverflow>)
        requires
            old(self).wf(),
        ensures
            final(self).wf(),
            r is Err <==> old(self)@.count + 1 > u64::MAX,
            r is Ok ==> final(self)@ == old(self)@.record(value as int),
            r is Err ==> *final(self) == *old(self),
    {
        let one = Stats::single(value);
        self.combine(&one)
    }

    /// The least measurement, in tenths.
    pub fn min(&self) -> (r: i64)
        ensures
            r == self@.min,
    {
        self.min
    }

    /// The greatest measurement, in tenths.
    pub fn max(&self) -> (r: i64)
        ensures
            r == self@.max,
    {
        self.max
    }

    /// The sum of the measurements, in tenths.
    pub fn sum(&self) -> (r: i128)
        ensures
            r == self@.sum,
    {
        self.sum
    }

    /// The number of measurements.
    pub fn count(&self) -> (r: u64)
        ensures
            r == self@.count,
    {
        self.count
    }

    /// The mean in tenths, rounded to the nearest tenth, a half upwards.
    pub fn mean(&self) -> (r: i64)
        requires
            self.wf(),
        ensures
            r == self@.mean(),
    {
        proof {
            lemma_sum_fits(self@);
        }
        let c: u128 = self.count as u128;
        let ghost n: int = 2 * self.sum + self.count;
        let ghost d: int = 2 * (self.count as int);
        let rounded: i128 = if self.sum >= 0 {
            let m: u128 = self.sum as u128;
            let q: u128 = m / c;
            let r: u128 = m % c;
            proof {
                vstd::arithmetic::div_mod::lemma_fundamental_div_mod(m as int, c as int);
                assert(q * d == 2 * (c * q)) by (nonlinear_arith)
                    requires
                        d == 2 * c,
                ;
                assert((q + 1) * d == 2 * (c * q) + d) by (nonlinear_arith)
                    requires
                        d == 2 * c,
                ;
                assert(q <= m) by (nonlinear_arith)
                    requires
                        m == c * q + r,
                        c >= 1,
                        r >= 0,
                        q >= 0,
                ;
            }
            if 2 * r >= c {
                proof {
                    lemma_rounded_quotient(n, d, q + 1, 2 * r - c);
                }
                q as i128 + 1
            } else {
                proof {
                    lemma_rounded_quotient(n, d, q as int, 2 * r + c);
                }
                q as i128
            }
        } else {
            let m: u128 = (-self.sum) as u128;
            let q: u128 = m / c;
            let r: u128 = m % c;
            proof {
                vstd::arithmetic::div_mod::lemma_fundamental_div_mod(m as int, c as int);
                assert((-q) * d == -2 * (c * q)) by (nonlinear_arith)
                    requires
                        d == 2 * c,
                ;
                assert((-q - 1) * d == -2 * (c * q) - d) by (nonlinear_arith)
                    requires
                        d == 2 * c,
                ;
                assert(q <= m) by (nonlinear_arith)
                    requires
                        m == c * q + r,
                        c >= 1,
                        r >= 0,
                        q >= 0,
                ;
            }
            if 2 * r > c {
                proof {
                    lemma_rounded_quotient(n, d, -q - 1, 3 * c - 2 * r);
                }
                -(q as i128) - 1
            } else {
                proof {
                    lemma_rounded_quotient(n, d, -(q as int), c - 2 * r);
                }
                -(q as i128)
            }
        };
        proof {
            lemma_mean_bounds(self@);
        }
        rounded as i64
    }
}

} // verus!
