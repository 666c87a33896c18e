//! Decimal measurements, held as a whole number of tenths.
//!
//! The text form is an optional `-`, one or more digits, and optionally a
//! `.` followed by exactly one digit.

use vstd::prelude::*;

verus! {

/// The byte `-`.
pub const MINUS: u8 = 45;

/// The byte `.`.
pub const POINT: u8 = 46;

/// The byte `0`.
pub const ZERO: u8 = 48;

/// The largest whole part whose tenfold may still fit an `i64`.
pub const WHOLE_CAP: u64 = 922337203685477580;

/// Why a text is not a measurement.
#[derive(Clone, Copy, Debug, PartialEq, Eq, Structural)]
pub enum NumberError {
    /// The text is not of the form `-?[0-9]+(\.[0-9])?`.
    Malformed,
    /// The text is a decimal number whose tenths do not fit an `i64`.
    OutOfRange,
}

pub open spec fn is_digit(b: u8) -> bool {
    48 <= b <= 57
}

pub open spec fn all_digits(s: Seq<u8>) -> bool {
    forall|i: int| 0 <= i < s.len() ==> is_digit(#[trigger] s[i])
}

/// The number that a string of digits denotes in base ten.
pub open spec fn digits_value(s: Seq<u8>) -> int
    decreases s.len(),
{
    if s.len() == 0 {
        0
    } else {
        10 * digits_value(s.drop_last()) + (s.last() - 48)
    }
}

pub open spec fn is_negative(s: Seq<u8>) -> bool {
    s.len() > 0 && s[0] == 45
}

/// The text without its sign.
pub open spec fn unsigned_part(s: Seq<u8>) -> Seq<u8> {
    if is_negative(s) {
        s.subrange(1, s.len() as int)
    } else {
        s
    }
}

/// Whether an unsigned text ends in a point and one more byte.
pub open spec fn has_fraction(s: Seq<u8>) -> bool {
    s.len() >= 2 && s[s.len() - 2] == 46
}

/// The part of an unsigned text before the point.
pub open spec fn whole_part(s: Seq<u8>) -> Seq<u8> {
    if has_fraction(s) {
        s.subrange(0, s.len() - 2)
    } else {
        s
    }
}

/// Whether a text is a decimal number with at most one fractional digit.
pub open spec fn is_decimal(s: Seq<u8>) -> bool {
    let u = unsigned_part(s);
    &&& whole_part(u).len() >= 1
    &&& all_digits(whole_part(u))
    &&& has_fraction(u) ==> is_digit(u.last())
}

/// The tenths that a decimal text denotes.
pub open spec fn decimal_tenths(s: Seq<u8>) -> int {
    let u = unsigned_part(s);
    let magnitude = 10 * digits_value(whole_part(u)) + if has_fraction(u) {
        u.last() - 48
    } else {
        0
    };
    if is_negative(s) {
        -magnitude
    } else {
        magnitude
    }
}

/// What parsing a text as a measurement gives.
pub open spec fn parse_measurement_spec(s: Seq<u8>) -> Result<i64, NumberError> {
    if !is_decimal(s) {
        Err(NumberError::Malformed)
    } else if i64::MIN <= decimal_tenths(s) <= i64::MAX {
        Ok(decimal_tenths(s) as i64)
    } else {
        Err(NumberError::OutOfRange)
    }
}

proof fn lemma_digits_value_step(s: Seq<u8>, lo: int, i: int)
    requires
        0 <= lo <= i < s.len(),
    ensures
        digits_value(s.subrange(lo, i + 1)) == 10 * digits_value(s.subrange(lo, i)) + (s[i] - 48),
{
    assert(s.subrange(lo, i + 1).drop_last() =~= s.subrange(lo, i));
}

proof fn lemma_all_digits_step(s: Seq<u8>, lo: int, i: int)
    requires
        0 <= lo <= i < s.len(),
        all_digits(s.subrange(lo, i)),
        is_digit(s[i]),
    ensures
        all_digits(s.subrange(lo, i + 1)),
{
    let t = s.subrange(lo, i + 1);
    assert forall|j: int| 0 <= j < t.len() implies is_digit(#[trigger] t[j]) by {
        if j < i - lo {
            assert(t[j] == s.subrange(lo, i)[j]);
        }
    }
}

proof fn lemma_not_all_digits(s: Seq<u8>, lo: int, i: int, hi: int)
    requires
        0 <= lo <= i < hi <= s.len(),
        !is_digit(s[i]),
    ensures
        !all_digits(s.subrange(lo, hi)),
{
    assert(s.subrange(lo, hi)[i - lo] == s[i]);
}

/// Reads the digits of `text` from `lo` up to `hi`: `None` where a byte is no
/// digit, else their value, or `None` in its place where it exceeds
/// `WHOLE_CAP`.
fn read_digits(text: &[u8], lo: usize, hi: usize) -> (r: Option<Option<u64>>)
    requires
        lo <= hi <= text@.len(),
    ensures
        r is Some <==> all_digits(text@.subrange(lo as int, hi as int)),
        r matches Some(Some(v)) ==> v == digits_value(text@.subrange(lo as int, hi as int)) && v
            <= WHOLE_CAP,
        r == Some(None::<u64>) ==> digits_value(text@.subrange(lo as int, hi as int)) > WHOLE_CAP,
{
    let mut i: usize = lo;
    let mut acc: u64 = 0;
    let mut big: bool = false;
    proof {
        assert(text@.subrange(lo as int, lo as int) =~= Seq::<u8>::empty());
    }
    while i < hi
        invariant
            lo <= i <= hi <= text@.len(),
            all_digits(text@.subrange(lo as int, i as int)),
            !big ==> acc == digits_value(text@.subrange(lo as int, i as int)) && acc <= WHOLE_CAP,
            big ==> digits_value(text@.subrange(lo as int, i as int)) > WHOLE_CAP,
        decreases hi - i,
    {
        let b: u8 = text[i];
        if !(b >= 48 && b <= 57) {
            proof {
                lemma_not_all_digits(text@, lo as int, i as int, hi as int);
            }
            return None;
        }
        proof {
            lemma_digits_value_step(text@, lo as int, i as int);
            lemma_all_digits_step(text@, lo as int, i as int);
        }
        if !big {
            acc = acc * 10 + (b - 48) as u64;
            if acc > WHOLE_CAP {
                big = true;
            }
        }
        i += 1;
    }
    if big {
        Some(None)
    } else {
        Some(Some(acc))
    }
}

/// Reads a measurement from its text.
pub fn parse_measurement(text: &[u8]) -> (r: Result<i64, NumberError>)
    ensures
        r == parse_measurement_spec(text@),
{
    let n: usize = text.len();
    let negative: bool = n > 0 && text[0] == MINUS;
    let lo: usize = if negative { 1 } else { 0 };
    let fraction: bool = n - lo >= 2 && text[n - 2] == POINT;
    let hi: usize = if fraction { n - 2 } else { n };
    proof {
        assert(unsigned_part(text@) =~= text@.subrange(lo as int, n as int));
        assert(whole_part(unsigned_part(text@)) =~= text@.subrange(lo as int, hi as int));
    }
    if hi <= lo {
        return Err(NumberError::Malformed);
    }
    if fraction && !(text[n - 1] >= 48 && text[n - 1] <= 57) {
        return Err(NumberError::Malformed);
    }
    let last: u64 = if fraction { (text[n - 1] - 48) as u64 } else { 0 };
    match read_digits(text, lo, hi) {
        None => Err(NumberError::Malformed),
        Some(None) => Err(NumberError::OutOfRange),
        Some(Some(whole)) => {
            let magnitude: u64 = whole * 10 + last;
            if negative {
                if magnitude > 9223372036854775808 {
                    Err(NumberError::OutOfRange)
                } else if magnitude == 9223372036854775808 {
                    Ok(i64::MIN)
                } else {
                    Ok(-(magnitude as i64))
                }
            } else {
                if magnitude > 9223372036854775807 {
                    Err(NumberError::OutOfRange)
                } else {
                    Ok(magnitude as i64)
                }
            }
        },
    }
}

/// The digits of a natural number in base ten, without leading zeros.
pub open spec fn digits_of(n: nat) -> Seq<u8>
    decreases n,
{
    if n < 10 {
        seq![(48 + n) as u8]
    } else {
        digits_of(n / 10).push((48 + n % 10) as u8)
    }
}

/// The text of a measurement: its sign if it is negative, the digits of its
/// whole part, a point, and its one fractional digit.
pub open spec fn render_spec(v: int) -> Seq<u8> {
    let magnitude = if v < 0 { -v } else { v };
    let body = digits_of((magnitude / 10) as nat).push(46u8).push((48 + magnitude % 10) as u8);
    if v < 0 {
        seq![45u8] + body
    } else {
        body
    }
}

fn push_digits(out: &mut Vec<u8>, n: u64)
    ensures
        final(out)@ == old(out)@ + digits_of(n as nat),
    decreases n,
{
    if n >= 10 {
        push_digits(out, n / 10);
    }
    out.push(48 + (n % 10) as u8);
    proof {
        if n < 10 {
            assert(final(out)@ =~= old(out)@ + digits_of(n as nat));
        } else {
            assert(final(out)@ =~= old(out)@ + digits_of(n as nat));
        }
    }
}

/// Appends the text of a measurement to `out`.
pub fn append_measurement(out: &mut Vec<u8>, value: i64)
    ensures
        final(out)@ == old(out)@ + render_spec(value as int),
{
    let magnitude: u64 = if value < 0 { (-(value + 1)) as u64 + 1 } else { value as u64 };
    if value < 0 {
        out.push(MINUS);
    }
    let ghost mid = out@;
    push_digits(out, magnitude / 10);
    out.push(POINT);
    out.push(ZERO + (magnitude % 10) as u8);
    proof {
        let body = digits_of((magnitude / 10) as nat).push(46u8).push((48 + magnitude % 10) as u8);
        assert(out@ =~= mid + body);
        if value < 0 {
            assert(mid =~= old(out)@ + seq![45u8]);
            assert(mid + body =~= old(out)@ + (seq![45u8] + body));
        }
    }
}

/// The text of a measurement.
pub fn render_measurement(value: i64) -> (out: Vec<u8>)
    ensures
        out@ == render_spec(value as int),
{
    let mut out: Vec<u8> = Vec::new();
    append_measurement(&mut out, value);
    proof {
        assert(out@ =~= render_spec(value as int));
    }
    out
}

proof fn lemma_digits_of(n: nat)
    ensures
        digits_of(n).len() >= 1,
        all_digits(digits_of(n)),
        digits_value(digits_of(n)) == n,
    decreases n,
{
    let d = digits_of(n);
    if n < 10 {
        assert(d.drop_last() =~= Seq::<u8>::empty());
        assert(digits_value(d.drop_last()) == 0);
    } else {
        lemma_digits_of(n / 10);
        assert(d.drop_last() =~= digits_of(n / 10));
    }
}

/// A measurement's text reads back as that measurement.
pub proof fn lemma_render_then_parse(value: i64)
    ensures
        parse_measurement_spec(render_spec(value as int)) == Ok::<i64, NumberError>(value),
{
    let v = value as int;
    let magnitude = if v < 0 { -v } else { v };
    let whole = digits_of((magnitude / 10) as nat);
    let body = whole.push(46u8).push((48 + magnitude % 10) as u8);
    let s = render_spec(v);
    lemma_digits_of((magnitude / 10) as nat);
    assert(has_fraction(body));
    assert(whole_part(body) =~= whole);
    if v < 0 {
        assert(unsigned_part(s) =~= body);
    } else {
        assert(s[0] == whole[0]);
        assert(unsigned_part(s) == body);
    }
}

} // verus!
