//! One line of input: a key, the delimiter, a measurement.

use vstd::prelude::*;
use vstd::slice::slice_subrange;
use crate::bytes::{find_byte, find_from};
use crate::measure::{parse_measurement, parse_measurement_spec, NumberError};

verus! {

/// The byte `;`, which parts the key from the measurement.
pub const DELIMITER: u8 = 59;

/// Why a line was rejected.
#[derive(Clone, Copy, Debug, PartialEq, Eq, Structural)]
pub enum LineError {
    /// The line holds no delimiter.
    MissingDelimiter,
    /// What follows the first delimiter is not a decimal number with at most
    /// one fractional digit.
    MalformedNumber,
    /// What follows the first delimiter is a number too large to hold.
    NumberOutOfRange,
}

/// What a line holds: the bytes before its first delimiter as the key, and
/// what follows that delimiter read as a measurement.
pub open spec fn parse_line_spec(line: Seq<u8>) -> Result<(Seq<u8>, i64), LineError> {
    let at = find_byte(line, 59, 0);
    if at >= line.len() {
        Err(LineError::MissingDelimiter)
    } else {
        match parse_measurement_spec(line.subrange(at + 1, line.len() as int)) {
            Ok(value) => Ok((line.subrange(0, at), value)),
            Err(NumberError::Malformed) => Err(LineError::MalformedNumber),
            Err(NumberError::OutOfRange) => Err(LineError::NumberOutOfRange),
        }
    }
}

/// Splits a line, given without its terminator, into key and measurement.
pub fn parse_line<'a>(line: &'a [u8]) -> (r: Result<(&'a [u8], i64), LineError>)
    ensures
        match r {
            Ok((key, value)) => parse_line_spec(line@) == Ok::<(Seq<u8>, i64), LineError>(
                (key@, value),
            ),
            Err(e) => parse_line_spec(line@) == Err::<(Seq<u8>, i64), LineError>(e),
        },
{
    let n: usize = line.len();
    let at: usize = find_from(line, DELIMITER, 0);
    if at >= n {
        return Err(LineError::MissingDelimiter);
    }
    match parse_measurement(slice_subrange(line, at + 1, n)) {
        Ok(value) => Ok((slice_subrange(line, 0, at), value)),
        Err(NumberError::Malformed) => Err(LineError::MalformedNumber),
        Err(NumberError::OutOfRange) => Err(LineError::NumberOutOfRange),
    }
}

} // verus!
