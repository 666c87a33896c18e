//! Per-key statistics over a large file of `key;value` lines.
//!
//! The input is cut into byte ranges of equal size. Each range is scanned on
//! its own into a table from keys to the least, the greatest, the sum and the
//! number of the key's measurements, and the tables are merged into one. The
//! cuts fall anywhere; a line belongs to the range that holds the terminator
//! of the line before it, so that every line is read exactly once whatever
//! the number of ranges.
//!
//! Measurements are decimal numbers with at most one fractional digit. They
//! are held exactly, as a whole number of tenths, and a mean is rounded to
//! the nearest tenth, a half upwards.
//!
//! A line without a delimiter, or with anything but such a number behind its
//! first delimiter, fails the run: the first such line is reported with the
//! offset of its first byte. A key that one of two merged tables lacks has
//! no measurements there.
//!
//! The final table lists its keys in the order in which they first come in
//! the input, so the report is the same for any number of ranges.

pub mod bytes;
pub mod line;
pub mod measure;
pub mod model;
pub mod output;
pub mod pipeline;
pub mod plan;
pub mod reduce;
pub mod scan;
pub mod stats;
pub mod table;
