//! Metadata and timing extraction for rhythm-game chart files, and the
//! per-file policies of a directory scan over them.
//!
//! - `text`, `number`, `keys`: byte-level fields, integers and decimals, and
//!   the words of the format.
//! - `chart`: the single-pass parser, specified as a fold of `line_step`
//!   over the lines of the text.
//! - `header`: the cheap creator/version scan of a chart's first bytes.
//! - `scan`: the modification-time cache, the mapper filter and the outcome
//!   of one file.
//! - `batch`: bounded batches, shared progress counters and the partition of
//!   the work among workers.
//! - `order`: results sorted by path, one per path.
//! - `media`, `remote`: image data URLs, links and release tags.
//!
//! Decimal fields (beat lengths, slider lengths, multipliers) are read as
//! exact fixed-point values in millionths; modification times are integer
//! microseconds.
use vstd::prelude::*;

pub mod batch;
pub mod chart;
pub mod header;
pub mod keys;
pub mod media;
pub mod number;
pub mod order;
pub mod remote;
pub mod scan;
pub mod text;

verus! {

} // verus!
