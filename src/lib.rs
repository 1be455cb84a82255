//! Coincidence-event reconstruction for a time-to-digital converter that reads a
//! micro-channel plate (the reference channel) and the ends of a delay-line detector.
//!
//! `sieve` splits a raw record stream into sorted per-channel timelines,
//! `timesum_extractor` gathers the time-sum residuals of every windowed pair of end hits,
//! and `extractor` reconstructs one coordinate per reference hit where the match is unique.
pub mod locator;
pub mod extractor;
pub mod tsum_finder;
pub mod sieve;

pub use extractor::{extractor, get_extracted_hits, ExtractorError, HIT_TIME_TOLERANCE, TIME_SUM_UPPER};
pub use locator::{binary_search_position, is_sorted};
pub use sieve::{
    get_trigger, sieve, skip_false_counts, sort_timeline, SieveError, NUMBER_OF_CHANNELS,
    TRIGGER_CHANNEL,
};
pub use tsum_finder::{timesum_extractor, TimeSumError};
