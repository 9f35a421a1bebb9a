//! Shell-history command frequency analysis.
//!
//! The pipeline: normalize raw history lines, filter them by an
//! ignore-list and an optional search term (exact or fuzzy), aggregate
//! the surviving lines into a frequency table sorted by usage count,
//! and slice off the most- and least-used commands.

pub mod history;
pub mod search;
pub mod strutil;
pub mod table;
