//! Measurement extraction and aggregation for a harness that compares plain
//! JavaScript source against its binary AST encoding, by compressed size and
//! by parse time.
//!
//! Numbers that the engine prints are read as exact decimals, summed exactly,
//! and turned into ratios in hundredths, so the totals are the sums of what
//! was reported, with no rounding on the way.

pub mod decimal;
pub mod extract;
pub mod timings;
pub mod sizes;
pub mod report;
pub mod run;
