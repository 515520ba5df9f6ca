//! A verified engine for a competitive-programming leaderboard: it extracts
//! solve records from scraped markup rows, holds them in immutable
//! snapshots, and derives rankings, per-day timing statistics with bounded
//! extrapolation, snapshot diffs, and membership cross-references.

pub mod board;
pub mod conservation;
pub mod extract;
pub mod record;
pub mod sequtil;
pub mod sorting;
pub mod standings;
pub mod stats;
pub mod textutil;
pub mod timeparse;
