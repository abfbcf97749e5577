//! Pileup counts and range identity for pairwise sequence alignments.
//!
//! `cigar` reads and writes CIGAR text, `range_identity` answers identity
//! questions about query ranges, `blacklist` marks untrustworthy query
//! offsets, and `plp` builds the insertion profile and the strand-aware
//! base counts of a batch of `record::AlignmentRecord`s. `coverage` proves
//! what the counts of each reference column add up to. The remaining
//! modules hold small helpers: intervals, homopolymer runs, counters,
//! header entries, reads and timing totals.

pub mod blacklist;
pub mod cigar;
pub mod counter;
pub mod dna;
pub mod draw;
pub mod coverage;
pub mod fastx;
pub mod header;
pub mod intervals;
pub mod plp;
pub mod poly_n;
pub mod range_identity;
pub mod record;
pub mod region;
pub mod timer;
