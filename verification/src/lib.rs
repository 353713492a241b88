//! Metagenomic read re-assignment: given reads aligned to a database of
//! reference strains, estimate per-strain abundance with an
//! expectation-maximisation loop (pruned by a greedy set cover) and commit
//! each read to a single reference under an abundance-derived capacity.
//!
//! All real-valued quantities (per-class weights, coverage fractions,
//! abundances, thresholds) are carried as fixed-point integers in units of
//! one millionth, so every step of the pipeline is exact integer arithmetic.
use vstd::prelude::*;

pub mod assignment;
pub mod cedar;
pub mod equivalence_class_builder;
pub mod get_taxonomy;
pub mod readers;
pub mod sampling;
pub mod set_covers;
pub mod stats;
pub mod taxa;
pub mod util;

verus! {

/// Fixed-point scale: all fractional quantities are integers in units of
/// one millionth.
pub const SCALE: u64 = 1000000;

/// Upper bound on the number of alignment records one ingest accepts; keeps
/// every downstream sum comfortably inside `u64` arithmetic.
pub const MAX_RECORDS: u64 = 0x8000_0000;

/// Upper bound on a mapping score after the method-specific transform.
pub const MAX_SCORE: u64 = 0x1_0000_0000;

/// Upper bound on an accepted reference length; keeps the per-reference bin
/// table addressable and the coverage arithmetic inside `u64`.
pub const MAX_REF_LEN: u64 = 0x10_0000_0000;

} // verus!
