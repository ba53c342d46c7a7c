//! Keyboard layout optimization core: an ngram-frequency corpus model,
//! a layout representation with derived ergonomic-cost caches, and a
//! staged stochastic local-search engine that mutates a layout and
//! accepts or rejects candidates.
//!
//! All frequency scores are held in fixed-point form: a score of `1.0`
//! is `SCORE_ONE` units, so the whole corpus and cost pipeline works on
//! integers and every comparison is exact.
//!
//! The corpus model lives in [`ngrams`], the layout representation in
//! [`layout`] over the fixed [`geometry`], the fitness function in
//! [`cost`], and the staged search in [`engine`], entered through
//! [`check_neo`]. Reading of files and everything else at the process
//! boundary stays with the caller, which hands in plain values.

pub mod assoc;
pub mod check_neo;
pub mod cost;
pub mod engine;
pub mod errors;
pub mod geometry;
pub mod klo_options;
pub mod layout;
pub mod ngrams;
pub mod random;
pub mod scan;

use vstd::prelude::*;

verus! {

/// Fixed-point scale: one unit of weight or of a normalized frequency
/// score is `1 / SCORE_ONE`, so `SCORE_ONE` units stand for `1.0`.
pub const SCORE_ONE: u64 = 1_000_000_000;

} // verus!
