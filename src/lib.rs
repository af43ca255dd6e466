//! Permutation-corrected decision-tree forests over a sparse genotype matrix,
//! used to rank genetic variants by their association with an outcome and to
//! prune the weakest of them between rounds of growth.
//!
//! All quantities are integers: binary-outcome scores are fixed point with
//! `SCORE_ONE` standing for 1.0, continuous phenotypes are fixed point in
//! whatever unit the loader chose, and sampling fractions are in parts per
//! million of `FRACTION_ONE`.

pub mod statistics;
pub mod utils;
pub mod tree;
pub mod matrix;
pub mod forest;
pub mod variants;
