//! Polynomials in one indeterminate over the field, sparse and dense.

pub mod dense;
pub mod sparse;
