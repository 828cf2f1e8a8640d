//! Descriptive statistics over a finite sequence of numeric samples:
//! extremes, a median found by randomized selection, and fixed-width
//! histogram bucketing with bounded-width bar scaling.
//!
//! Samples enter the library as order-encoded `u64` keys: the caller maps
//! each sample value to a key so that key order agrees with value order and
//! equal values get equal keys. Everything the engine decides — which value
//! sits at a sorted rank, which extremes bound the data, which bucket a
//! sample is counted in, how long each bar is drawn — depends only on that
//! order and on integer counts, and is stated and proved here over the keys.
//! The surrounding program keeps the floating-point side: encoding samples
//! to keys, the running mean and variance, and the printed report.

pub mod data;
pub mod histogram;
pub mod select;
