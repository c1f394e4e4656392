//! Code-point frequency tables for Shannon entropy.
//!
//! The entropy of a text is `-sum p(c) * log2(p(c))` over its distinct code
//! points, with `p(c) = count(c) / n`. Everything in that formula except the
//! logarithm is integer bookkeeping: which code points occur, how often, in
//! which order the terms are accumulated, and what `n` is. This crate does that
//! bookkeeping and proves it exact; the caller evaluates the logarithms over
//! the table it gets back.

pub mod laws;
pub mod model;
pub mod table;

pub use table::{code_point_frequencies, FrequencyTable};
