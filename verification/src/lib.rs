//! Frequency estimation over large line-oriented streams by bounded random
//! sampling: reservoirs with weighted merging, histogram and top-k
//! derivation, line-aligned chunking for parallel runs, and per-record field
//! processing.
mod rng;

pub mod filesplits;
pub mod histogram;
pub mod records;
pub mod reservoir;
