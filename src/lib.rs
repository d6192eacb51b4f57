//! Ranks stock tickers by combining several independently measured factors
//! into one comparable score, and derives a proportional investment
//! allocation from the top-ranked tickers.
//!
//! All quantities are fixed-point integers counting millionths (see
//! [`fixed`]).
pub mod advisor;
pub mod aggregator;
pub mod candidates;
pub mod fixed;
pub mod normalizer;
pub mod ordering;
pub mod pipeline;
pub mod rankers;
pub mod render;
pub mod report;
