//! A MACD crossover signal engine with a per-pair throttling strategy.
//!
//! Prices and amounts are fixed-point integers: a price of `12.5` quoted with
//! eight decimals is the integer `1_250_000_000`. All indicator arithmetic is
//! exact integer arithmetic that rounds each exponential-moving-average step
//! toward negative infinity.

pub mod analysis;
pub mod arith;
pub mod error;
pub mod execution;

