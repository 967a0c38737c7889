//! Calculators of best price paths.

pub mod floyd_warshall;
pub mod noop_calculator;
