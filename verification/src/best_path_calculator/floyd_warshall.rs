//! All-pairs best paths by relaxation over every intermediate vertex.

pub mod algo;
pub mod calculator;
pub mod calculator_laws;
pub mod dedup;
pub mod indexer;
pub mod laws;
pub mod model;
pub mod walks;
