//! The names that callers need, in one place.

pub use crate::best_path_calculator::floyd_warshall::algo::{
    deduplicate, floyd_warshall_shortest_paths, longest_paths_mult, shortest_paths,
    unique_cheapest_edges, Comparison, Edge, LogEdge, Path, PathCalculationError, Replace,
};
pub use crate::best_path_calculator::floyd_warshall::calculator::{
    FloydWarshallCalculator, LogRate, ScaledPath, ScaledStep, SCALE,
};
pub use crate::best_path_calculator::floyd_warshall::indexer::PositionIndexer;
pub use crate::best_path_calculator::noop_calculator::NoBestPathCalculator;
pub use crate::types::{
    Amount, CalculatorError, Currency, Pair, PathStep, PricePath, Provider, ProviderPair,
};
pub use crate::{BestPathCalculator, PricePathGraph};
