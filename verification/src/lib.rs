//! Best multi-hop conversion paths between currencies quoted by several providers.
//!
//! For a set of currency-pair quotes the library finds, for every pair of currencies with
//! the target reachable from the source, the chain of quotes with the best compounded
//! rate. The work is done on integers throughout:
//!
//! - `best_path_calculator::floyd_warshall::algo` holds the solvers on dense vertex ids:
//!   the removal of parallel quotes, the additive all-pairs solver with its detection of
//!   negative cycles, and the multiplicative solver, which runs the additive one on costs
//!   in the log domain;
//! - `best_path_calculator::floyd_warshall::indexer` maps the values of any totally
//!   ordered type to dense ids in ascending order and back;
//! - `best_path_calculator::floyd_warshall::calculator` takes quotes between currencies
//!   of the caller's types through the solver and back;
//! - `model`, `dedup`, `walks`, `laws` and `calculator_laws` beside them state what the
//!   functions compute, and prove what follows from it: that the tables hold exactly the
//!   reachable pairs, that no recorded path can be improved on, and that a call fails
//!   exactly on a negative cycle.
//!
//! A rate enters the solver as two integers: one that orders as the rates do, and the
//! negated base-2 logarithm of the rate in fixed point. Forming them, and the product of
//! the rates along a path, is arithmetic on fractions and is left to the caller.

use vstd::prelude::*;

pub mod best_path_calculator;
pub mod order;
pub mod prelude;
pub mod types;

use order::total_order;
use types::{Amount, CalculatorError, Currency, Pair, PricePath, Provider, ProviderPair};

verus! {

/// The best price path of every pair that has one, in ascending order of the pairs.
pub type PricePathGraph<C, A, P> = Vec<(Pair<C>, PricePath<C, A, P>)>;

/// Interface for calculating the best `PricePathGraph`, which consists of price paths
/// chained in the most trade-efficient manner.
pub trait BestPathCalculator<C: Currency, A: Amount, P: Provider> {
    /// The best price paths for the quotes `pairs_and_prices`, whose currencies and
    /// providers are of totally ordered types.
    fn calc_best_paths(pairs_and_prices: &[(ProviderPair<C, P>, A)]) -> Result<
        PricePathGraph<C, A, P>,
        CalculatorError,
    >
        requires
            total_order::<C>(),
            total_order::<P>(),
    ;
}

} // verus!
