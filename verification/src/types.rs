//! The identifiers, pairs and price paths that callers see.

use vstd::prelude::*;

verus! {

/// Currency representation, e.g. `"BTC"`: any totally ordered type that can be duplicated.
pub trait Currency: Ord + Clone {
}

impl<T: Ord + Clone> Currency for T {
}

/// Numeric amount in fixed point with an implied scale of 10^12; must be representable by
/// `u128`.
pub trait Amount: Clone + Copy + TryInto<u128> + TryFrom<u128> {
}

impl<T: Clone + Copy + TryInto<u128> + TryFrom<u128>> Amount for T {
}

/// Oracle providing currency pair pricing: any totally ordered type that can be duplicated.
pub trait Provider: Ord + Clone {
}

impl<T: Ord + Clone> Provider for T {
}

/// Currency pair, as provided by a provider.
#[derive(Clone, Eq, PartialEq, Debug, Ord, PartialOrd)]
pub struct Pair<C: Currency> {
    pub source: C,
    pub target: C,
}

/// Currency pair per provider.
#[derive(Clone, Eq, PartialEq, Debug, Ord, PartialOrd)]
pub struct ProviderPair<C: Currency, P: Provider> {
    pub pair: Pair<C>,
    pub provider: P,
}

/// The best path of a pair: its steps and their overall cost.
#[derive(Clone, Eq, PartialEq, Debug)]
pub struct PricePath<C: Currency, A: Amount, P: Provider> {
    pub total_cost: A,
    pub steps: Vec<PathStep<C, A, P>>,
}

/// Conversion cost of a source/target currency pair, per provider: a building block of
/// longer paths where there is no direct route.
#[derive(Clone, Eq, PartialEq, Debug)]
pub struct PathStep<C: Currency, A: Amount, P: Provider> {
    pub pair: Pair<C>,
    pub provider: P,
    pub cost: A,
}

/// Why a calculator returned no table.
#[derive(Copy, Clone, Debug, PartialEq, Eq, Structural)]
pub enum CalculatorError {
    /// Some cycle of quotes compounds to more than one.
    NegativeCyclesError,
    /// An amount does not fit the fixed-point domain of the caller or of the calculator.
    ConversionError,
}

} // verus!
