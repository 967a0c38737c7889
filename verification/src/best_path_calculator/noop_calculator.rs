//! The calculator that searches no paths.

use super::floyd_warshall::algo::{cheapest_indices, Edge, Pair as VertexPair, Replace};
use super::floyd_warshall::calculator::{currency_items, index_currencies};
use super::floyd_warshall::indexer::{has_place, indexes, place};
use super::floyd_warshall::dedup::lists_kept_at;
use crate::{BestPathCalculator, PricePathGraph};
use crate::types::{
    Amount, CalculatorError, Currency, Pair, PathStep, PricePath, Provider, ProviderPair,
};
use vstd::prelude::*;

verus! {

/// The pairs of the quotes between the ids of their currencies under the index `cs`, each
/// as an edge without a provider or a cost.
pub open spec fn quoted_pairs<C: Currency, A: Amount, P: Provider>(
    quotes: Seq<(ProviderPair<C, P>, A)>,
    cs: Seq<C>,
) -> Seq<Edge> {
    quotes.map_values(
        |q: (ProviderPair<C, P>, A)|
            Edge {
                pair: VertexPair {
                    source: place(cs, q.0.pair.source) as usize,
                    target: place(cs, q.0.pair.target) as usize,
                },
                provider: 0,
                cost: 0,
            },
    )
}

/// `entry` is the quote `q` as a path of one step.
pub open spec fn is_direct<C: Currency, A: Amount, P: Provider>(
    entry: (Pair<C>, PricePath<C, A, P>),
    q: (ProviderPair<C, P>, A),
) -> bool {
    &&& cloned(q.0.pair.source, entry.0.source)
    &&& cloned(q.0.pair.target, entry.0.target)
    &&& entry.1.total_cost == q.1
    &&& entry.1.steps@.len() == 1
    &&& cloned(q.0.pair.source, entry.1.steps@[0].pair.source)
    &&& cloned(q.0.pair.target, entry.1.steps@[0].pair.target)
    &&& cloned(q.0.provider, entry.1.steps@[0].provider)
    &&& entry.1.steps@[0].cost == q.1
}

/// `table` holds, for each pair that is quoted, the last quote on it as a path of one
/// step, in ascending order of the pairs; `at` holds the positions of those quotes.
pub open spec fn is_direct_table<C: Currency, A: Amount, P: Provider>(
    table: Seq<(Pair<C>, PricePath<C, A, P>)>,
    quotes: Seq<(ProviderPair<C, P>, A)>,
    cs: Seq<C>,
    at: Seq<usize>,
) -> bool {
    &&& indexes(cs, currency_items(quotes))
    &&& lists_kept_at(at, quoted_pairs(quotes, cs), Replace::Always)
    &&& table.len() == at.len()
    &&& forall|x: int|
        0 <= x < table.len() ==> is_direct(#[trigger] table[x], quotes[at[x] as int])
}

/// The calculator that performs no path search: it returns each direct quote unchanged,
/// as a path of a single step. Where a pair is quoted more than once, its last quote
/// counts.
pub struct NoBestPathCalculator {}

impl<C: Currency, A: Amount, P: Provider> BestPathCalculator<C, A, P> for NoBestPathCalculator {
    fn calc_best_paths(pairs_and_prices: &[(ProviderPair<C, P>, A)]) -> (r: Result<
        PricePathGraph<C, A, P>,
        CalculatorError,
    >)
        ensures
            match r {
                Ok(table) => exists|cs: Seq<C>, at: Seq<usize>| #[trigger]
                    is_direct_table(table@, pairs_and_prices@, cs, at),
                Err(_) => false,
            },
    {
        let currencies = index_currencies(pairs_and_prices);
        let ghost cs = currencies@;
        let mut pairs: Vec<Edge> = Vec::new();
        let mut n: usize = 0;
        while n < pairs_and_prices.len()
            invariant
                n <= pairs_and_prices.len(),
                cs == currencies@,
                indexes(cs, currency_items(pairs_and_prices@)),
                pairs@.len() == n,
                pairs@ == quoted_pairs(pairs_and_prices@.take(n as int), cs),
            decreases pairs_and_prices.len() - n,
        {
            let q = &pairs_and_prices[n];
            proof {
                let items = currency_items(pairs_and_prices@);
                assert(items[n as int] == q.0.pair.source);
                assert(items[pairs_and_prices@.len() + n] == q.0.pair.target);
                assert(has_place(cs, items[n as int]));
                assert(has_place(cs, items[pairs_and_prices@.len() + n]));
            }
            let source = currencies.by_val(&q.0.pair.source);
            let target = currencies.by_val(&q.0.pair.target);
            let ghost before = pairs@;
            pairs.push(Edge { pair: VertexPair { source, target }, provider: 0, cost: 0 });
            proof {
                let next = quoted_pairs(pairs_and_prices@.take(n + 1), cs);
                assert forall|i: int| 0 <= i < next.len() implies pairs@[i] == next[i] by {
                    if i < n {
                        assert(before[i] == quoted_pairs(pairs_and_prices@.take(n as int), cs)[i]);
                    }
                }
                assert(pairs@ =~= next);
            }
            n += 1;
        }
        proof {
            assert(pairs_and_prices@.take(n as int) =~= pairs_and_prices@);
        }
        let at = cheapest_indices(pairs.as_slice(), Replace::Always);
        let mut table: Vec<(Pair<C>, PricePath<C, A, P>)> = Vec::new();
        let mut x: usize = 0;
        while x < at.len()
            invariant
                x <= at.len(),
                pairs@.len() == pairs_and_prices@.len(),
                lists_kept_at(at@, pairs@, Replace::Always),
                table@.len() == x,
                forall|y: int|
                    0 <= y < x ==> is_direct(
                        #[trigger] table@[y],
                        pairs_and_prices@[at@[y] as int],
                    ),
            decreases at.len() - x,
        {
            let q = &pairs_and_prices[at[x]];
            let price: A = q.1;
            let step = PathStep {
                pair: Pair { source: q.0.pair.source.clone(), target: q.0.pair.target.clone() },
                provider: q.0.provider.clone(),
                cost: price,
            };
            let mut steps: Vec<PathStep<C, A, P>> = Vec::new();
            steps.push(step);
            table.push(
                (
                    Pair { source: q.0.pair.source.clone(), target: q.0.pair.target.clone() },
                    PricePath { total_cost: price, steps },
                ),
            );
            x += 1;
        }
        let r: Result<PricePathGraph<C, A, P>, CalculatorError> = Ok(table);
        proof {
            assert(is_direct_table(r->Ok_0@, pairs_and_prices@, cs, at@));
        }
        r
    }
}

} // verus!
