//! The calculator on external identifiers: index mapping into the solver's dense ids and
//! back.

use super::algo::{
    longest_paths_mult, Edge, LogEdge, Pair as VertexPair, Path, PathCalculationError,
};
use super::indexer::{has_place, indexes, place, values, PositionIndexer};
use super::model::{lists_table, longest_table};
use crate::order::{is_same, same, total_order};
use crate::types::{
    Amount, CalculatorError, Currency, Pair, PathStep, PricePath, Provider, ProviderPair,
};
use crate::PricePathGraph;
use vstd::prelude::*;
use vstd::std_specs::convert::{FromSpecImpl, TryFromSpec, TryIntoSpec};

verus! {

impl From<PathCalculationError> for CalculatorError {
    fn from(err: PathCalculationError) -> (r: Self) {
        match err {
            PathCalculationError::NegativeCyclesError => CalculatorError::NegativeCyclesError,
        }
    }
}

impl FromSpecImpl<PathCalculationError> for CalculatorError {
    open spec fn obeys_from_spec() -> bool {
        true
    }

    open spec fn from_spec(err: PathCalculationError) -> Self {
        CalculatorError::NegativeCyclesError
    }
}

/// The scale of the fixed-point amounts: an amount of `SCALE` is a rate of one.
pub const SCALE: u128 = 1_000_000_000_000;

/// What stands for a quoted amount in the solver.
///
/// `rate` stands for the rate that the amount is: a higher rate has a higher `rate`.
/// `log_cost` stands for the negated base-2 logarithm of the rate.
#[derive(Copy, Clone, Debug, PartialEq, Eq, Structural)]
pub struct LogRate {
    pub rate: i64,
    pub log_cost: i64,
}

/// One hop of a best path between vertex ids, at its cost in fixed point.
#[derive(Copy, Clone, Debug, PartialEq, Eq, Structural)]
pub struct ScaledStep {
    pub pair: VertexPair,
    pub provider: usize,
    pub cost: u128,
}

/// A best path between vertex ids, at its costs in fixed point.
#[derive(Clone, Debug, PartialEq, Eq)]
pub struct ScaledPath {
    pub total_cost: u128,
    pub steps: Vec<ScaledStep>,
}

/// The source currencies of the quotes.
pub open spec fn sources<C: Currency, P: Provider, X>(quotes: Seq<(ProviderPair<C, P>, X)>) -> Seq<
    C,
> {
    quotes.map_values(|q: (ProviderPair<C, P>, X)| q.0.pair.source)
}

/// The target currencies of the quotes.
pub open spec fn targets<C: Currency, P: Provider, X>(quotes: Seq<(ProviderPair<C, P>, X)>) -> Seq<
    C,
> {
    quotes.map_values(|q: (ProviderPair<C, P>, X)| q.0.pair.target)
}

/// Every currency that the quotes refer to, as a source or as a target.
pub open spec fn currency_items<C: Currency, P: Provider, X>(
    quotes: Seq<(ProviderPair<C, P>, X)>,
) -> Seq<C> {
    sources(quotes) + targets(quotes)
}

/// Every provider that the quotes refer to.
pub open spec fn provider_items<C: Currency, P: Provider, X>(
    quotes: Seq<(ProviderPair<C, P>, X)>,
) -> Seq<P> {
    quotes.map_values(|q: (ProviderPair<C, P>, X)| q.0.provider)
}

/// The edge of the solver's graph that a quote becomes under the indices `cs` of the
/// currencies and `ps` of the providers.
pub open spec fn edge_of<C: Currency, P: Provider>(
    q: (ProviderPair<C, P>, LogRate),
    cs: Seq<C>,
    ps: Seq<P>,
) -> LogEdge {
    LogEdge {
        edge: Edge {
            pair: VertexPair {
                source: place(cs, q.0.pair.source) as usize,
                target: place(cs, q.0.pair.target) as usize,
            },
            provider: place(ps, q.0.provider) as usize,
            cost: q.1.rate,
        },
        log_cost: q.1.log_cost,
    }
}

/// The edges of those among the first `n` quotes whose source takes the place of `c`, in
/// the order of the quotes.
pub open spec fn edges_from<C: Currency, P: Provider>(
    quotes: Seq<(ProviderPair<C, P>, LogRate)>,
    cs: Seq<C>,
    ps: Seq<P>,
    c: C,
    n: nat,
) -> Seq<LogEdge>
    decreases n,
{
    if n == 0 {
        Seq::empty()
    } else if same(c, quotes[n - 1].0.pair.source) {
        edges_from(quotes, cs, ps, c, (n - 1) as nat).push(edge_of(quotes[n - 1], cs, ps))
    } else {
        edges_from(quotes, cs, ps, c, (n - 1) as nat)
    }
}

/// The edges of the quotes whose source is among the first `m` currencies: currency by
/// currency in ascending order, and for each currency in the order of the quotes.
pub open spec fn edges_upto<C: Currency, P: Provider>(
    quotes: Seq<(ProviderPair<C, P>, LogRate)>,
    cs: Seq<C>,
    ps: Seq<P>,
    m: nat,
) -> Seq<LogEdge>
    decreases m,
{
    if m == 0 {
        Seq::empty()
    } else {
        edges_upto(quotes, cs, ps, (m - 1) as nat) + edges_from(
            quotes,
            cs,
            ps,
            cs[m - 1],
            quotes.len(),
        )
    }
}

/// `edges` is the solver's graph of `quotes` under the indices `cs` of its currencies and
/// `ps` of its providers.
pub open spec fn is_graph<C: Currency, P: Provider>(
    edges: Seq<LogEdge>,
    quotes: Seq<(ProviderPair<C, P>, LogRate)>,
    cs: Seq<C>,
    ps: Seq<P>,
) -> bool {
    &&& indexes(cs, currency_items(quotes))
    &&& indexes(ps, provider_items(quotes))
    &&& edges == edges_upto(quotes, cs, ps, cs.len())
}

/// The index of the currencies of `quotes`.
pub fn index_currencies<'a, C: Currency, P: Provider, X>(quotes: &'a [(ProviderPair<C, P>, X)]) -> (r:
    PositionIndexer<'a, C>)
    requires
        total_order::<C>(),
    ensures
        indexes(r@, currency_items(quotes@)),
{
    let mut refs: Vec<&'a C> = Vec::new();
    let mut n: usize = 0;
    while n < quotes.len()
        invariant
            n <= quotes.len(),
            refs@.len() == n,
            values(refs@) == sources(quotes@.take(n as int)),
        decreases quotes.len() - n,
    {
        let ghost before = refs@;
        refs.push(&quotes[n].0.pair.source);
        proof {
            let next = sources(quotes@.take(n + 1));
            assert forall|i: int| 0 <= i < next.len() implies values(refs@)[i] == next[i] by {
                if i < n {
                    assert(values(before)[i] == sources(quotes@.take(n as int))[i]);
                }
            }
            assert(values(refs@) =~= next);
        }
        n += 1;
    }
    proof {
        assert(quotes@.take(n as int) =~= quotes@);
    }
    let mut k: usize = 0;
    while k < quotes.len()
        invariant
            k <= quotes.len(),
            refs@.len() == quotes@.len() + k,
            values(refs@) == sources(quotes@) + targets(quotes@.take(k as int)),
        decreases quotes.len() - k,
    {
        let ghost before = refs@;
        refs.push(&quotes[k].0.pair.target);
        proof {
            let done = sources(quotes@) + targets(quotes@.take(k as int));
            let next = sources(quotes@) + targets(quotes@.take(k + 1));
            assert forall|i: int| 0 <= i < next.len() implies values(refs@)[i] == next[i] by {
                if i < quotes@.len() + k {
                    assert(values(before)[i] == done[i]);
                }
            }
            assert(values(refs@) =~= next);
        }
        k += 1;
    }
    proof {
        assert(quotes@.take(k as int) =~= quotes@);
    }
    PositionIndexer::new(refs.as_slice())
}

/// The index of the providers of `quotes`.
pub fn index_providers<'a, C: Currency, P: Provider, X>(quotes: &'a [(ProviderPair<C, P>, X)]) -> (r:
    PositionIndexer<'a, P>)
    requires
        total_order::<P>(),
    ensures
        indexes(r@, provider_items(quotes@)),
{
    let mut refs: Vec<&'a P> = Vec::new();
    let mut n: usize = 0;
    while n < quotes.len()
        invariant
            n <= quotes.len(),
            refs@.len() == n,
            values(refs@) == provider_items(quotes@.take(n as int)),
        decreases quotes.len() - n,
    {
        let ghost before = refs@;
        refs.push(&quotes[n].0.provider);
        proof {
            let next = provider_items(quotes@.take(n + 1));
            assert forall|i: int| 0 <= i < next.len() implies values(refs@)[i] == next[i] by {
                if i < n {
                    assert(values(before)[i] == provider_items(quotes@.take(n as int))[i]);
                }
            }
            assert(values(refs@) =~= next);
        }
        n += 1;
    }
    proof {
        assert(quotes@.take(n as int) =~= quotes@);
    }
    PositionIndexer::new(refs.as_slice())
}

/// The amount in fixed point, where it can be represented there.
pub open spec fn as_fixed<A: Amount>(amount: A) -> Option<u128> {
    match <A as TryIntoSpec<u128>>::try_into_spec(amount) {
        Ok(v) => Some(v),
        Err(_) => None,
    }
}

/// The fixed-point value in the amount type, where it can be represented there.
pub open spec fn as_amount<A: Amount>(fixed: u128) -> Option<A> {
    match <A as TryFromSpec<u128>>::try_from_spec(fixed) {
        Ok(a) => Some(a),
        Err(_) => None,
    }
}

/// The ids of the hop are ids of the indices, of `currencies` and `providers` values.
pub open spec fn step_in_range(s: ScaledStep, currencies: nat, providers: nat) -> bool {
    s.pair.source < currencies && s.pair.target < currencies && s.provider < providers
}

/// The hop can be given back to the caller: its ids are ids of the indices and its cost
/// fits the amount type.
pub open spec fn step_restorable<A: Amount>(s: ScaledStep, currencies: nat, providers: nat) -> bool {
    step_in_range(s, currencies, providers) && as_amount::<A>(s.cost) is Some
}

/// The path can be given back to the caller: its ids are ids of the indices and its costs
/// fit the amount type.
pub open spec fn path_restorable<A: Amount>(
    path: (VertexPair, ScaledPath),
    currencies: nat,
    providers: nat,
) -> bool {
    &&& path.0.source < currencies
    &&& path.0.target < currencies
    &&& as_amount::<A>(path.1.total_cost) is Some
    &&& forall|x: int|
        0 <= x < path.1.steps@.len() ==> step_restorable::<A>(
            #[trigger] path.1.steps@[x],
            currencies,
            providers,
        )
}

/// `step` is the hop `s` with the identifiers of its ids and its cost as an amount.
pub open spec fn is_step<C: Currency, A: Amount, P: Provider>(
    step: PathStep<C, A, P>,
    s: ScaledStep,
    cs: Seq<C>,
    ps: Seq<P>,
) -> bool {
    &&& step_in_range(s, cs.len(), ps.len())
    &&& cloned(cs[s.pair.source as int], step.pair.source)
    &&& cloned(cs[s.pair.target as int], step.pair.target)
    &&& cloned(ps[s.provider as int], step.provider)
    &&& <A as TryFromSpec<u128>>::obeys_try_from_spec() ==> as_amount::<A>(s.cost) == Some(
        step.cost,
    )
}

/// `entry` is the path `path` with the identifiers of its ids and its costs as amounts.
pub open spec fn is_price_path<C: Currency, A: Amount, P: Provider>(
    entry: (Pair<C>, PricePath<C, A, P>),
    path: (VertexPair, ScaledPath),
    cs: Seq<C>,
    ps: Seq<P>,
) -> bool {
    &&& path.0.source < cs.len()
    &&& path.0.target < cs.len()
    &&& cloned(cs[path.0.source as int], entry.0.source)
    &&& cloned(cs[path.0.target as int], entry.0.target)
    &&& <A as TryFromSpec<u128>>::obeys_try_from_spec() ==> as_amount::<A>(path.1.total_cost)
        == Some(entry.1.total_cost)
    &&& entry.1.steps@.len() == path.1.steps@.len()
    &&& forall|x: int|
        0 <= x < path.1.steps@.len() ==> is_step(
            #[trigger] entry.1.steps@[x],
            path.1.steps@[x],
            cs,
            ps,
        )
}

/// The hop with its identifiers and its cost as an amount, where it can be given back.
fn price_step<'a, C: Currency, A: Amount, P: Provider>(
    currencies: &PositionIndexer<'a, C>,
    providers: &PositionIndexer<'a, P>,
    s: &ScaledStep,
) -> (r: Option<PathStep<C, A, P>>)
    ensures
        match r {
            Some(step) => is_step(step, *s, currencies@, providers@),
            None => <A as TryFromSpec<u128>>::obeys_try_from_spec() ==> !step_restorable::<A>(
                *s,
                currencies@.len(),
                providers@.len(),
            ),
        },
{
    if s.pair.source >= currencies.len() || s.pair.target >= currencies.len() || s.provider
        >= providers.len() {
        return None;
    }
    match A::try_from(s.cost) {
        Ok(cost) => Some(
            PathStep {
                pair: Pair {
                    source: currencies.by_ind(s.pair.source),
                    target: currencies.by_ind(s.pair.target),
                },
                provider: providers.by_ind(s.provider),
                cost,
            },
        ),
        Err(_) => None,
    }
}

/// The path with its identifiers and its costs as amounts, where it can be given back.
fn price_path<'a, C: Currency, A: Amount, P: Provider>(
    currencies: &PositionIndexer<'a, C>,
    providers: &PositionIndexer<'a, P>,
    path: &(VertexPair, ScaledPath),
) -> (r: Option<(Pair<C>, PricePath<C, A, P>)>)
    ensures
        match r {
            Some(entry) => is_price_path(entry, *path, currencies@, providers@),
            None => <A as TryFromSpec<u128>>::obeys_try_from_spec() ==> !path_restorable::<A>(
                *path,
                currencies@.len(),
                providers@.len(),
            ),
        },
{
    if path.0.source >= currencies.len() || path.0.target >= currencies.len() {
        return None;
    }
    let total_cost = match A::try_from(path.1.total_cost) {
        Ok(total) => total,
        Err(_) => {
            return None;
        },
    };
    let mut steps: Vec<PathStep<C, A, P>> = Vec::new();
    let mut x: usize = 0;
    while x < path.1.steps.len()
        invariant
            x <= path.1.steps.len(),
            steps@.len() == x,
            forall|y: int|
                0 <= y < x ==> is_step(
                    #[trigger] steps@[y],
                    path.1.steps@[y],
                    currencies@,
                    providers@,
                ),
        decreases path.1.steps.len() - x,
    {
        match price_step(currencies, providers, &path.1.steps[x]) {
            Some(step) => {
                steps.push(step);
            },
            None => {
                return None;
            },
        }
        x += 1;
    }
    Some(
        (
            Pair {
                source: currencies.by_ind(path.0.source),
                target: currencies.by_ind(path.0.target),
            },
            PricePath { total_cost, steps },
        ),
    )
}

/// The calculator of best price paths by the all-pairs solver.
///
/// A call goes through three steps, each of them a function here. `amounts` turns the
/// quoted amounts into the fixed-point domain. `best_paths` maps currencies and providers
/// to dense ids in ascending order, builds the graph and runs the solver on it; it takes
/// each quote with what stands for its amount in the solver. `price_paths` maps the ids
/// of the paths back and turns their costs into the caller's amount type.
pub struct FloydWarshallCalculator {}

impl FloydWarshallCalculator {
    /// The quoted amounts in fixed point, in the order of the quotes.
    ///
    /// Fails with `ConversionError` where an amount cannot be represented as an unsigned
    /// 128-bit integer.
    pub fn amounts<C: Currency, A: Amount, P: Provider>(
        pairs_and_prices: &[(ProviderPair<C, P>, A)],
    ) -> (r: Result<Vec<u128>, CalculatorError>)
        ensures
            match r {
                Ok(fixed) => {
                    &&& fixed@.len() == pairs_and_prices@.len()
                    &&& <A as TryIntoSpec<u128>>::obeys_try_into_spec() ==> forall|k: int|
                        0 <= k < fixed@.len() ==> as_fixed(pairs_and_prices@[k].1) == Some(
                            #[trigger] fixed@[k],
                        )
                },
                Err(e) => {
                    &&& e == CalculatorError::ConversionError
                    &&& pairs_and_prices@.len() > 0
                    &&& <A as TryIntoSpec<u128>>::obeys_try_into_spec() ==> exists|k: int|
                        0 <= k < pairs_and_prices@.len() && as_fixed(
                            (#[trigger] pairs_and_prices@[k]).1,
                        ) is None
                },
            },
    {
        let mut fixed: Vec<u128> = Vec::new();
        let mut n: usize = 0;
        while n < pairs_and_prices.len()
            invariant
                n <= pairs_and_prices.len(),
                fixed@.len() == n,
                <A as TryIntoSpec<u128>>::obeys_try_into_spec() ==> forall|k: int|
                    0 <= k < n ==> as_fixed(pairs_and_prices@[k].1) == Some(#[trigger] fixed@[k]),
            decreases pairs_and_prices.len() - n,
        {
            let amount: A = pairs_and_prices[n].1;
            match TryInto::<u128>::try_into(amount) {
                Ok(v) => {
                    fixed.push(v);
                },
                Err(_) => {
                    assert(<A as TryIntoSpec<u128>>::obeys_try_into_spec() ==> as_fixed(
                        pairs_and_prices@[n as int].1,
                    ) is None);
                    return Err(CalculatorError::ConversionError);
                },
            }
            n += 1;
        }
        Ok(fixed)
    }

    /// The solver's graph of `quotes`: one edge for each quote, between the ids of its
    /// currencies, grouped by source currency in ascending order and, for one source, in
    /// the order of the quotes.
    pub fn graph<C: Currency, P: Provider>(quotes: &[(ProviderPair<C, P>, LogRate)]) -> (r: Vec<
        LogEdge,
    >)
        requires
            total_order::<C>(),
            total_order::<P>(),
        ensures
            exists|cs: Seq<C>, ps: Seq<P>| #[trigger] is_graph(r@, quotes@, cs, ps),
    {
        let currencies = index_currencies(quotes);
        let providers = index_providers(quotes);
        let in_order = currencies.iter();
        let ghost cs = currencies@;
        let ghost ps = providers@;
        let mut r: Vec<LogEdge> = Vec::new();
        let mut c: usize = 0;
        while c < in_order.len()
            invariant
                c <= in_order.len(),
                total_order::<C>(),
                cs == currencies@,
                ps == providers@,
                values(in_order@) == cs,
                indexes(cs, currency_items(quotes@)),
                indexes(ps, provider_items(quotes@)),
                r@ == edges_upto(quotes@, cs, ps, c as nat),
            decreases in_order.len() - c,
        {
            let ghost done = r@;
            let mut k: usize = 0;
            while k < quotes.len()
                invariant
                    k <= quotes.len(),
                    c < in_order.len(),
                    total_order::<C>(),
                    cs == currencies@,
                    ps == providers@,
                    values(in_order@) == cs,
                    indexes(cs, currency_items(quotes@)),
                    indexes(ps, provider_items(quotes@)),
                    r@ == done + edges_from(quotes@, cs, ps, cs[c as int], k as nat),
                decreases quotes.len() - k,
            {
                let q = &quotes[k];
                proof {
                    assert(values(in_order@)[c as int] == *in_order@[c as int]);
                }
                if is_same(in_order[c], &q.0.pair.source) {
                    proof {
                        let items = currency_items(quotes@);
                        assert(items[k as int] == q.0.pair.source);
                        assert(items[quotes@.len() + k] == q.0.pair.target);
                        assert(has_place(cs, items[k as int]));
                        assert(has_place(cs, items[quotes@.len() + k]));
                        assert(provider_items(quotes@)[k as int] == q.0.provider);
                        assert(has_place(ps, provider_items(quotes@)[k as int]));
                    }
                    let source = currencies.by_val(&q.0.pair.source);
                    let target = currencies.by_val(&q.0.pair.target);
                    let provider = providers.by_val(&q.0.provider);
                    r.push(
                        LogEdge {
                            edge: Edge {
                                pair: VertexPair { source, target },
                                provider,
                                cost: q.1.rate,
                            },
                            log_cost: q.1.log_cost,
                        },
                    );
                }
                proof {
                    assert(r@ =~= done + edges_from(quotes@, cs, ps, cs[c as int], (k + 1) as nat));
                }
                k += 1;
            }
            c += 1;
        }
        proof {
            assert(is_graph(r@, quotes@, cs, ps));
        }
        r
    }

    /// The best paths between the ids of the currencies of `quotes`.
    ///
    /// Fails with `NegativeCyclesError` where the rates of some cycle of quotes multiply to
    /// more than one. Otherwise there is a path for every ordered pair of currencies with
    /// the target reachable from the source, in ascending order of the pairs.
    pub fn best_paths<C: Currency, P: Provider>(quotes: &[(ProviderPair<C, P>, LogRate)]) -> (r:
        Result<Vec<(VertexPair, Path)>, CalculatorError>)
        requires
            total_order::<C>(),
            total_order::<P>(),
        ensures
            exists|cs: Seq<C>, ps: Seq<P>, edges: Seq<LogEdge>|
                #[trigger] is_graph(edges, quotes@, cs, ps) && match r {
                    Ok(list) => longest_table(edges) is Ok && lists_table(
                        list@,
                        longest_table(edges)->Ok_0,
                    ),
                    Err(e) => longest_table(edges) is Err && e
                        == CalculatorError::NegativeCyclesError,
                },
    {
        let edges = Self::graph(quotes);
        match longest_paths_mult(edges.as_slice()) {
            Ok(list) => Ok(list),
            Err(e) => Err(CalculatorError::from(e)),
        }
    }

    /// The table that the caller sees: every path with the identifiers that its ids stand
    /// for, and with its costs in the caller's amount type, in the order of `paths`.
    ///
    /// The ids are those that `best_paths` gives to the currencies and providers of
    /// `quotes`. Fails with `ConversionError` where an id of a path is no id of theirs, or
    /// where a cost does not fit the amount type.
    pub fn price_paths<C: Currency, A: Amount, P: Provider, X>(
        quotes: &[(ProviderPair<C, P>, X)],
        paths: &[(VertexPair, ScaledPath)],
    ) -> (r: Result<PricePathGraph<C, A, P>, CalculatorError>)
        requires
            total_order::<C>(),
            total_order::<P>(),
        ensures
            exists|cs: Seq<C>, ps: Seq<P>|
                #[trigger] indexes(cs, currency_items(quotes@)) && #[trigger] indexes(
                    ps,
                    provider_items(quotes@),
                ) && match r {
                    Ok(table) => {
                        &&& table@.len() == paths@.len()
                        &&& forall|x: int|
                            0 <= x < table@.len() ==> is_price_path(
                                #[trigger] table@[x],
                                paths@[x],
                                cs,
                                ps,
                            )
                    },
                    Err(e) => {
                        &&& e == CalculatorError::ConversionError
                        &&& paths@.len() > 0
                        &&& <A as TryFromSpec<u128>>::obeys_try_from_spec() ==> exists|x: int|
                            0 <= x < paths@.len() && !path_restorable::<A>(
                                #[trigger] paths@[x],
                                cs.len(),
                                ps.len(),
                            )
                    },
                },
    {
        let currencies = index_currencies(quotes);
        let providers = index_providers(quotes);
        let mut table: Vec<(Pair<C>, PricePath<C, A, P>)> = Vec::new();
        let mut x: usize = 0;
        while x < paths.len()
            invariant
                x <= paths.len(),
                table@.len() == x,
                indexes(currencies@, currency_items(quotes@)),
                indexes(providers@, provider_items(quotes@)),
                forall|y: int|
                    0 <= y < x ==> is_price_path(
                        #[trigger] table@[y],
                        paths@[y],
                        currencies@,
                        providers@,
                    ),
            decreases paths.len() - x,
        {
            match price_path(&currencies, &providers, &paths[x]) {
                Some(entry) => {
                    table.push(entry);
                },
                None => {
                    assert(<A as TryFromSpec<u128>>::obeys_try_from_spec() ==> !path_restorable::<
                        A,
                    >(paths@[x as int], currencies@.len(), providers@.len()));
                    return Err(CalculatorError::ConversionError);
                },
            }
            x += 1;
        }
        Ok(table)
    }
}

} // verus!
