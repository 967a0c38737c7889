//! What the solvers on graphs with parallel quotes return, in terms of their input.

use super::algo::{Comparison, Edge, LogEdge, Pair, Replace};
use super::dedup::{cheapest, is_kept, kept, lemma_cheapest_exists, lemma_kept};
use super::model::{
    cost_sum, identity, is_endpoint, lemma_seed_edge, log_edge, log_graph, longest_table, rate_edge,
    rates_of, seed_edge, shortest_table, touches,
};
use super::walks::{
    chained, has_negative_cycle, is_walk, lemma_fails_on_negative_cycles,
    lemma_no_further_relaxation, lemma_paths_are_walks, lemma_records_reachable_pairs,
    lemma_records_self_pairs, reachable,
};
use vstd::prelude::*;

verus! {

/// The edge of `edges` that is kept for `pair`, if the pair has an edge.
pub open spec fn kept_edge(edges: Seq<Edge>, rule: Replace, pair: Pair) -> Option<Edge> {
    match kept(edges, rule, pair) {
        Some(k) => Some(edges[k]),
        None => None,
    }
}

/// After the parallel quotes are removed, the edge that seeds a pair is the edge kept for
/// it, and the vertices are those of all the edges.
pub proof fn lemma_kept_edges_seed(edges: Seq<Edge>, rule: Replace, pair: Pair, v: usize)
    ensures
        seed_edge(cheapest(edges, rule), pair) == kept_edge(edges, rule, pair),
        is_endpoint(cheapest(edges, rule), v) <==> is_endpoint(edges, v),
{
    let g = cheapest(edges, rule);
    lemma_cheapest_exists(edges, rule);
    lemma_seed_edge(g, pair);
    lemma_kept(edges, rule, pair);
    match seed_edge(g, pair) {
        Some(e) => {
            let x = choose|x: int| 0 <= x < g.len() && g[x] == e;
            assert(is_kept(edges, rule, g[x]));
        },
        None => {
            if kept(edges, rule, pair) is Some {
                let k = kept(edges, rule, pair)->Some_0;
                let x = choose|x: int|
                    0 <= x < g.len() && (#[trigger] g[x]).pair == (#[trigger] edges[k]).pair;
                assert(g[x].pair == pair);
            }
        },
    }
    if is_endpoint(g, v) {
        let x = choose|x: int| 0 <= x < g.len() && touches(#[trigger] g[x], v);
        assert(is_kept(edges, rule, g[x]));
        let k = kept(edges, rule, g[x].pair)->Some_0;
        assert(touches(edges[k], v));
    }
    if is_endpoint(edges, v) {
        let t = choose|t: int| 0 <= t < edges.len() && touches(#[trigger] edges[t], v);
        let x = choose|x: int|
            0 <= x < g.len() && (#[trigger] g[x]).pair == (#[trigger] edges[t]).pair;
        assert(touches(g[x], v));
    }
}

/// The log-domain graph has one edge for each pair that is quoted: the log-domain edge of
/// the quote that is kept for the pair. Its vertices are those of all the quotes.
pub proof fn lemma_log_graph_seed(quotes: Seq<LogEdge>, pair: Pair, v: usize)
    ensures
        seed_edge(log_graph(quotes), pair) == match kept(
            rates_of(quotes),
            Replace::When(Comparison::Greater),
            pair,
        ) {
            Some(_) => Some(log_edge(quotes, pair)),
            None => None,
        },
        is_endpoint(log_graph(quotes), v) <==> is_endpoint(rates_of(quotes), v),
{
    let rule = Replace::When(Comparison::Greater);
    let rates = rates_of(quotes);
    let g = cheapest(rates, rule);
    let lg = log_graph(quotes);
    lemma_cheapest_exists(rates, rule);
    lemma_kept_edges_seed(rates, rule, pair, v);
    assert forall|x: int| 0 <= x < lg.len() implies (#[trigger] lg[x]).pair == g[x].pair
        && lg[x] == log_edge(quotes, g[x].pair) by {
        assert(is_kept(rates, rule, g[x]));
        lemma_kept(rates, rule, g[x].pair);
    }
    lemma_seed_edge(lg, pair);
    lemma_seed_edge(g, pair);
    match seed_edge(lg, pair) {
        Some(e) => {
            let x = choose|x: int| 0 <= x < lg.len() && lg[x] == e;
            assert(g[x].pair == pair);
            assert(is_kept(rates, rule, g[x]));
        },
        None => {
            if kept(rates, rule, pair) is Some {
                let e = seed_edge(g, pair)->Some_0;
                let x = choose|x: int| 0 <= x < g.len() && g[x] == e;
                assert(lg[x].pair == pair);
            }
        },
    }
    if is_endpoint(lg, v) {
        let x = choose|x: int| 0 <= x < lg.len() && touches(#[trigger] lg[x], v);
        assert(touches(g[x], v));
    }
    if is_endpoint(g, v) {
        let x = choose|x: int| 0 <= x < g.len() && touches(#[trigger] g[x], v);
        assert(touches(lg[x], v));
    }
}

/// The multiplicative solver fails exactly where the log-domain graph of the quotes has a
/// negative cycle: a cycle of quotes whose rates multiply to more than one.
pub proof fn lemma_longest_fails_on_negative_cycles(quotes: Seq<LogEdge>)
    ensures
        longest_table(quotes) is Err <==> has_negative_cycle(log_graph(quotes)),
{
    lemma_fails_on_negative_cycles(log_graph(quotes));
}

/// Where the log-domain graph of the quotes has no negative cycle, the multiplicative
/// solver returns a table that records a path for a pair exactly where the target can be
/// reached from the source.
pub proof fn lemma_longest_records_reachable_pairs(quotes: Seq<LogEdge>, i: usize, j: usize)
    requires
        !has_negative_cycle(log_graph(quotes)),
    ensures
        longest_table(quotes) is Ok,
        longest_table(quotes)->Ok_0.dom().contains(Pair { source: i, target: j }) <==> reachable(
            log_graph(quotes),
            i,
            j,
        ),
{
    lemma_records_reachable_pairs(log_graph(quotes), i, j);
}

/// Where the log-domain graph of the quotes has no negative cycle, every currency that
/// is quoted has a path to itself in the returned table, and unless it is quoted against
/// itself this path has no hops: its rate is the identity of multiplication.
pub proof fn lemma_longest_records_self_pairs(quotes: Seq<LogEdge>, v: usize)
    requires
        !has_negative_cycle(log_graph(quotes)),
        is_endpoint(rates_of(quotes), v),
    ensures
        longest_table(quotes) is Ok,
        longest_table(quotes)->Ok_0.dom().contains(Pair { source: v, target: v }),
        kept(rates_of(quotes), Replace::When(Comparison::Greater), Pair { source: v, target: v })
            is None ==> longest_table(quotes)->Ok_0[Pair { source: v, target: v }] == identity(),
{
    let p = Pair { source: v, target: v };
    lemma_log_graph_seed(quotes, p, v);
    lemma_records_self_pairs(log_graph(quotes), v);
    let t = shortest_table(log_graph(quotes))->Ok_0;
    if kept(rates_of(quotes), Replace::When(Comparison::Greater), p) is None {
        assert(t[p] == identity());
        assert(longest_table(quotes)->Ok_0[p].edges =~= identity().edges);
    }
}

/// No further relaxation is possible in a table of the multiplicative solver: where it
/// records `i -> k` and `k -> j`, it records `i -> j` at a total in the log domain of no
/// more than the two totals together.
pub proof fn lemma_longest_no_further_relaxation(
    quotes: Seq<LogEdge>,
    i: usize,
    j: usize,
    k: usize,
)
    requires
        longest_table(quotes) is Ok,
        longest_table(quotes)->Ok_0.dom().contains(Pair { source: i, target: k }),
        longest_table(quotes)->Ok_0.dom().contains(Pair { source: k, target: j }),
    ensures
        longest_table(quotes)->Ok_0.dom().contains(Pair { source: i, target: j }),
        longest_table(quotes)->Ok_0[Pair { source: i, target: j }].total_cost <= longest_table(
            quotes,
        )->Ok_0[Pair { source: i, target: k }].total_cost + longest_table(quotes)->Ok_0[Pair {
            source: k,
            target: j,
        }].total_cost,
{
    lemma_no_further_relaxation(log_graph(quotes), i, j, k);
}

/// Every path that the multiplicative solver returns leads from its source to its target
/// over kept quotes: its hops are chained, each is the rate edge that is kept for its
/// pair, and the total is the sum of the log-domain costs of those quotes.
pub proof fn lemma_longest_paths_are_walks(quotes: Seq<LogEdge>, pair: Pair)
    requires
        longest_table(quotes) is Ok,
        longest_table(quotes)->Ok_0.dom().contains(pair),
    ensures
        ({
            let path = longest_table(quotes)->Ok_0[pair];
            let logs = shortest_table(log_graph(quotes))->Ok_0[pair];
            &&& chained(path.edges)
            &&& path.edges.len() == logs.edges.len()
            &&& path.total_cost == cost_sum(logs.edges)
            &&& is_walk(log_graph(quotes), logs.edges, pair.source, pair.target)
            &&& path.edges.len() > 0 ==> path.edges[0].pair.source == pair.source
                && path.edges.last().pair.target == pair.target
            &&& forall|t: int|
                0 <= t < path.edges.len() ==> is_kept(
                    rates_of(quotes),
                    Replace::When(Comparison::Greater),
                    #[trigger] path.edges[t],
                ) && logs.edges[t] == log_edge(quotes, path.edges[t].pair)
        }),
{
    let rule = Replace::When(Comparison::Greater);
    let rates = rates_of(quotes);
    let lg = log_graph(quotes);
    let path = longest_table(quotes)->Ok_0[pair];
    let logs = shortest_table(lg)->Ok_0[pair];
    lemma_paths_are_walks(lg, pair);
    assert forall|t: int| 0 <= t < path.edges.len() implies (#[trigger] path.edges[t]).pair
        == logs.edges[t].pair && is_kept(rates, rule, path.edges[t]) && logs.edges[t] == log_edge(
        quotes,
        path.edges[t].pair,
    ) by {
        let p = logs.edges[t].pair;
        lemma_log_graph_seed(quotes, p, 0);
        lemma_kept(rates, rule, p);
        assert(path.edges[t] == rate_edge(quotes, p));
    }
    assert forall|t: int| 0 <= t < path.edges.len() - 1 implies (
    #[trigger] path.edges[t]).pair.target == path.edges[t + 1].pair.source by {
        assert(logs.edges[t].pair.target == logs.edges[t + 1].pair.source);
        assert(path.edges[t + 1].pair == logs.edges[t + 1].pair);
    }
    if path.edges.len() > 0 {
        assert(path.edges[0].pair == logs.edges[0].pair);
        assert(path.edges[path.edges.len() - 1].pair == logs.edges[logs.edges.len() - 1].pair);
    }
}

} // verus!
