//! The ids of currencies and providers, and with them the solver's graph, are fixed by
//! the quotes.

use super::algo::{LogEdge, Pair};
use super::laws::lemma_longest_records_self_pairs;
use super::model::{is_endpoint, log_graph, longest_table, rates_of, touches};
use super::walks::has_negative_cycle;
use super::calculator::{
    currency_items, edge_of, edges_from, edges_upto, is_graph, provider_items, LogRate,
};
use super::indexer::{has_place, indexes, lemma_place, place};
use crate::order::{before, lemma_chain, lemma_one_of_three, same, total_order};
use crate::types::{Currency, Provider, ProviderPair};
use vstd::prelude::*;

verus! {

/// In two indices of the same items, the value at a position of the one has its place in
/// the other at that position or after it.
proof fn lemma_place_not_before<T: Ord>(a: Seq<T>, b: Seq<T>, items: Seq<T>, i: int)
    requires
        total_order::<T>(),
        indexes(a, items),
        indexes(b, items),
        0 <= i < a.len(),
    ensures
        has_place(b, a[i]),
        i <= place(b, a[i]) < b.len(),
        same(b[place(b, a[i])], a[i]),
    decreases i,
{
    assert(items.contains(a[i]));
    let j = choose|j: int| 0 <= j < items.len() && items[j] == a[i];
    assert(has_place(b, items[j]));
    let f = place(b, a[i]);
    if i > 0 {
        lemma_place_not_before(a, b, items, i - 1);
        let e = place(b, a[i - 1]);
        assert(before(a[i - 1], a[i]));
        lemma_chain(b[e], a[i - 1], a[i]);
        lemma_one_of_three(b[f], a[i]);
        lemma_chain(b[e], a[i], b[f]);
        assert(before(b[e], b[f]));
        lemma_one_of_three(b[e], b[f]);
        lemma_one_of_three(b[f], b[f]);
        if f < e {
            assert(before(b[f], b[e]));
        }
    }
}

/// Two indices of the same items have the same length, and their values take the same
/// places position by position.
pub proof fn lemma_indexes_agree<T: Ord>(a: Seq<T>, b: Seq<T>, items: Seq<T>)
    requires
        total_order::<T>(),
        indexes(a, items),
        indexes(b, items),
    ensures
        a.len() == b.len(),
        forall|i: int| 0 <= i < a.len() ==> #[trigger] same(a[i], b[i]),
{
    if a.len() > 0 {
        lemma_place_not_before(a, b, items, a.len() - 1);
    }
    if b.len() > 0 {
        lemma_place_not_before(b, a, items, b.len() - 1);
    }
    assert forall|i: int| 0 <= i < a.len() implies #[trigger] same(a[i], b[i]) by {
        lemma_place_not_before(a, b, items, i);
        let f = place(b, a[i]);
        lemma_place_not_before(b, a, items, f);
        lemma_one_of_three(b[f], a[i]);
        lemma_place(a, b[f], i);
    }
}

/// A value has the same id in two indices of the same items.
pub proof fn lemma_same_place<T: Ord>(a: Seq<T>, b: Seq<T>, items: Seq<T>, x: T)
    requires
        total_order::<T>(),
        indexes(a, items),
        indexes(b, items),
        has_place(a, x),
    ensures
        has_place(b, x),
        place(a, x) == place(b, x),
{
    lemma_indexes_agree(a, b, items);
    let i = place(a, x);
    assert(same(a[i], b[i]));
    lemma_one_of_three(a[i], b[i]);
    lemma_chain(b[i], a[i], x);
    lemma_place(b, x, i);
}

/// The edges of the quotes with one source are the same under two indices.
proof fn lemma_edges_from_agree<C: Currency, P: Provider>(
    quotes: Seq<(ProviderPair<C, P>, LogRate)>,
    cs1: Seq<C>,
    ps1: Seq<P>,
    cs2: Seq<C>,
    ps2: Seq<P>,
    c1: C,
    c2: C,
    n: nat,
)
    requires
        total_order::<C>(),
        total_order::<P>(),
        indexes(cs1, currency_items(quotes)),
        indexes(cs2, currency_items(quotes)),
        indexes(ps1, provider_items(quotes)),
        indexes(ps2, provider_items(quotes)),
        same(c1, c2),
        n <= quotes.len(),
    ensures
        edges_from(quotes, cs1, ps1, c1, n) == edges_from(quotes, cs2, ps2, c2, n),
    decreases n,
{
    if n > 0 {
        lemma_edges_from_agree(quotes, cs1, ps1, cs2, ps2, c1, c2, (n - 1) as nat);
        let q = quotes[n - 1];
        lemma_one_of_three(c1, c2);
        lemma_chain(c1, c2, q.0.pair.source);
        lemma_chain(c2, c1, q.0.pair.source);
        let items = currency_items(quotes);
        assert(items[n - 1] == q.0.pair.source);
        assert(items[quotes.len() + n - 1] == q.0.pair.target);
        assert(has_place(cs1, items[n - 1]));
        assert(has_place(cs1, items[quotes.len() + n - 1]));
        assert(provider_items(quotes)[n - 1] == q.0.provider);
        assert(has_place(ps1, provider_items(quotes)[n - 1]));
        lemma_same_place(cs1, cs2, items, q.0.pair.source);
        lemma_same_place(cs1, cs2, items, q.0.pair.target);
        lemma_same_place(ps1, ps2, provider_items(quotes), q.0.provider);
        assert(edge_of(q, cs1, ps1) == edge_of(q, cs2, ps2));
    }
}

/// The edges of the quotes with the first `m` sources are the same under two indices.
proof fn lemma_edges_upto_agree<C: Currency, P: Provider>(
    quotes: Seq<(ProviderPair<C, P>, LogRate)>,
    cs1: Seq<C>,
    ps1: Seq<P>,
    cs2: Seq<C>,
    ps2: Seq<P>,
    m: nat,
)
    requires
        total_order::<C>(),
        total_order::<P>(),
        indexes(cs1, currency_items(quotes)),
        indexes(cs2, currency_items(quotes)),
        indexes(ps1, provider_items(quotes)),
        indexes(ps2, provider_items(quotes)),
        m <= cs1.len(),
    ensures
        edges_upto(quotes, cs1, ps1, m) == edges_upto(quotes, cs2, ps2, m),
    decreases m,
{
    if m > 0 {
        lemma_edges_upto_agree(quotes, cs1, ps1, cs2, ps2, (m - 1) as nat);
        lemma_indexes_agree(cs1, cs2, currency_items(quotes));
        assert(same(cs1[m - 1], cs2[m - 1]));
        lemma_edges_from_agree(
            quotes,
            cs1,
            ps1,
            cs2,
            ps2,
            cs1[m - 1],
            cs2[m - 1],
            quotes.len(),
        );
    }
}

/// The quotes have one graph only: two calls with the same quotes build the same edges,
/// whatever values stand for the currencies and providers in their indices.
pub proof fn lemma_one_graph<C: Currency, P: Provider>(
    quotes: Seq<(ProviderPair<C, P>, LogRate)>,
    edges1: Seq<LogEdge>,
    cs1: Seq<C>,
    ps1: Seq<P>,
    edges2: Seq<LogEdge>,
    cs2: Seq<C>,
    ps2: Seq<P>,
)
    requires
        total_order::<C>(),
        total_order::<P>(),
        is_graph(edges1, quotes, cs1, ps1),
        is_graph(edges2, quotes, cs2, ps2),
    ensures
        edges1 == edges2,
{
    lemma_indexes_agree(cs1, cs2, currency_items(quotes));
    lemma_edges_upto_agree(quotes, cs1, ps1, cs2, ps2, cs1.len());
}

/// `e` is the edge of one of the first `n` quotes whose source takes the place of `c`.
pub open spec fn is_edge_from<C: Currency, P: Provider>(
    e: LogEdge,
    quotes: Seq<(ProviderPair<C, P>, LogRate)>,
    cs: Seq<C>,
    ps: Seq<P>,
    c: C,
    n: nat,
) -> bool {
    exists|k: int|
        0 <= k < n && same(c, quotes[k].0.pair.source) && e == #[trigger] edge_of(
            quotes[k],
            cs,
            ps,
        )
}

/// The edges of one source are the edges of the quotes with that source.
proof fn lemma_edges_from<C: Currency, P: Provider>(
    quotes: Seq<(ProviderPair<C, P>, LogRate)>,
    cs: Seq<C>,
    ps: Seq<P>,
    c: C,
    n: nat,
)
    requires
        n <= quotes.len(),
    ensures
        forall|x: int|
            0 <= x < edges_from(quotes, cs, ps, c, n).len() ==> is_edge_from(
                #[trigger] edges_from(quotes, cs, ps, c, n)[x],
                quotes,
                cs,
                ps,
                c,
                n,
            ),
        forall|k: int|
            0 <= k < n && same(c, quotes[k].0.pair.source) ==> edges_from(
                quotes,
                cs,
                ps,
                c,
                n,
            ).contains(#[trigger] edge_of(quotes[k], cs, ps)),
    decreases n,
{
    if n > 0 {
        let r = edges_from(quotes, cs, ps, c, n);
        let d = edges_from(quotes, cs, ps, c, (n - 1) as nat);
        lemma_edges_from(quotes, cs, ps, c, (n - 1) as nat);
        let last = edge_of(quotes[n - 1], cs, ps);
        assert forall|x: int| 0 <= x < r.len() implies is_edge_from(
            #[trigger] r[x],
            quotes,
            cs,
            ps,
            c,
            n,
        ) by {
            if x < d.len() {
                assert(is_edge_from(d[x], quotes, cs, ps, c, (n - 1) as nat));
                let k = choose|k: int|
                    0 <= k < n - 1 && same(c, quotes[k].0.pair.source) && d[x]
                        == #[trigger] edge_of(quotes[k], cs, ps);
                assert(r[x] == edge_of(quotes[k], cs, ps));
            } else {
                assert(r[x] == last);
            }
        }
        assert forall|k: int| 0 <= k < n && same(c, quotes[k].0.pair.source) implies r.contains(
            #[trigger] edge_of(quotes[k], cs, ps),
        ) by {
            if k < n - 1 {
                let e = edge_of(quotes[k], cs, ps);
                assert(d.contains(e));
                let x = choose|x: int| 0 <= x < d.len() && d[x] == e;
                assert(r[x] == e);
            } else {
                assert(r[r.len() - 1] == last);
            }
        }
    }
}

/// `e` is the edge of one of the quotes.
pub open spec fn is_quote_edge<C: Currency, P: Provider>(
    e: LogEdge,
    quotes: Seq<(ProviderPair<C, P>, LogRate)>,
    cs: Seq<C>,
    ps: Seq<P>,
) -> bool {
    exists|k: int| 0 <= k < quotes.len() && e == #[trigger] edge_of(quotes[k], cs, ps)
}

/// The edges of the first `m` sources are the edges of the quotes with those sources.
proof fn lemma_edges_upto<C: Currency, P: Provider>(
    quotes: Seq<(ProviderPair<C, P>, LogRate)>,
    cs: Seq<C>,
    ps: Seq<P>,
    m: nat,
)
    requires
        m <= cs.len(),
    ensures
        forall|x: int|
            0 <= x < edges_upto(quotes, cs, ps, m).len() ==> is_quote_edge(
                #[trigger] edges_upto(quotes, cs, ps, m)[x],
                quotes,
                cs,
                ps,
            ),
        forall|c: int, k: int|
            0 <= c < m && 0 <= k < quotes.len() && #[trigger] same(cs[c], quotes[k].0.pair.source)
                ==> edges_upto(quotes, cs, ps, m).contains(edge_of(quotes[k], cs, ps)),
    decreases m,
{
    if m > 0 {
        let r = edges_upto(quotes, cs, ps, m);
        let d = edges_upto(quotes, cs, ps, (m - 1) as nat);
        let f = edges_from(quotes, cs, ps, cs[m - 1], quotes.len());
        lemma_edges_upto(quotes, cs, ps, (m - 1) as nat);
        lemma_edges_from(quotes, cs, ps, cs[m - 1], quotes.len());
        assert forall|x: int| 0 <= x < r.len() implies is_quote_edge(
            #[trigger] r[x],
            quotes,
            cs,
            ps,
        ) by {
            if x < d.len() {
                assert(r[x] == d[x]);
                assert(is_quote_edge(d[x], quotes, cs, ps));
            } else {
                let e = f[x - d.len()];
                assert(r[x] == e);
                assert(is_edge_from(e, quotes, cs, ps, cs[m - 1], quotes.len()));
                let k = choose|k: int|
                    0 <= k < quotes.len() && same(cs[m - 1], quotes[k].0.pair.source) && e
                        == #[trigger] edge_of(quotes[k], cs, ps);
                assert(e == edge_of(quotes[k], cs, ps));
            }
        }
        assert forall|c: int, k: int|
            0 <= c < m && 0 <= k < quotes.len() && #[trigger] same(
                cs[c],
                quotes[k].0.pair.source,
            ) implies r.contains(edge_of(quotes[k], cs, ps)) by {
            let e = edge_of(quotes[k], cs, ps);
            if c < m - 1 {
                assert(d.contains(e));
                let x = choose|x: int| 0 <= x < d.len() && d[x] == e;
                assert(r[x] == e);
            } else {
                assert(f.contains(e));
                let x = choose|x: int| 0 <= x < f.len() && f[x] == e;
                assert(r[d.len() + x] == e);
            }
        }
    }
}

/// The graph of the quotes holds the edge of every quote, and nothing but edges of quotes.
pub proof fn lemma_graph_holds_the_quotes<C: Currency, P: Provider>(
    quotes: Seq<(ProviderPair<C, P>, LogRate)>,
    edges: Seq<LogEdge>,
    cs: Seq<C>,
    ps: Seq<P>,
)
    requires
        total_order::<C>(),
        total_order::<P>(),
        is_graph(edges, quotes, cs, ps),
    ensures
        forall|k: int|
            0 <= k < quotes.len() ==> edges.contains(#[trigger] edge_of(quotes[k], cs, ps)),
        forall|x: int| 0 <= x < edges.len() ==> is_quote_edge(#[trigger] edges[x], quotes, cs, ps),
{
    lemma_edges_upto(quotes, cs, ps, cs.len());
    assert forall|k: int| 0 <= k < quotes.len() implies edges.contains(
        #[trigger] edge_of(quotes[k], cs, ps),
    ) by {
        let items = currency_items(quotes);
        assert(items[k] == quotes[k].0.pair.source);
        assert(has_place(cs, items[k]));
        let c = place(cs, quotes[k].0.pair.source);
        assert(same(cs[c], quotes[k].0.pair.source));
    }
}

/// Where no cycle of quotes compounds to more than one, every currency that is quoted, as
/// a source or as a target, has a path to itself in the table of best paths.
pub proof fn lemma_every_currency_has_its_self_pair<C: Currency, P: Provider>(
    quotes: Seq<(ProviderPair<C, P>, LogRate)>,
    edges: Seq<LogEdge>,
    cs: Seq<C>,
    ps: Seq<P>,
    k: int,
)
    requires
        total_order::<C>(),
        total_order::<P>(),
        is_graph(edges, quotes, cs, ps),
        !has_negative_cycle(log_graph(edges)),
        0 <= k < quotes.len(),
    ensures
        longest_table(edges) is Ok,
        longest_table(edges)->Ok_0.dom().contains(
            Pair {
                source: place(cs, quotes[k].0.pair.source) as usize,
                target: place(cs, quotes[k].0.pair.source) as usize,
            },
        ),
        longest_table(edges)->Ok_0.dom().contains(
            Pair {
                source: place(cs, quotes[k].0.pair.target) as usize,
                target: place(cs, quotes[k].0.pair.target) as usize,
            },
        ),
{
    lemma_graph_holds_the_quotes(quotes, edges, cs, ps);
    let e = edge_of(quotes[k], cs, ps);
    assert(edges.contains(e));
    let x = choose|x: int| 0 <= x < edges.len() && edges[x] == e;
    let rates = rates_of(edges);
    assert(rates[x] == e.edge);
    assert(touches(rates[x], e.edge.pair.source));
    assert(touches(rates[x], e.edge.pair.target));
    lemma_longest_records_self_pairs(edges, e.edge.pair.source);
    lemma_longest_records_self_pairs(edges, e.edge.pair.target);
}

} // verus!
