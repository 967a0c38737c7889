//! Mathematical model of the solvers: vertices, seeding, relaxation passes, and the tables
//! that come of them.

use super::algo::{Comparison, Edge, LogEdge, Pair, Path, PathCalculationError, Replace};
use super::dedup::{cheapest, kept};
use vstd::prelude::*;

verus! {

/// A path as the solver sees it: the sum of its hops' costs and the hops in travel order.
pub struct PathModel {
    pub total_cost: int,
    pub edges: Seq<Edge>,
}

/// The recorded best path of every ordered pair that has one.
pub type Table = Map<Pair, PathModel>;

/// The path without hops, which every vertex has to itself at the start.
pub open spec fn identity() -> PathModel {
    PathModel { total_cost: 0, edges: Seq::empty() }
}

/// The path made of one edge.
pub open spec fn hop(e: Edge) -> PathModel {
    PathModel { total_cost: e.cost as int, edges: seq![e] }
}

/// The listing of a table in ascending order of its pairs.
pub open spec fn pair_before(p: Pair, q: Pair) -> bool {
    p.source < q.source || (p.source == q.source && p.target < q.target)
}

/// Strictly ascending vertex ids.
pub open spec fn ascending(s: Seq<usize>) -> bool {
    forall|a: int, b: int| 0 <= a < b < s.len() ==> s[a] < s[b]
}

/// `v` is the source or the target of `e`.
pub open spec fn touches(e: Edge, v: usize) -> bool {
    e.pair.source == v || e.pair.target == v
}

/// `v` is the source or the target of one of `edges`.
pub open spec fn is_endpoint(edges: Seq<Edge>, v: usize) -> bool {
    exists|t: int| 0 <= t < edges.len() && touches(#[trigger] edges[t], v)
}

/// `s` holds exactly the endpoints of `edges`, each once, in ascending order.
pub open spec fn lists_endpoints(s: Seq<usize>, edges: Seq<Edge>) -> bool {
    &&& ascending(s)
    &&& forall|v: usize| s.contains(v) <==> is_endpoint(edges, v)
}

/// The vertex set of a graph: the endpoints of its edges in ascending order.
pub open spec fn vertices(edges: Seq<Edge>) -> Seq<usize> {
    choose|s: Seq<usize>| lists_endpoints(s, edges)
}

/// Two ascending sequences with the same elements are the same sequence.
pub proof fn lemma_ascending_unique(s1: Seq<usize>, s2: Seq<usize>)
    requires
        ascending(s1),
        ascending(s2),
        forall|v: usize| s1.contains(v) <==> s2.contains(v),
    ensures
        s1 == s2,
    decreases s1.len(),
{
    if s1.len() == 0 {
        if s2.len() > 0 {
            assert(s2.contains(s2[0]));
            assert(s1.contains(s2[0]));
        }
        assert(s1 =~= s2);
    } else {
        let m1 = s1.last();
        assert(s1.contains(m1));
        assert(s2.contains(m1));
        assert(s2.len() > 0);
        let m2 = s2.last();
        assert(s2.contains(m2));
        assert(s1.contains(m2));
        assert(m1 == m2) by {
            let a1 = choose|a: int| 0 <= a < s1.len() && s1[a] == m2;
            let a2 = choose|a: int| 0 <= a < s2.len() && s2[a] == m1;
            assert(s1[a1] <= m1 && s2[a2] <= m2);
        }
        let r1 = s1.drop_last();
        let r2 = s2.drop_last();
        assert forall|v: usize| r1.contains(v) <==> r2.contains(v) by {
            if r1.contains(v) {
                let a = choose|a: int| 0 <= a < r1.len() && r1[a] == v;
                assert(s1[a] == v);
                assert(s1.contains(v));
                let b = choose|b: int| 0 <= b < s2.len() && s2[b] == v;
                assert(v < m1);
                assert(b < s2.len() - 1);
                assert(r2[b] == v);
            }
            if r2.contains(v) {
                let a = choose|a: int| 0 <= a < r2.len() && r2[a] == v;
                assert(s2[a] == v);
                assert(s2.contains(v));
                let b = choose|b: int| 0 <= b < s1.len() && s1[b] == v;
                assert(v < m2);
                assert(b < s1.len() - 1);
                assert(r1[b] == v);
            }
        }
        lemma_ascending_unique(r1, r2);
        assert(s1 =~= r1.push(m1));
        assert(s2 =~= r2.push(m2));
    }
}

/// Any sequence that lists the endpoints of `edges` is its vertex set.
pub proof fn lemma_vertices_is(s: Seq<usize>, edges: Seq<Edge>)
    requires
        lists_endpoints(s, edges),
    ensures
        s == vertices(edges),
        lists_endpoints(vertices(edges), edges),
{
    assert(lists_endpoints(vertices(edges), edges));
    lemma_ascending_unique(s, vertices(edges));
}

/// The ascending sequence that holds the elements of `s` and `v`.
pub open spec fn with_vertex(s: Seq<usize>, v: usize) -> Seq<usize>
    decreases s.len(),
{
    if s.len() == 0 {
        seq![v]
    } else if s.last() < v {
        s.push(v)
    } else if s.last() == v {
        s
    } else {
        with_vertex(s.drop_last(), v).push(s.last())
    }
}

/// Adding a vertex to an ascending sequence keeps it ascending and adds nothing else.
pub proof fn lemma_with_vertex(s: Seq<usize>, v: usize)
    requires
        ascending(s),
    ensures
        ascending(with_vertex(s, v)),
        forall|x: usize| with_vertex(s, v).contains(x) <==> (s.contains(x) || x == v),
    decreases s.len(),
{
    let r = with_vertex(s, v);
    if s.len() == 0 {
        assert(r[0] == v);
    } else if s.last() < v {
        assert(r[s.len() as int] == v);
        assert forall|x: usize| s.contains(x) implies r.contains(x) by {
            let a = choose|a: int| 0 <= a < s.len() && s[a] == x;
            assert(r[a] == x);
        }
    } else if s.last() == v {
        assert(s[s.len() - 1] == v);
    } else {
        let d = s.drop_last();
        let top = s.last();
        let w = with_vertex(d, v);
        lemma_with_vertex(d, v);
        assert(r == w.push(top));
        assert(forall|x: usize| w.contains(x) <==> (d.contains(x) || x == v));
        assert forall|x: usize| d.contains(x) implies x < top && s.contains(x) by {
            let c = choose|c: int| 0 <= c < d.len() && d[c] == x;
            assert(s[c] == x);
        }
        assert forall|a: int| 0 <= a < w.len() implies w[a] < top by {
            assert(w.contains(w[a]));
        }
        assert forall|x: usize| r.contains(x) implies s.contains(x) || x == v by {
            let a = choose|a: int| 0 <= a < r.len() && r[a] == x;
            if a < w.len() {
                assert(w.contains(w[a]));
            } else {
                assert(s[s.len() - 1] == x);
            }
        }
        assert forall|x: usize| w.contains(x) implies r.contains(x) by {
            let c = choose|c: int| 0 <= c < w.len() && w[c] == x;
            assert(r[c] == x);
        }
        assert(r[r.len() - 1] == top);
        assert forall|x: usize| s.contains(x) implies r.contains(x) by {
            let a = choose|a: int| 0 <= a < s.len() && s[a] == x;
            if a < d.len() {
                assert(d[a] == x);
                assert(d.contains(x));
            }
        }
        assert(w.contains(v));
    }
}

/// The ascending sequence of the endpoints of `edges`.
pub open spec fn endpoints_in_order(edges: Seq<Edge>) -> Seq<usize>
    decreases edges.len(),
{
    if edges.len() == 0 {
        Seq::empty()
    } else {
        with_vertex(
            with_vertex(endpoints_in_order(edges.drop_last()), edges.last().pair.source),
            edges.last().pair.target,
        )
    }
}

/// Every graph has a vertex set.
pub proof fn lemma_vertices_exist(edges: Seq<Edge>)
    ensures
        lists_endpoints(vertices(edges), edges),
        vertices(edges) == endpoints_in_order(edges),
    decreases edges.len(),
{
    let s = endpoints_in_order(edges);
    if edges.len() == 0 {
        assert(lists_endpoints(s, edges));
    } else {
        let d = edges.drop_last();
        let e = edges.last();
        lemma_vertices_exist(d);
        let s0 = endpoints_in_order(d);
        let s1 = with_vertex(s0, e.pair.source);
        lemma_with_vertex(s0, e.pair.source);
        lemma_with_vertex(s1, e.pair.target);
        assert forall|v: usize| s.contains(v) <==> is_endpoint(edges, v) by {
            if is_endpoint(edges, v) {
                let x = choose|x: int| 0 <= x < edges.len() && touches(#[trigger] edges[x], v);
                if x < d.len() {
                    assert(touches(d[x], v));
                }
            }
            if s0.contains(v) {
                let x = choose|x: int| 0 <= x < d.len() && touches(#[trigger] d[x], v);
                assert(touches(edges[x], v));
            }
            if v == e.pair.source || v == e.pair.target {
                assert(touches(edges[edges.len() - 1], v));
            }
        }
    }
    lemma_vertices_is(s, edges);
}

/// The edge that seeds `pair`: the last of `edges` on that pair, if there is one.
pub open spec fn seed_edge(edges: Seq<Edge>, pair: Pair) -> Option<Edge>
    decreases edges.len(),
{
    if edges.len() == 0 {
        None
    } else if edges.last().pair == pair {
        Some(edges.last())
    } else {
        seed_edge(edges.drop_last(), pair)
    }
}

/// The edge that seeds a pair lies on that pair and is one of the edges.
pub proof fn lemma_seed_edge(edges: Seq<Edge>, pair: Pair)
    ensures
        match seed_edge(edges, pair) {
            Some(e) => e.pair == pair && edges.contains(e),
            None => forall|t: int| 0 <= t < edges.len() ==> (#[trigger] edges[t]).pair != pair,
        },
    decreases edges.len(),
{
    if edges.len() > 0 {
        if edges.last().pair == pair {
            assert(edges[edges.len() - 1] == edges.last());
        } else {
            lemma_seed_edge(edges.drop_last(), pair);
            match seed_edge(edges.drop_last(), pair) {
                Some(e) => {
                    let t = choose|t: int|
                        0 <= t < edges.drop_last().len() && edges.drop_last()[t] == e;
                    assert(edges[t] == e);
                },
                None => {
                    assert forall|t: int| 0 <= t < edges.len() implies (#[trigger] edges[t]).pair
                        != pair by {
                        if t < edges.len() - 1 {
                            assert(edges.drop_last()[t] == edges[t]);
                        }
                    }
                },
            }
        }
    }
}

/// The table before any relaxation, over the vertex set `vs`: every edge seeds its own pair
/// with a one-hop path, and every other self-pair holds the identity path.
pub open spec fn seed_over(edges: Seq<Edge>, vs: Seq<usize>) -> Table {
    Map::new(
        |p: Pair| seed_edge(edges, p) is Some || (p.source == p.target && vs.contains(p.source)),
        |p: Pair|
            match seed_edge(edges, p) {
                Some(e) => hop(e),
                None => identity(),
            },
    )
}

/// The table before any relaxation.
pub open spec fn seed(edges: Seq<Edge>) -> Table {
    seed_over(edges, vertices(edges))
}

/// One relaxation: where paths `i -> k` and `k -> j` are both recorded and together cost
/// strictly less than what is recorded for `i -> j` (or nothing is), their concatenation
/// becomes the path `i -> j`.
pub open spec fn relax(t: Table, k: usize, i: usize, j: usize) -> Table {
    let ik = Pair { source: i, target: k };
    let kj = Pair { source: k, target: j };
    let ij = Pair { source: i, target: j };
    if t.dom().contains(ik) && t.dom().contains(kj) && (!t.dom().contains(ij)
        || t[ik].total_cost + t[kj].total_cost < t[ij].total_cost) {
        t.insert(
            ij,
            PathModel {
                total_cost: t[ik].total_cost + t[kj].total_cost,
                edges: t[ik].edges + t[kj].edges,
            },
        )
    } else {
        t
    }
}

/// Relaxation through `k` from `i` to the first `n` vertices in turn.
pub open spec fn relax_targets(t: Table, vs: Seq<usize>, k: usize, i: usize, n: nat) -> Table
    decreases n,
{
    if n == 0 {
        t
    } else {
        relax(relax_targets(t, vs, k, i, (n - 1) as nat), k, i, vs[n - 1])
    }
}

/// Relaxation through `k` from each of the first `m` vertices in turn to every vertex.
pub open spec fn relax_sources(t: Table, vs: Seq<usize>, k: usize, m: nat) -> Table
    decreases m,
{
    if m == 0 {
        t
    } else {
        relax_targets(relax_sources(t, vs, k, (m - 1) as nat), vs, k, vs[m - 1], vs.len())
    }
}

/// Relaxation through each of the first `p` vertices in turn.
pub open spec fn relax_through(t: Table, vs: Seq<usize>, p: nat) -> Table
    decreases p,
{
    if p == 0 {
        t
    } else {
        relax_sources(relax_through(t, vs, (p - 1) as nat), vs, vs[p - 1], vs.len())
    }
}

/// The table after the three nested passes over the vertex set.
pub open spec fn converged(edges: Seq<Edge>) -> Table {
    relax_through(seed(edges), vertices(edges), vertices(edges).len())
}

/// Some vertex has a recorded path to itself of negative cost.
pub open spec fn has_negative_self_pair(t: Table, vs: Seq<usize>) -> bool {
    exists|a: int|
        0 <= a < vs.len() && (#[trigger] t[Pair { source: vs[a], target: vs[a] }]).total_cost < 0
}

/// What the solver returns for `edges`: the converged table, or the failure where a
/// self-pair ends with a negative cost.
pub open spec fn shortest_table(edges: Seq<Edge>) -> Result<Table, PathCalculationError> {
    if has_negative_self_pair(converged(edges), vertices(edges)) {
        Err(PathCalculationError::NegativeCyclesError)
    } else {
        Ok(converged(edges))
    }
}

/// The sum of the costs of a sequence of edges.
pub open spec fn cost_sum(w: Seq<Edge>) -> int
    decreases w.len(),
{
    if w.len() == 0 {
        0
    } else {
        cost_sum(w.drop_last()) + w.last().cost
    }
}

/// Costs add up over concatenation.
pub proof fn lemma_cost_sum_concat(a: Seq<Edge>, b: Seq<Edge>)
    ensures
        cost_sum(a + b) == cost_sum(a) + cost_sum(b),
    decreases b.len(),
{
    if b.len() == 0 {
        assert(a + b =~= a);
    } else {
        lemma_cost_sum_concat(a, b.drop_last());
        assert((a + b).drop_last() =~= a + b.drop_last());
    }
}

/// A sum of 64-bit costs is bounded by the number of its terms.
pub proof fn lemma_cost_sum_bound(w: Seq<Edge>)
    ensures
        -(w.len() * 0x8000_0000_0000_0000) <= cost_sum(w) <= w.len() * 0x7fff_ffff_ffff_ffff,
    decreases w.len(),
{
    if w.len() > 0 {
        lemma_cost_sum_bound(w.drop_last());
    }
}

/// What `t` records for `p`, if anything.
pub open spec fn entry(t: Table, p: Pair) -> Option<PathModel> {
    if t.dom().contains(p) {
        Some(t[p])
    } else {
        None
    }
}

/// What every table of the solver satisfies over its vertex set `vs`: recorded pairs are
/// pairs of vertices, every self-pair is recorded, and every recorded total is the sum of
/// the recorded hops.
pub open spec fn well_formed(t: Table, vs: Seq<usize>) -> bool {
    &&& forall|p: Pair| #[trigger]
        t.dom().contains(p) ==> vs.contains(p.source) && vs.contains(p.target)
    &&& forall|v: usize| vs.contains(v) ==> #[trigger] t.dom().contains(Pair { source: v, target: v })
    &&& forall|p: Pair| #[trigger] t.dom().contains(p) ==> t[p].total_cost == cost_sum(t[p].edges)
}

/// A relaxation between vertices keeps a table well formed.
pub proof fn lemma_relax_well_formed(t: Table, vs: Seq<usize>, k: usize, i: usize, j: usize)
    requires
        well_formed(t, vs),
        vs.contains(i),
        vs.contains(j),
    ensures
        well_formed(relax(t, k, i, j), vs),
{
    let ik = Pair { source: i, target: k };
    let kj = Pair { source: k, target: j };
    if t.dom().contains(ik) && t.dom().contains(kj) {
        lemma_cost_sum_concat(t[ik].edges, t[kj].edges);
    }
}

/// The seeded table is well formed over any sequence that holds the edges' endpoints.
pub proof fn lemma_seed_well_formed(edges: Seq<Edge>, vs: Seq<usize>)
    requires
        forall|v: usize| is_endpoint(edges, v) ==> vs.contains(v),
    ensures
        well_formed(seed_over(edges, vs), vs),
{
    let t = seed_over(edges, vs);
    assert forall|p: Pair| #[trigger] t.dom().contains(p) implies vs.contains(p.source)
        && vs.contains(p.target) && t[p].total_cost == cost_sum(t[p].edges) by {
        lemma_seed_edge(edges, p);
        match seed_edge(edges, p) {
            Some(e) => {
                let x = choose|x: int| 0 <= x < edges.len() && edges[x] == e;
                assert(touches(edges[x], p.source));
                assert(touches(edges[x], p.target));
                assert(seq![e].drop_last() =~= Seq::<Edge>::empty());
                assert(cost_sum(seq![e]) == e.cost) by {
                    reveal_with_fuel(cost_sum, 2);
                }
            },
            None => {},
        }
    }
}

/// The rate edges of `quotes`.
pub open spec fn rates_of(quotes: Seq<LogEdge>) -> Seq<Edge> {
    quotes.map_values(|q: LogEdge| q.edge)
}

/// The edge with the lowest rate among the parallel quotes on `pair`: the first of them,
/// where several have that rate.
pub open spec fn rate_edge(quotes: Seq<LogEdge>, pair: Pair) -> Edge {
    rates_of(quotes)[kept(rates_of(quotes), Replace::When(Comparison::Greater), pair)->Some_0]
}

/// The log-domain edge that stands for the kept rate edge on `pair`.
pub open spec fn log_edge(quotes: Seq<LogEdge>, pair: Pair) -> Edge {
    let k = kept(rates_of(quotes), Replace::When(Comparison::Greater), pair)->Some_0;
    Edge { pair: quotes[k].edge.pair, provider: quotes[k].edge.provider, cost: quotes[k].log_cost }
}

/// The graph that the additive solver is run on: one edge for each pair that is quoted,
/// at the log-domain cost of the kept quote, in ascending order of the pairs.
pub open spec fn log_graph(quotes: Seq<LogEdge>) -> Seq<Edge> {
    cheapest(rates_of(quotes), Replace::When(Comparison::Greater)).map_values(
        |e: Edge| log_edge(quotes, e.pair),
    )
}

/// A path of the log-domain graph with each hop replaced by the rate edge on its pair.
pub open spec fn with_rates(quotes: Seq<LogEdge>, path: PathModel) -> PathModel {
    PathModel {
        total_cost: path.total_cost,
        edges: path.edges.map_values(|e: Edge| rate_edge(quotes, e.pair)),
    }
}

/// What the multiplicative solver returns for `quotes`: the additive solver's table on the
/// log-domain graph, with the hops of every path turned back into rate edges.
pub open spec fn longest_table(quotes: Seq<LogEdge>) -> Result<Table, PathCalculationError> {
    match shortest_table(log_graph(quotes)) {
        Ok(t) => Ok(t.map_values(|path: PathModel| with_rates(quotes, path))),
        Err(e) => Err(e),
    }
}

/// `list` holds exactly the entries of `t`, in ascending order of their pairs.
pub open spec fn lists_table(list: Seq<(Pair, Path)>, t: Table) -> bool {
    &&& forall|x: int, y: int|
        0 <= x < y < list.len() ==> pair_before((#[trigger] list[x]).0, (#[trigger] list[y]).0)
    &&& forall|x: int|
        0 <= x < list.len() ==> t.dom().contains((#[trigger] list[x]).0) && list[x].1@
            == t[list[x].0]
    &&& forall|p: Pair|
        t.dom().contains(p) ==> exists|x: int| 0 <= x < list.len() && (#[trigger] list[x]).0 == p
}

/// `r` is what a solver returns where `table` is what it has to find: the failure where
/// there is no table, and else the listing of the table.
pub open spec fn answers(
    r: Result<Vec<(Pair, Path)>, PathCalculationError>,
    table: Result<Table, PathCalculationError>,
) -> bool {
    match r {
        Ok(list) => table is Ok && lists_table(list@, table->Ok_0),
        Err(e) => table is Err && e == table->Err_0,
    }
}

/// The pairs and paths of two results are the same, in the same order, or both are the
/// same failure.
pub open spec fn same_results(
    r1: Result<Vec<(Pair, Path)>, PathCalculationError>,
    r2: Result<Vec<(Pair, Path)>, PathCalculationError>,
) -> bool {
    match (r1, r2) {
        (Ok(l1), Ok(l2)) => {
            &&& l1@.len() == l2@.len()
            &&& forall|x: int|
                0 <= x < l1@.len() ==> (#[trigger] l1@[x]).0 == l2@[x].0 && l1@[x].1@ == l2@[x].1@
        },
        (Err(e1), Err(e2)) => e1 == e2,
        _ => false,
    }
}

} // verus!
