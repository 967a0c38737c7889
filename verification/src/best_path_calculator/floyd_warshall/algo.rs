//! The path solver on dense integer vertex ids and integer costs.

use super::dedup::{
    cheapest, compare, is_kept, kept, lemma_ascending_is_kept, lemma_kept_at_insert,
    lemma_kept_at_same, lemma_lists_kept_unique, lists_kept, lists_kept_at, replaces,
};
use super::model::{
    answers, ascending, converged, cost_sum, entry, hop, identity, is_endpoint,
    lemma_cost_sum_bound, lemma_cost_sum_concat, lemma_relax_well_formed, lemma_seed_edge,
    lemma_seed_well_formed, lemma_vertices_is, lists_endpoints, lists_table, log_edge, log_graph,
    longest_table, pair_before, rate_edge, rates_of, relax, relax_sources, relax_targets,
    relax_through, seed, seed_edge, seed_over, shortest_table, touches, vertices, well_formed,
    with_rates, PathModel, Table,
};
use super::walks::{lemma_paths_are_walks, seeded};
use core::cmp::Ordering;
use vstd::prelude::*;

verus! {

/// An ordered pair of vertices; `(a, b)` and `(b, a)` are different pairs.
#[derive(Copy, Clone, Debug, PartialEq, Eq, PartialOrd, Ord, Structural)]
pub struct Pair {
    pub source: usize,
    pub target: usize,
}

/// One provider's quoted cost of going from `pair.source` to `pair.target`.
#[derive(Copy, Clone, Debug, PartialEq, Eq, PartialOrd, Ord, Structural)]
pub struct Edge {
    pub pair: Pair,
    pub provider: usize,
    pub cost: i64,
}

/// A quoted rate together with the cost that stands for it in the log domain.
///
/// `edge.cost` stands for the rate: a higher rate has a higher `edge.cost`. `log_cost`
/// stands for the negated base-2 logarithm of the rate, so that the costs of a path add up
/// where its rates multiply.
#[derive(Copy, Clone, Debug, PartialEq, Eq, Structural)]
pub struct LogEdge {
    pub edge: Edge,
    pub log_cost: i64,
}

/// The outcome of comparing two costs.
#[derive(Copy, Clone, Debug, PartialEq, Eq, Structural)]
pub enum Comparison {
    Less,
    Equal,
    Greater,
}

/// When a later edge replaces the edge that is kept for its pair.
#[derive(Copy, Clone, Debug, PartialEq, Eq, Structural)]
pub enum Replace {
    /// Every time: the last edge on a pair is kept.
    Always,
    /// Where the kept cost compares with the later one to this outcome.
    When(Comparison),
}

/// Why no path table was produced.
#[derive(Copy, Clone, Debug, PartialEq, Eq, Structural)]
pub enum PathCalculationError {
    NegativeCyclesError,
}

/// A path between two vertices: its total cost and its hops in travel order.
#[derive(Clone, Debug, PartialEq, Eq)]
pub struct Path {
    pub total_cost: i128,
    pub edges: Vec<Edge>,
}

impl View for Path {
    type V = PathModel;

    open spec fn view(&self) -> PathModel {
        PathModel { total_cost: self.total_cost as int, edges: self.edges@ }
    }
}

impl Path {
    /// The total cost is the sum of the costs of the hops.
    pub open spec fn adds_up(&self) -> bool {
        self.total_cost == cost_sum(self.edges@)
    }

    /// Extends the path by one hop.
    pub fn add(&mut self, edge: &Edge)
        requires
            old(self).adds_up(),
        ensures
            final(self).adds_up(),
            final(self).total_cost == old(self).total_cost + edge.cost,
            final(self).edges@ == old(self).edges@.push(*edge),
    {
        self.edges.push(*edge);
        let count = self.edges.len();
        proof {
            assert(self.edges@.drop_last() =~= old(self).edges@);
            lemma_cost_sum_bound(self.edges@);
            assert(count * 0x8000_0000_0000_0000 <= 0xffff_ffff_ffff_ffff * 0x8000_0000_0000_0000)
                by (nonlinear_arith)
                requires
                    count <= 0xffff_ffff_ffff_ffff,
            ;
            assert(count * 0x7fff_ffff_ffff_ffff <= 0xffff_ffff_ffff_ffff * 0x7fff_ffff_ffff_ffff)
                by (nonlinear_arith)
                requires
                    count <= 0xffff_ffff_ffff_ffff,
            ;
        }
        self.total_cost = self.total_cost + edge.cost as i128;
    }
}

/// The outcome that an ordering of the standard library names.
pub open spec fn outcome_of(ordering: Ordering) -> Comparison {
    match ordering {
        Ordering::Less => Comparison::Less,
        Ordering::Equal => Comparison::Equal,
        Ordering::Greater => Comparison::Greater,
    }
}

/// Whether `p` comes before `q` in the order of pairs: by source, then by target.
fn comes_before(p: Pair, q: Pair) -> (r: bool)
    ensures
        r == pair_before(p, q),
{
    p.source < q.source || (p.source == q.source && p.target < q.target)
}

/// How `current` compares with `candidate`.
fn compare_costs(current: i64, candidate: i64) -> (r: Comparison)
    ensures
        r == compare(current, candidate),
{
    if current < candidate {
        Comparison::Less
    } else if current == candidate {
        Comparison::Equal
    } else {
        Comparison::Greater
    }
}

/// Whether a later edge of cost `candidate` replaces the kept edge of cost `current`.
fn is_replaced(rule: Replace, current: i64, candidate: i64) -> (r: bool)
    ensures
        r == replaces(rule, current, candidate),
{
    match rule {
        Replace::Always => true,
        Replace::When(outcome) => compare_costs(current, candidate) == outcome,
    }
}

/// The indices of the edges that the fold keeps, in ascending order of their pairs.
pub fn cheapest_indices(edges: &[Edge], rule: Replace) -> (at: Vec<usize>)
    ensures
        lists_kept_at(at@, edges@, rule),
{
    let mut at: Vec<usize> = Vec::new();
    let mut n: usize = 0;
    while n < edges.len()
        invariant
            n <= edges.len(),
            lists_kept_at(at@, edges@.take(n as int), rule),
        decreases edges.len() - n,
    {
        let e = edges[n];
        let ghost before = at@;
        let mut x: usize = 0;
        while x < at.len() && comes_before(edges[at[x]].pair, e.pair)
            invariant
                x <= at.len(),
                n < edges.len(),
                forall|y: int| 0 <= y < at.len() ==> (#[trigger] at@[y]) < n,
                forall|y: int|
                    0 <= y < x ==> pair_before(edges@[(#[trigger] at@[y]) as int].pair, e.pair),
            decreases at.len() - x,
        {
            x += 1;
        }
        proof {
            assert forall|y: int| 0 <= y < at.len() implies (#[trigger] at@[y]) < n by {
                assert(at@[y] < edges@.take(n as int).len());
            }
        }
        if x < at.len() && edges[at[x]].pair == e.pair {
            if is_replaced(rule, edges[at[x]].cost, e.cost) {
                at[x] = n;
            }
            proof {
                lemma_kept_at_same(before, at@, edges@, rule, n as int, x as int);
            }
        } else {
            at.insert(x, n);
            proof {
                lemma_kept_at_insert(before, edges@, rule, n as int, x as int);
            }
        }
        n += 1;
    }
    proof {
        assert(edges@.take(n as int) =~= edges@);
    }
    at
}

/// One edge for each pair of `edges`, in ascending order of the pairs.
///
/// The edges are folded in their order. The first edge on a pair is kept until a later
/// edge on the same pair replaces it, which it does exactly where `rule` says so. So
/// replacing on `Comparison::Less` keeps the first edge of the highest cost, and replacing
/// on `Comparison::Greater` the first edge of the lowest cost.
pub fn deduplicate(edges: &[Edge], rule: Replace) -> (r: Vec<Edge>)
    ensures
        lists_kept(r@, edges@, rule),
        r@ == cheapest(edges@, rule),
{
    let at = cheapest_indices(edges, rule);
    let mut r: Vec<Edge> = Vec::new();
    let mut x: usize = 0;
    while x < at.len()
        invariant
            x <= at.len(),
            lists_kept_at(at@, edges@, rule),
            r@.len() == x,
            forall|y: int| 0 <= y < x ==> (#[trigger] r@[y]) == edges@[at@[y] as int],
        decreases at.len() - x,
    {
        r.push(edges[at[x]]);
        x += 1;
    }
    proof {
        assert forall|t: int| 0 <= t < edges@.len() implies exists|y: int|
            0 <= y < r@.len() && (#[trigger] r@[y]).pair == (#[trigger] edges@[t]).pair by {
            let y = choose|y: int|
                0 <= y < at@.len() && edges@[(#[trigger] at@[y]) as int].pair == (
                #[trigger] edges@[t]).pair;
            assert(r@[y].pair == edges@[t].pair);
        }
        assert(lists_kept(r@, edges@, rule));
        lemma_lists_kept_unique(r@, cheapest(edges@, rule), edges@, rule);
    }
    r
}

/// One edge for each pair of `edges`, in ascending order of the pairs: `deduplicate`, with
/// the outcome given as an ordering of the standard library.
///
/// A later edge replaces the edge kept for its pair exactly where comparing the kept cost
/// with the later one gives `ordering`.
pub fn unique_cheapest_edges(edges: &[Edge], ordering: Ordering) -> (r: Vec<Edge>)
    ensures
        lists_kept(r@, edges@, Replace::When(outcome_of(ordering))),
        r@ == cheapest(edges@, Replace::When(outcome_of(ordering))),
{
    let outcome = match ordering {
        Ordering::Less => Comparison::Less,
        Ordering::Equal => Comparison::Equal,
        Ordering::Greater => Comparison::Greater,
    };
    deduplicate(edges, Replace::When(outcome))
}

/// What the matrix holds at row `a`, column `b`.
spec fn cell(m: Seq<Vec<Option<Path>>>, a: int, b: int) -> Option<PathModel> {
    match m[a]@[b] {
        Some(p) => Some(p@),
        None => None,
    }
}

/// The matrix `m`, indexed by positions in `vs`, holds the table `t`.
spec fn holds(m: Seq<Vec<Option<Path>>>, vs: Seq<usize>, t: Table) -> bool {
    &&& m.len() == vs.len()
    &&& forall|a: int| 0 <= a < m.len() ==> (#[trigger] m[a]).len() == vs.len()
    &&& forall|a: int, b: int|
        0 <= a < vs.len() && 0 <= b < vs.len() ==> #[trigger] cell(m, a, b) == entry(
            t,
            Pair { source: vs[a], target: vs[b] },
        )
}

/// Position `(a, b)` comes before position `(c, d)` in row-major order.
spec fn position_before(a: int, b: int, c: int, d: int) -> bool {
    a < c || (a == c && b < d)
}

/// `list` holds the paths of the matrix cells at the positions `at`, which ascend.
spec fn listed(
    list: Seq<(Pair, Path)>,
    at: Seq<(int, int)>,
    m: Seq<Vec<Option<Path>>>,
    vs: Seq<usize>,
) -> bool {
    &&& list.len() == at.len()
    &&& forall|x: int|
        0 <= x < at.len() ==> {
            &&& 0 <= (#[trigger] at[x]).0 < vs.len()
            &&& 0 <= at[x].1 < vs.len()
            &&& list[x].0 == Pair { source: vs[at[x].0], target: vs[at[x].1] }
            &&& cell(m, at[x].0, at[x].1) == Some(list[x].1@)
        }
    &&& forall|x: int, y: int|
        0 <= x < y < at.len() ==> position_before(
            (#[trigger] at[x]).0,
            at[x].1,
            (#[trigger] at[y]).0,
            at[y].1,
        )
}

/// Puts `v` into the ascending sequence `vs` unless it is there already.
fn insert_vertex(vs: &mut Vec<usize>, v: usize)
    requires
        ascending(old(vs)@),
    ensures
        ascending(final(vs)@),
        forall|x: usize| final(vs)@.contains(x) <==> (old(vs)@.contains(x) || x == v),
{
    let mut at: usize = 0;
    while at < vs.len() && vs[at] < v
        invariant
            at <= vs.len(),
            vs@ == old(vs)@,
            ascending(vs@),
            forall|a: int| 0 <= a < at ==> vs@[a] < v,
        decreases vs.len() - at,
    {
        at += 1;
    }
    if at < vs.len() && vs[at] == v {
        assert(vs@.contains(v));
    } else {
        vs.insert(at, v);
        proof {
            let o = old(vs)@;
            let n = vs@;
            assert(n[at as int] == v);
            assert forall|x: usize| n.contains(x) <==> (o.contains(x) || x == v) by {
                if n.contains(x) {
                    let a = choose|a: int| 0 <= a < n.len() && n[a] == x;
                    if a < at {
                        assert(o[a] == x);
                    } else if a > at {
                        assert(o[a - 1] == x);
                    }
                }
                if o.contains(x) {
                    let a = choose|a: int| 0 <= a < o.len() && o[a] == x;
                    if a < at {
                        assert(n[a] == x);
                    } else {
                        assert(n[a + 1] == x);
                    }
                }
            }
        }
    }
}

/// The vertex set of `edges`.
fn collect_vertices(edges: &[Edge]) -> (vs: Vec<usize>)
    ensures
        vs@ == vertices(edges@),
        lists_endpoints(vs@, edges@),
{
    let mut vs: Vec<usize> = Vec::new();
    let mut t: usize = 0;
    while t < edges.len()
        invariant
            t <= edges.len(),
            lists_endpoints(vs@, edges@.take(t as int)),
        decreases edges.len() - t,
    {
        let e = edges[t];
        let ghost before = vs@;
        insert_vertex(&mut vs, e.pair.source);
        insert_vertex(&mut vs, e.pair.target);
        proof {
            let done = edges@.take(t as int);
            let next = edges@.take(t + 1);
            assert forall|v: usize| vs@.contains(v) <==> is_endpoint(next, v) by {
                if is_endpoint(next, v) {
                    let x = choose|x: int| 0 <= x < next.len() && touches(#[trigger] next[x], v);
                    if x < t {
                        assert(touches(done[x], v));
                    }
                }
                if before.contains(v) {
                    let x = choose|x: int| 0 <= x < done.len() && touches(#[trigger] done[x], v);
                    assert(touches(next[x], v));
                }
                if v == e.pair.source || v == e.pair.target {
                    assert(touches(next[t as int], v));
                }
            }
        }
        t += 1;
    }
    proof {
        assert(edges@.take(t as int) =~= edges@);
        lemma_vertices_is(vs@, edges@);
    }
    vs
}

/// Where `v` stands in the ascending sequence `vs`.
fn position(vs: &Vec<usize>, v: usize) -> (at: usize)
    requires
        vs@.contains(v),
    ensures
        at < vs.len(),
        vs@[at as int] == v,
{
    let mut at: usize = 0;
    while at < vs.len() && vs[at] != v
        invariant
            at <= vs.len(),
            forall|a: int| 0 <= a < at ==> vs@[a] != v,
        decreases vs.len() - at,
    {
        at += 1;
    }
    at
}

/// The hops of `a` followed by those of `b`.
fn concat(a: &Vec<Edge>, b: &Vec<Edge>) -> (r: Vec<Edge>)
    ensures
        r@ == a@ + b@,
{
    let mut r: Vec<Edge> = Vec::new();
    let mut x: usize = 0;
    while x < a.len()
        invariant
            x <= a.len(),
            r@ == a@.take(x as int),
        decreases a.len() - x,
    {
        r.push(a[x]);
        assert(a@.take(x + 1) =~= a@.take(x as int).push(a@[x as int]));
        x += 1;
    }
    assert(a@.take(a.len() as int) =~= a@);
    let mut y: usize = 0;
    while y < b.len()
        invariant
            y <= b.len(),
            r@ == a@ + b@.take(y as int),
        decreases b.len() - y,
    {
        r.push(b[y]);
        assert(a@ + b@.take(y + 1) =~= (a@ + b@.take(y as int)).push(b@[y as int]));
        y += 1;
    }
    assert(b@.take(b.len() as int) =~= b@);
    r
}

/// A copy of `path`.
fn copy_path(path: &Path) -> (r: Path)
    ensures
        r@ == path@,
{
    let hops = path.edges.clone();
    assert(hops@ =~= path.edges@);
    Path { total_cost: path.total_cost, edges: hops }
}

/// A matrix over `vs` that holds the identity path at each self-pair and nothing else.
fn identity_matrix(vs: &Vec<usize>) -> (m: Vec<Vec<Option<Path>>>)
    requires
        ascending(vs@),
    ensures
        holds(m@, vs@, seed_over(Seq::empty(), vs@)),
{
    let n = vs.len();
    let mut m: Vec<Vec<Option<Path>>> = Vec::new();
    let mut a: usize = 0;
    while a < n
        invariant
            n == vs.len(),
            a <= n,
            m@.len() == a,
            forall|x: int| 0 <= x < a ==> (#[trigger] m@[x]).len() == n,
            forall|x: int, y: int|
                0 <= x < a && 0 <= y < n ==> #[trigger] cell(m@, x, y) == if x == y {
                    Some(identity())
                } else {
                    None::<PathModel>
                },
        decreases n - a,
    {
        let mut row: Vec<Option<Path>> = Vec::new();
        let mut b: usize = 0;
        while b < n
            invariant
                b <= n,
                a < n,
                row@.len() == b,
                forall|y: int|
                    0 <= y < b ==> match #[trigger] row@[y] {
                        Some(p) => y == a && p@ == identity(),
                        None => y != a,
                    },
            decreases n - b,
        {
            if a == b {
                row.push(Some(Path { total_cost: 0, edges: Vec::new() }));
            } else {
                row.push(None);
            }
            b += 1;
        }
        let ghost before = m@;
        m.push(row);
        proof {
            assert forall|x: int, y: int| 0 <= x < a + 1 && 0 <= y < n implies #[trigger] cell(
                m@,
                x,
                y,
            ) == if x == y {
                Some(identity())
            } else {
                None::<PathModel>
            } by {
                if x < a {
                    assert(m@[x] == before[x]);
                    assert(cell(before, x, y) == cell(m@, x, y));
                } else {
                    assert(m@[x] == row);
                    assert(row@[y] is Some <==> y == a);
                }
            }
        }
        a += 1;
    }
    proof {
        let t = seed_over(Seq::<Edge>::empty(), vs@);
        assert forall|x: int, y: int| 0 <= x < n && 0 <= y < n implies #[trigger] cell(m@, x, y)
            == entry(t, Pair { source: vs@[x], target: vs@[y] }) by {
            assert(vs@.contains(vs@[x]));
        }
    }
    m
}

/// Records the one-hop path of `e` at its pair.
fn seed_cell(m: &mut Vec<Vec<Option<Path>>>, vs: &Vec<usize>, e: Edge, Ghost(done): Ghost<Seq<Edge>>)
    requires
        ascending(vs@),
        vs@.contains(e.pair.source),
        vs@.contains(e.pair.target),
        holds(old(m)@, vs@, seed_over(done, vs@)),
    ensures
        holds(final(m)@, vs@, seed_over(done.push(e), vs@)),
{
    let a = position(vs, e.pair.source);
    let b = position(vs, e.pair.target);
    let mut path = Path { total_cost: 0, edges: Vec::new() };
    path.add(&e);
    let ghost hops = path.edges@;
    m[a][b] = Some(path);
    proof {
        let t0 = seed_over(done, vs@);
        let t1 = seed_over(done.push(e), vs@);
        assert(done.push(e).drop_last() =~= done);
        assert(hops =~= seq![e]);
        assert forall|x: int, y: int|
            0 <= x < vs@.len() && 0 <= y < vs@.len() implies #[trigger] cell(m@, x, y) == entry(
            t1,
            Pair { source: vs@[x], target: vs@[y] },
        ) by {
            let p = Pair { source: vs@[x], target: vs@[y] };
            if x == a && y == b {
                assert(p == e.pair);
            } else {
                assert(p != e.pair);
                assert(cell(old(m)@, x, y) == entry(t0, p));
                assert(seed_edge(done.push(e), p) == seed_edge(done, p));
                if x == a {
                    assert(m@[x]@[y] == old(m)@[x]@[y]);
                } else {
                    assert(m@[x] == old(m)@[x]);
                }
            }
        }
    }
}

/// One relaxation through the vertex at `p`, from the vertex at `a` to the vertex at `b`.
fn relax_cell(
    m: &mut Vec<Vec<Option<Path>>>,
    Ghost(vs): Ghost<Seq<usize>>,
    Ghost(t): Ghost<Table>,
    p: usize,
    a: usize,
    b: usize,
)
    requires
        ascending(vs),
        well_formed(t, vs),
        holds(old(m)@, vs, t),
        p < vs.len(),
        a < vs.len(),
        b < vs.len(),
    ensures
        holds(final(m)@, vs, relax(t, vs[p as int], vs[a as int], vs[b as int])),
{
    let ghost ik = Pair { source: vs[a as int], target: vs[p as int] };
    let ghost kj = Pair { source: vs[p as int], target: vs[b as int] };
    let ghost ij = Pair { source: vs[a as int], target: vs[b as int] };
    proof {
        assert(cell(m@, a as int, p as int) == entry(t, ik));
        assert(cell(m@, p as int, b as int) == entry(t, kj));
        assert(cell(m@, a as int, b as int) == entry(t, ij));
    }
    let mut found: Option<Path> = None;
    match &m[a][p] {
        Some(first) => {
            match &m[p][b] {
                Some(second) => {
                    let hops = concat(&first.edges, &second.edges);
                    let count = hops.len();
                    proof {
                        lemma_cost_sum_concat(first.edges@, second.edges@);
                        lemma_cost_sum_bound(hops@);
                        assert(first.total_cost == cost_sum(first.edges@));
                        assert(second.total_cost == cost_sum(second.edges@));
                        assert(count * 0x8000_0000_0000_0000 <= 0xffff_ffff_ffff_ffff
                            * 0x8000_0000_0000_0000) by (nonlinear_arith)
                            requires
                                count <= 0xffff_ffff_ffff_ffff,
                        ;
                        assert(count * 0x7fff_ffff_ffff_ffff <= 0xffff_ffff_ffff_ffff
                            * 0x7fff_ffff_ffff_ffff) by (nonlinear_arith)
                            requires
                                count <= 0xffff_ffff_ffff_ffff,
                        ;
                    }
                    let total: i128 = first.total_cost + second.total_cost;
                    let better = match &m[a][b] {
                        Some(current) => total < current.total_cost,
                        None => true,
                    };
                    if better {
                        found = Some(Path { total_cost: total, edges: hops });
                    }
                },
                None => {},
            }
        },
        None => {},
    }
    match found {
        Some(path) => {
            m[a][b] = Some(path);
        },
        None => {},
    }
    proof {
        let t1 = relax(t, vs[p as int], vs[a as int], vs[b as int]);
        assert forall|x: int, y: int|
            0 <= x < vs.len() && 0 <= y < vs.len() implies #[trigger] cell(m@, x, y) == entry(
            t1,
            Pair { source: vs[x], target: vs[y] },
        ) by {
            let q = Pair { source: vs[x], target: vs[y] };
            assert(cell(old(m)@, x, y) == entry(t, q));
            if x == a && y == b {
            } else {
                assert(q != ij);
                if x == a {
                    assert(m@[x]@[y] == old(m)@[x]@[y]);
                } else {
                    assert(m@[x] == old(m)@[x]);
                }
            }
        }
    }
}

/// The recorded paths of the matrix, in ascending order of their pairs.
fn list_matrix(m: &Vec<Vec<Option<Path>>>, vs: &Vec<usize>, Ghost(t): Ghost<Table>) -> (list: Vec<
    (Pair, Path),
>)
    requires
        ascending(vs@),
        well_formed(t, vs@),
        holds(m@, vs@, t),
    ensures
        lists_table(list@, t),
{
    let n = vs.len();
    let mut list: Vec<(Pair, Path)> = Vec::new();
    let ghost mut at: Seq<(int, int)> = Seq::empty();
    let mut a: usize = 0;
    while a < n
        invariant
            n == vs.len(),
            a <= n,
            ascending(vs@),
            holds(m@, vs@, t),
            listed(list@, at, m@, vs@),
            forall|x: int| 0 <= x < at.len() ==> (#[trigger] at[x]).0 < a,
            forall|c: int, d: int|
                0 <= c < a && 0 <= d < n && (#[trigger] cell(m@, c, d)) is Some ==> at.contains(
                    (c, d),
                ),
        decreases n - a,
    {
        let mut b: usize = 0;
        while b < n
            invariant
                n == vs.len(),
                a < n,
                b <= n,
                ascending(vs@),
                holds(m@, vs@, t),
                listed(list@, at, m@, vs@),
                forall|x: int|
                    0 <= x < at.len() ==> position_before(
                        (#[trigger] at[x]).0,
                        at[x].1,
                        a as int,
                        b as int,
                    ),
                forall|c: int, d: int|
                    0 <= c < n && 0 <= d < n && position_before(c, d, a as int, b as int) && (
                    #[trigger] cell(m@, c, d)) is Some ==> at.contains((c, d)),
            decreases n - b,
        {
            match &m[a][b] {
                Some(path) => {
                    let copy = copy_path(path);
                    list.push((Pair { source: vs[a], target: vs[b] }, copy));
                    proof {
                        let before = at;
                        at = at.push((a as int, b as int));
                        assert(at[at.len() - 1] == (a as int, b as int));
                        assert forall|c: int, d: int|
                            0 <= c < n && 0 <= d < n && position_before(c, d, a as int, b + 1) && (
                            #[trigger] cell(m@, c, d)) is Some implies at.contains((c, d)) by {
                            if c == a && d == b {
                            } else {
                                assert(before.contains((c, d)));
                                let x = choose|x: int| 0 <= x < before.len() && before[x] == (c, d);
                                assert(at[x] == (c, d));
                            }
                        }
                    }
                },
                None => {
                    assert(cell(m@, a as int, b as int) is None);
                },
            }
            b += 1;
        }
        a += 1;
    }
    proof {
        assert forall|x: int, y: int| 0 <= x < y < list@.len() implies pair_before(
            (#[trigger] list@[x]).0,
            (#[trigger] list@[y]).0,
        ) by {
            assert(position_before(at[x].0, at[x].1, at[y].0, at[y].1));
        }
        assert forall|x: int| 0 <= x < list@.len() implies t.dom().contains(
            (#[trigger] list@[x]).0,
        ) && list@[x].1@ == t[list@[x].0] by {
            assert(cell(m@, at[x].0, at[x].1) == entry(t, list@[x].0));
        }
        assert forall|q: Pair| t.dom().contains(q) implies exists|x: int|
            0 <= x < list@.len() && (#[trigger] list@[x]).0 == q by {
            assert(vs@.contains(q.source) && vs@.contains(q.target));
            let c = choose|c: int| 0 <= c < vs@.len() && vs@[c] == q.source;
            let d = choose|d: int| 0 <= d < vs@.len() && vs@[d] == q.target;
            assert(cell(m@, c, d) == entry(t, q));
            assert(at.contains((c, d)));
            let x = choose|x: int| 0 <= x < at.len() && at[x] == (c, d);
            assert(list@[x].0 == q);
        }
    }
    list
}

/// All-pairs cheapest paths by relaxation through every vertex in ascending order.
///
/// The vertex set is the set of the edges' endpoints. Every vertex starts with the identity
/// path to itself, every edge seeds its own pair with a one-hop path (the last edge given
/// for a pair is the one that counts), and a recorded path is replaced only by a strictly
/// cheaper concatenation. The call fails where a vertex ends with a path to itself of
/// negative cost; otherwise it returns the recorded paths in ascending order of their pairs.
pub fn floyd_warshall_shortest_paths(edges: &[Edge]) -> (r: Result<
    Vec<(Pair, Path)>,
    PathCalculationError,
>)
    ensures
        answers(r, shortest_table(edges@)),
{
    let vs = collect_vertices(edges);
    let n = vs.len();
    let mut m = identity_matrix(&vs);
    let mut x: usize = 0;
    while x < edges.len()
        invariant
            x <= edges.len(),
            lists_endpoints(vs@, edges@),
            holds(m@, vs@, seed_over(edges@.take(x as int), vs@)),
        decreases edges.len() - x,
    {
        let e = edges[x];
        proof {
            assert(touches(edges@[x as int], e.pair.source));
            assert(touches(edges@[x as int], e.pair.target));
            assert(is_endpoint(edges@, e.pair.source));
            assert(is_endpoint(edges@, e.pair.target));
            assert(edges@.take(x + 1) =~= edges@.take(x as int).push(e));
        }
        seed_cell(&mut m, &vs, e, Ghost(edges@.take(x as int)));
        x += 1;
    }
    let ghost mut t = seed(edges@);
    proof {
        assert(edges@.take(x as int) =~= edges@);
        lemma_seed_well_formed(edges@, vs@);
    }
    let mut p: usize = 0;
    while p < n
        invariant
            n == vs.len(),
            p <= n,
            vs@ == vertices(edges@),
            ascending(vs@),
            well_formed(t, vs@),
            holds(m@, vs@, t),
            t == relax_through(seed(edges@), vs@, p as nat),
        decreases n - p,
    {
        let ghost t_p = t;
        let mut a: usize = 0;
        while a < n
            invariant
                n == vs.len(),
                p < n,
                a <= n,
                ascending(vs@),
                well_formed(t, vs@),
                holds(m@, vs@, t),
                t == relax_sources(t_p, vs@, vs@[p as int], a as nat),
            decreases n - a,
        {
            let ghost t_a = t;
            let mut b: usize = 0;
            while b < n
                invariant
                    n == vs.len(),
                    p < n,
                    a < n,
                    b <= n,
                    ascending(vs@),
                    well_formed(t, vs@),
                    holds(m@, vs@, t),
                    t == relax_targets(t_a, vs@, vs@[p as int], vs@[a as int], b as nat),
                decreases n - b,
            {
                relax_cell(&mut m, Ghost(vs@), Ghost(t), p, a, b);
                proof {
                    assert(vs@.contains(vs@[a as int]));
                    assert(vs@.contains(vs@[b as int]));
                    lemma_relax_well_formed(t, vs@, vs@[p as int], vs@[a as int], vs@[b as int]);
                    t = relax(t, vs@[p as int], vs@[a as int], vs@[b as int]);
                }
                b += 1;
            }
            a += 1;
        }
        p += 1;
    }
    assert(t == converged(edges@));
    let mut v: usize = 0;
    while v < n
        invariant
            n == vs.len(),
            v <= n,
            vs@ == vertices(edges@),
            t == converged(edges@),
            well_formed(t, vs@),
            holds(m@, vs@, t),
            forall|c: int|
                0 <= c < v ==> (#[trigger] t[Pair { source: vs@[c], target: vs@[c] }]).total_cost
                    >= 0,
        decreases n - v,
    {
        proof {
            assert(vs@.contains(vs@[v as int]));
            assert(cell(m@, v as int, v as int) == entry(
                t,
                Pair { source: vs@[v as int], target: vs@[v as int] },
            ));
        }
        match &m[v][v] {
            Some(path) => {
                if path.total_cost < 0 {
                    assert(t[Pair { source: vs@[v as int], target: vs@[v as int] }].total_cost
                        < 0);
                    return Err(PathCalculationError::NegativeCyclesError);
                }
            },
            None => {},
        }
        v += 1;
    }
    Ok(list_matrix(&m, &vs, Ghost(t)))
}

/// All-pairs cheapest paths of a graph that may quote a pair more than once.
///
/// Of the parallel edges on a pair the first one of the highest cost counts; the others
/// are dropped before the paths are computed.
pub fn shortest_paths(edges: &[Edge]) -> (r: Result<Vec<(Pair, Path)>, PathCalculationError>)
    ensures
        answers(r, shortest_table(cheapest(edges@, Replace::When(Comparison::Less)))),
{
    let unique = deduplicate(edges, Replace::When(Comparison::Less));
    floyd_warshall_shortest_paths(unique.as_slice())
}

/// Where the edge on `pair` stands among `kept_edges`.
fn find_pair(kept_edges: &Vec<Edge>, pair: Pair) -> (y: usize)
    requires
        exists|y: int| 0 <= y < kept_edges@.len() && (#[trigger] kept_edges@[y]).pair == pair,
    ensures
        y < kept_edges@.len(),
        kept_edges@[y as int].pair == pair,
{
    let mut y: usize = 0;
    while y < kept_edges.len() && kept_edges[y].pair != pair
        invariant
            y <= kept_edges.len(),
            forall|z: int| 0 <= z < y ==> (#[trigger] kept_edges@[z]).pair != pair,
        decreases kept_edges.len() - y,
    {
        y += 1;
    }
    y
}

/// All-pairs paths of the highest compounded rate.
///
/// Of the parallel quotes on a pair the first one of the lowest rate counts. The additive
/// solver runs on the log-domain costs of the quotes that count: the path of the lowest
/// total there is the path of the highest product of rates. In the paths that come back,
/// every hop is the rate edge of its pair again, and `total_cost` is the total in the log
/// domain. The call fails where the additive solver does: on a cycle of negative total,
/// which is a cycle whose rates multiply to more than one.
pub fn longest_paths_mult(quotes: &[LogEdge]) -> (r: Result<
    Vec<(Pair, Path)>,
    PathCalculationError,
>)
    ensures
        answers(r, longest_table(quotes@)),
{
    let mut rates: Vec<Edge> = Vec::new();
    let mut n: usize = 0;
    while n < quotes.len()
        invariant
            n <= quotes.len(),
            rates@ == rates_of(quotes@.take(n as int)),
        decreases quotes.len() - n,
    {
        rates.push(quotes[n].edge);
        proof {
            assert(rates@ =~= rates_of(quotes@.take(n + 1)));
        }
        n += 1;
    }
    proof {
        assert(quotes@.take(n as int) =~= quotes@);
    }
    let at = cheapest_indices(rates.as_slice(), Replace::When(Comparison::Greater));
    let mut kept_rates: Vec<Edge> = Vec::new();
    let mut logs: Vec<Edge> = Vec::new();
    let mut x: usize = 0;
    while x < at.len()
        invariant
            x <= at.len(),
            rates@ == rates_of(quotes@),
            lists_kept_at(at@, rates@, Replace::When(Comparison::Greater)),
            kept_rates@.len() == x,
            logs@.len() == x,
            forall|y: int| 0 <= y < x ==> (#[trigger] kept_rates@[y]) == rates@[at@[y] as int],
            forall|y: int|
                0 <= y < x ==> (#[trigger] logs@[y]) == log_edge(quotes@, rates@[at@[y] as int].pair),
        decreases at.len() - x,
    {
        let q = quotes[at[x]];
        kept_rates.push(q.edge);
        logs.push(Edge { pair: q.edge.pair, provider: q.edge.provider, cost: q.log_cost });
        x += 1;
    }
    proof {
        assert forall|t: int| 0 <= t < rates@.len() implies exists|y: int|
            0 <= y < kept_rates@.len() && (#[trigger] kept_rates@[y]).pair == (
            #[trigger] rates@[t]).pair by {
            let y = choose|y: int|
                0 <= y < at@.len() && rates@[(#[trigger] at@[y]) as int].pair == (
                #[trigger] rates@[t]).pair;
            assert(kept_rates@[y].pair == rates@[t].pair);
        }
        assert(lists_kept(kept_rates@, rates@, Replace::When(Comparison::Greater)));
        lemma_lists_kept_unique(
            kept_rates@,
            cheapest(rates@, Replace::When(Comparison::Greater)),
            rates@,
            Replace::When(Comparison::Greater),
        );
        assert(logs@ =~= log_graph(quotes@));
        assert forall|a: int, b: int| 0 <= a < b < logs@.len() implies pair_before(
            (#[trigger] logs@[a]).pair,
            (#[trigger] logs@[b]).pair,
        ) by {
            assert(pair_before(rates@[at@[a] as int].pair, rates@[at@[b] as int].pair));
        }
        lemma_ascending_is_kept(logs@, Replace::When(Comparison::Less));
    }
    let found = shortest_paths(logs.as_slice());
    match found {
        Err(e) => Err(e),
        Ok(list) => {
            let ghost t = shortest_table(log_graph(quotes@))->Ok_0;
            let mut out: Vec<(Pair, Path)> = Vec::new();
            let mut y: usize = 0;
            while y < list.len()
                invariant
                    y <= list.len(),
                    shortest_table(log_graph(quotes@)) is Ok,
                    t == shortest_table(log_graph(quotes@))->Ok_0,
                    lists_table(list@, t),
                    logs@ == log_graph(quotes@),
                    kept_rates@ == cheapest(rates_of(quotes@), Replace::When(Comparison::Greater)),
                    lists_kept(kept_rates@, rates_of(quotes@), Replace::When(Comparison::Greater)),
                    kept_rates@.len() == logs@.len(),
                    forall|z: int|
                        0 <= z < logs@.len() ==> (#[trigger] logs@[z]).pair == kept_rates@[z].pair,
                    out@.len() == y,
                    forall|z: int|
                        0 <= z < y ==> (#[trigger] out@[z]).0 == list@[z].0 && out@[z].1@
                            == with_rates(quotes@, list@[z].1@),
                decreases list.len() - y,
            {
                let pair = list[y].0;
                let path = &list[y].1;
                let mut hops: Vec<Edge> = Vec::new();
                let mut h: usize = 0;
                proof {
                    assert(t.dom().contains(list@[y as int].0));
                    lemma_paths_are_walks(log_graph(quotes@), pair);
                }
                while h < path.edges.len()
                    invariant
                        h <= path.edges.len(),
                        seeded(logs@, path.edges@),
                        kept_rates@ == cheapest(rates_of(quotes@), Replace::When(Comparison::Greater)),
                        lists_kept(kept_rates@, rates_of(quotes@), Replace::When(Comparison::Greater)),
                        kept_rates@.len() == logs@.len(),
                        forall|z: int|
                            0 <= z < logs@.len() ==> (#[trigger] logs@[z]).pair
                                == kept_rates@[z].pair,
                        hops@.len() == h,
                        forall|z: int|
                            0 <= z < h ==> (#[trigger] hops@[z]) == rate_edge(
                                quotes@,
                                path.edges@[z].pair,
                            ),
                    decreases path.edges.len() - h,
                {
                    let e = path.edges[h];
                    proof {
                        lemma_seed_edge(logs@, e.pair);
                        let z = choose|z: int| 0 <= z < logs@.len() && logs@[z] == e;
                        assert(kept_rates@[z].pair == e.pair);
                    }
                    let z = find_pair(&kept_rates, e.pair);
                    proof {
                        assert(is_kept(rates_of(quotes@), Replace::When(Comparison::Greater), kept_rates@[z as int]));
                    }
                    hops.push(kept_rates[z]);
                    h += 1;
                }
                proof {
                    assert(hops@ =~= with_rates(quotes@, path@).edges);
                }
                out.push((pair, Path { total_cost: path.total_cost, edges: hops }));
                y += 1;
            }
            proof {
                let lt = longest_table(quotes@)->Ok_0;
                assert(lt.dom() =~= t.dom());
                assert forall|z: int| 0 <= z < out@.len() implies lt.dom().contains(
                    (#[trigger] out@[z]).0,
                ) && out@[z].1@ == lt[out@[z].0] by {
                    assert(t.dom().contains(list@[z].0));
                }
                assert forall|a: int, b: int| 0 <= a < b < out@.len() implies pair_before(
                    (#[trigger] out@[a]).0,
                    (#[trigger] out@[b]).0,
                ) by {
                    assert(pair_before(list@[a].0, list@[b].0));
                }
                assert forall|p: Pair| lt.dom().contains(p) implies exists|z: int|
                    0 <= z < out@.len() && (#[trigger] out@[z]).0 == p by {
                    let z = choose|z: int| 0 <= z < list@.len() && (#[trigger] list@[z]).0 == p;
                    assert(out@[z].0 == p);
                }
            }
            Ok(out)
        },
    }
}

} // verus!
