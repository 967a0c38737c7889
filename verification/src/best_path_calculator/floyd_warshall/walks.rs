//! Walks in the seeded graph, and what the converged table has to do with them.

use super::algo::{Edge, Pair, Path, PathCalculationError};
use super::model::{
    answers, converged, cost_sum, has_negative_self_pair, identity, is_endpoint,
    lemma_cost_sum_concat, lemma_seed_edge, lemma_seed_well_formed, lemma_vertices_exist,
    lists_endpoints, lists_table, pair_before, relax, relax_sources, relax_targets, relax_through,
    same_results, seed, seed_edge, shortest_table, touches, vertices, Table,
};
use vstd::prelude::*;

verus! {

/// Each edge of `w` ends where the next one starts.
pub open spec fn chained(w: Seq<Edge>) -> bool {
    forall|t: int| 0 <= t < w.len() - 1 ==> (#[trigger] w[t]).pair.target == w[t + 1].pair.source
}

/// Each edge of `w` is the edge that seeds its pair.
pub open spec fn seeded(edges: Seq<Edge>, w: Seq<Edge>) -> bool {
    forall|t: int| 0 <= t < w.len() ==> seed_edge(edges, (#[trigger] w[t]).pair) == Some(w[t])
}

/// `w` is a walk from `i` to `j` over the edges that seed the table.
///
/// The walk without edges leads from a vertex to itself, and counts only where no edge
/// seeds that self-pair: a self-pair that an edge seeds starts from the edge, not from the
/// identity path.
pub open spec fn is_walk(edges: Seq<Edge>, w: Seq<Edge>, i: usize, j: usize) -> bool {
    &&& seeded(edges, w)
    &&& chained(w)
    &&& if w.len() == 0 {
        &&& i == j
        &&& is_endpoint(edges, i)
        &&& seed_edge(edges, Pair { source: i, target: i }) is None
    } else {
        &&& w[0].pair.source == i
        &&& w.last().pair.target == j
    }
}

/// Some walk leads from `i` to `j`.
pub open spec fn reachable(edges: Seq<Edge>, i: usize, j: usize) -> bool {
    exists|w: Seq<Edge>| is_walk(edges, w, i, j)
}

/// Some edge lies on `pair`.
pub open spec fn has_edge(edges: Seq<Edge>, pair: Pair) -> bool {
    exists|x: int| 0 <= x < edges.len() && (#[trigger] edges[x]).pair == pair
}

/// `w` leads from `i` to `j` over pairs that have an edge: it holds at least one pair, and
/// each pair ends where the next one starts.
pub open spec fn is_route(edges: Seq<Edge>, w: Seq<Pair>, i: usize, j: usize) -> bool {
    &&& w.len() > 0
    &&& w[0].source == i
    &&& w.last().target == j
    &&& forall|t: int| 0 <= t < w.len() - 1 ==> (#[trigger] w[t]).target == w[t + 1].source
    &&& forall|t: int| 0 <= t < w.len() ==> has_edge(edges, #[trigger] w[t])
}

/// Some walk with at least one edge leads from a vertex back to it at a negative cost.
pub open spec fn has_negative_cycle(edges: Seq<Edge>) -> bool {
    exists|w: Seq<Edge>, v: usize| #[trigger] is_walk(edges, w, v, v) && cost_sum(w) < 0
}

/// The vertices that `w` passes between its first and its last edge are pairwise different.
spec fn inner_distinct(w: Seq<Edge>) -> bool {
    forall|s: int, t: int|
        0 <= s < t < w.len() - 1 ==> (#[trigger] w[s]).pair.target != (#[trigger] w[t]).pair.target
}

/// The vertices that `w` passes between its first and its last edge are among the first
/// `p` of `vs`.
spec fn inner_among(w: Seq<Edge>, vs: Seq<usize>, p: nat) -> bool {
    forall|t: int| 0 <= t < w.len() - 1 ==> vs.take(p as int).contains((#[trigger] w[t]).pair.target)
}

/// The self-pair of `v` holds the identity path, or a path of negative cost.
spec fn rests(t: Table, v: usize) -> bool {
    let p = Pair { source: v, target: v };
    t.dom().contains(p) && (t[p] == identity() || t[p].total_cost < 0)
}

/// Every recorded path of `t` is a walk between its pair and costs what its edges cost
/// together, and a self-pair that no edge seeds holds the identity path unless its cost is
/// negative.
spec fn sound(t: Table, edges: Seq<Edge>) -> bool {
    &&& forall|p: Pair| #[trigger]
        t.dom().contains(p) ==> is_walk(edges, t[p].edges, p.source, p.target)
    &&& forall|p: Pair| #[trigger] t.dom().contains(p) ==> t[p].total_cost == cost_sum(t[p].edges)
    &&& forall|v: usize|
        is_endpoint(edges, v) && seed_edge(edges, Pair { source: v, target: v }) is None
            ==> #[trigger] rests(t, v)
}

/// `t2` records every pair that `t1` records, at no higher a cost.
spec fn below(t2: Table, t1: Table) -> bool {
    forall|p: Pair| #[trigger]
        t1.dom().contains(p) ==> t2.dom().contains(p) && t2[p].total_cost <= t1[p].total_cost
}

/// A walk to `k` followed by a walk from `k` is a walk.
pub proof fn lemma_walk_concat(
    edges: Seq<Edge>,
    w1: Seq<Edge>,
    w2: Seq<Edge>,
    i: usize,
    k: usize,
    j: usize,
)
    requires
        is_walk(edges, w1, i, k),
        is_walk(edges, w2, k, j),
    ensures
        is_walk(edges, w1 + w2, i, j),
        cost_sum(w1 + w2) == cost_sum(w1) + cost_sum(w2),
{
    lemma_cost_sum_concat(w1, w2);
    let w = w1 + w2;
    if w1.len() == 0 {
        assert(w =~= w2);
    } else if w2.len() == 0 {
        assert(w =~= w1);
    } else {
        assert forall|t: int| 0 <= t < w.len() implies seed_edge(edges, (#[trigger] w[t]).pair)
            == Some(w[t]) by {
            if t < w1.len() {
                assert(w[t] == w1[t]);
            } else {
                assert(w[t] == w2[t - w1.len()]);
            }
        }
        assert forall|t: int| 0 <= t < w.len() - 1 implies (#[trigger] w[t]).pair.target == w[t
            + 1].pair.source by {
            if t < w1.len() - 1 {
                assert(w[t] == w1[t]);
                assert(w[t + 1] == w1[t + 1]);
            } else if t == w1.len() - 1 {
                assert(w[t] == w1.last());
                assert(w[t + 1] == w2[0]);
            } else {
                assert(w[t] == w2[t - w1.len()]);
                assert(w[t + 1] == w2[t - w1.len() + 1]);
            }
        }
        assert(w[0] == w1[0]);
        assert(w.last() == w2.last());
    }
}

/// A relaxation keeps a table sound and does not raise what it records.
proof fn lemma_relax_sound(t: Table, edges: Seq<Edge>, k: usize, i: usize, j: usize)
    requires
        sound(t, edges),
    ensures
        sound(relax(t, k, i, j), edges),
        below(relax(t, k, i, j), t),
{
    let ik = Pair { source: i, target: k };
    let kj = Pair { source: k, target: j };
    let r = relax(t, k, i, j);
    if t.dom().contains(ik) && t.dom().contains(kj) {
        lemma_walk_concat(edges, t[ik].edges, t[kj].edges, i, k, j);
    }
    assert forall|v: usize|
        is_endpoint(edges, v) && seed_edge(edges, Pair { source: v, target: v })
            is None implies #[trigger] rests(r, v) by {
        assert(rests(t, v));
    }
}

/// `t2` records `i -> j` at no more than what `t1` records for `i -> k` and `k -> j` together.
spec fn joins(t2: Table, t1: Table, i: usize, k: usize, j: usize) -> bool {
    t2.dom().contains(Pair { source: i, target: j }) && t2[Pair { source: i, target: j }].total_cost
        <= t1[Pair { source: i, target: k }].total_cost + t1[Pair {
        source: k,
        target: j,
    }].total_cost
}

/// What relaxing from `i` through `k` to the first `b` vertices achieves.
proof fn lemma_relax_targets(
    t: Table,
    edges: Seq<Edge>,
    vs: Seq<usize>,
    k: usize,
    i: usize,
    b: nat,
)
    requires
        sound(t, edges),
        b <= vs.len(),
    ensures
        sound(relax_targets(t, vs, k, i, b), edges),
        below(relax_targets(t, vs, k, i, b), t),
        forall|d: int|
            0 <= d < b && t.dom().contains(Pair { source: i, target: k }) && t.dom().contains(
                Pair { source: k, target: vs[d] },
            ) ==> #[trigger] joins(relax_targets(t, vs, k, i, b), t, i, k, vs[d]),
    decreases b,
{
    if b > 0 {
        let s = relax_targets(t, vs, k, i, (b - 1) as nat);
        let r = relax_targets(t, vs, k, i, b);
        lemma_relax_targets(t, edges, vs, k, i, (b - 1) as nat);
        lemma_relax_sound(s, edges, k, i, vs[b - 1]);
        assert(r == relax(s, k, i, vs[b - 1]));
        assert forall|d: int|
            0 <= d < b && t.dom().contains(Pair { source: i, target: k }) && t.dom().contains(
                Pair { source: k, target: vs[d] },
            ) implies #[trigger] joins(r, t, i, k, vs[d]) by {
            let ik = Pair { source: i, target: k };
            let kj = Pair { source: k, target: vs[d] };
            let ij = Pair { source: i, target: vs[d] };
            if d < b - 1 {
                assert(joins(s, t, i, k, vs[d]));
                assert(s.dom().contains(ij));
            } else {
                assert(s.dom().contains(ik));
                assert(s.dom().contains(kj));
            }
        }
    }
}

/// What relaxing through `k` from the first `a` vertices to every vertex achieves.
proof fn lemma_relax_sources(t: Table, edges: Seq<Edge>, vs: Seq<usize>, k: usize, a: nat)
    requires
        sound(t, edges),
        a <= vs.len(),
    ensures
        sound(relax_sources(t, vs, k, a), edges),
        below(relax_sources(t, vs, k, a), t),
        forall|c: int, d: int|
            0 <= c < a && 0 <= d < vs.len() && t.dom().contains(Pair { source: vs[c], target: k })
                && t.dom().contains(Pair { source: k, target: vs[d] }) ==> #[trigger] joins(
                relax_sources(t, vs, k, a),
                t,
                vs[c],
                k,
                vs[d],
            ),
    decreases a,
{
    if a > 0 {
        let s = relax_sources(t, vs, k, (a - 1) as nat);
        let r = relax_sources(t, vs, k, a);
        let i = vs[a - 1];
        lemma_relax_sources(t, edges, vs, k, (a - 1) as nat);
        lemma_relax_targets(s, edges, vs, k, i, vs.len());
        assert(r == relax_targets(s, vs, k, i, vs.len()));
        assert forall|c: int, d: int|
            0 <= c < a && 0 <= d < vs.len() && t.dom().contains(Pair { source: vs[c], target: k })
                && t.dom().contains(Pair { source: k, target: vs[d] }) implies #[trigger] joins(
            r,
            t,
            vs[c],
            k,
            vs[d],
        ) by {
            let ik = Pair { source: vs[c], target: k };
            let kj = Pair { source: k, target: vs[d] };
            let ij = Pair { source: vs[c], target: vs[d] };
            if c < a - 1 {
                assert(joins(s, t, vs[c], k, vs[d]));
                assert(s.dom().contains(ij));
            } else {
                assert(s.dom().contains(ik));
                assert(s.dom().contains(kj));
                assert(joins(r, s, i, k, vs[d]));
            }
        }
    }
}

/// The seeded table is sound.
proof fn lemma_seed_sound(edges: Seq<Edge>)
    ensures
        sound(seed(edges), edges),
        lists_endpoints(vertices(edges), edges),
{
    lemma_vertices_exist(edges);
    let vs = vertices(edges);
    let t = seed(edges);
    assert forall|p: Pair| #[trigger] t.dom().contains(p) implies is_walk(
        edges,
        t[p].edges,
        p.source,
        p.target,
    ) by {
        lemma_seed_edge(edges, p);
        match seed_edge(edges, p) {
            Some(e) => {
                assert(seq![e][0] == e);
            },
            None => {},
        }
    }
    lemma_seed_well_formed(edges, vs);
    assert forall|v: usize|
        is_endpoint(edges, v) && seed_edge(edges, Pair { source: v, target: v })
            is None implies #[trigger] rests(t, v) by {
        assert(vs.contains(v));
    }
}

/// Every table on the way from the seed to the converged table is sound and well formed.
proof fn lemma_relax_through(edges: Seq<Edge>, p: nat)
    requires
        p <= vertices(edges).len(),
    ensures
        sound(relax_through(seed(edges), vertices(edges), p), edges),
        below(relax_through(seed(edges), vertices(edges), p), seed(edges)),
    decreases p,
{
    lemma_seed_sound(edges);
    if p > 0 {
        let vs = vertices(edges);
        lemma_relax_through(edges, (p - 1) as nat);
        lemma_relax_sources(
            relax_through(seed(edges), vs, (p - 1) as nat),
            edges,
            vs,
            vs[p - 1],
            vs.len(),
        );
    }
}

/// `t` records, at no more than the walk's cost, the pair of every walk that passes
/// between its ends only vertices among the first `p` of `vs`, each at most once.
spec fn covers(t: Table, edges: Seq<Edge>, vs: Seq<usize>, p: nat) -> bool {
    forall|w: Seq<Edge>, i: usize, j: usize|
        #[trigger] is_walk(edges, w, i, j) && inner_distinct(w) && inner_among(w, vs, p) ==> {
            &&& t.dom().contains(Pair { source: i, target: j })
            &&& t[Pair { source: i, target: j }].total_cost <= cost_sum(w)
        }
}

/// The first part of a walk, up to and including its edge `s`, and the rest are walks.
proof fn lemma_walk_split(edges: Seq<Edge>, w: Seq<Edge>, i: usize, j: usize, s: int)
    requires
        is_walk(edges, w, i, j),
        0 <= s < w.len() - 1,
    ensures
        is_walk(edges, w.take(s + 1), i, w[s].pair.target),
        is_walk(edges, w.skip(s + 1), w[s].pair.target, j),
        w.take(s + 1) + w.skip(s + 1) == w,
        cost_sum(w) == cost_sum(w.take(s + 1)) + cost_sum(w.skip(s + 1)),
{
    let w1 = w.take(s + 1);
    let w2 = w.skip(s + 1);
    assert(w1 + w2 =~= w);
    lemma_cost_sum_concat(w1, w2);
    assert forall|t: int| 0 <= t < w1.len() implies seed_edge(edges, (#[trigger] w1[t]).pair)
        == Some(w1[t]) by {
        assert(w1[t] == w[t]);
    }
    assert forall|t: int| 0 <= t < w2.len() implies seed_edge(edges, (#[trigger] w2[t]).pair)
        == Some(w2[t]) by {
        assert(w2[t] == w[t + s + 1]);
    }
    assert forall|t: int| 0 <= t < w1.len() - 1 implies (#[trigger] w1[t]).pair.target == w1[t
        + 1].pair.source by {
        assert(w1[t] == w[t]);
        assert(w1[t + 1] == w[t + 1]);
    }
    assert forall|t: int| 0 <= t < w2.len() - 1 implies (#[trigger] w2[t]).pair.target == w2[t
        + 1].pair.source by {
        assert(w2[t] == w[t + s + 1]);
        assert(w2[t + 1] == w[t + s + 2]);
    }
    assert(w1[0] == w[0]);
    assert(w1.last() == w[s]);
    assert(w2[0] == w[s + 1]);
    assert(w2.last() == w.last());
}

/// Every vertex that a walk passes is an endpoint of the graph.
proof fn lemma_walk_endpoints(edges: Seq<Edge>, w: Seq<Edge>, t: int)
    requires
        seeded(edges, w),
        0 <= t < w.len(),
    ensures
        is_endpoint(edges, w[t].pair.source),
        is_endpoint(edges, w[t].pair.target),
{
    lemma_seed_edge(edges, w[t].pair);
    let x = choose|x: int| 0 <= x < edges.len() && edges[x] == w[t];
    assert(touches(edges[x], w[t].pair.source));
    assert(touches(edges[x], w[t].pair.target));
}

/// After relaxation through the first `p` vertices the table covers the walks that pass
/// only those.
proof fn lemma_covers(edges: Seq<Edge>, p: nat)
    requires
        p <= vertices(edges).len(),
    ensures
        covers(relax_through(seed(edges), vertices(edges), p), edges, vertices(edges), p),
    decreases p,
{
    let vs = vertices(edges);
    lemma_seed_sound(edges);
    if p == 0 {
        let t = seed(edges);
        assert forall|w: Seq<Edge>, i: usize, j: usize|
            #[trigger] is_walk(edges, w, i, j) && inner_distinct(w) && inner_among(
                w,
                vs,
                0,
            ) implies t.dom().contains(Pair { source: i, target: j }) && t[Pair {
            source: i,
            target: j,
        }].total_cost <= cost_sum(w) by {
            if w.len() >= 2 {
                assert(vs.take(0).contains(w[0].pair.target));
                assert(false);
            }
            if w.len() == 1 {
                assert(seed_edge(edges, w[0].pair) == Some(w[0]));
                assert(w[0].pair == Pair { source: i, target: j });
                assert(w.drop_last() =~= Seq::<Edge>::empty());
                assert(cost_sum(w) == w[0].cost) by {
                    reveal_with_fuel(cost_sum, 2);
                }
            } else {
                assert(vs.contains(i));
            }
        }
    } else {
        let k = vs[p - 1];
        let t0 = relax_through(seed(edges), vs, (p - 1) as nat);
        let t1 = relax_through(seed(edges), vs, p);
        lemma_covers(edges, (p - 1) as nat);
        lemma_relax_through(edges, (p - 1) as nat);
        lemma_relax_sources(t0, edges, vs, k, vs.len());
        assert(t1 == relax_sources(t0, vs, k, vs.len()));
        assert forall|w: Seq<Edge>, i: usize, j: usize|
            #[trigger] is_walk(edges, w, i, j) && inner_distinct(w) && inner_among(
                w,
                vs,
                p,
            ) implies t1.dom().contains(Pair { source: i, target: j }) && t1[Pair {
            source: i,
            target: j,
        }].total_cost <= cost_sum(w) by {
            if exists|s: int| 0 <= s < w.len() - 1 && (#[trigger] w[s]).pair.target == k {
                let s = choose|s: int| 0 <= s < w.len() - 1 && (#[trigger] w[s]).pair.target == k;
                let w1 = w.take(s + 1);
                let w2 = w.skip(s + 1);
                lemma_walk_split(edges, w, i, j, s);
                assert forall|x: int| 0 <= x < w1.len() - 1 implies vs.take(p - 1).contains(
                    (#[trigger] w1[x]).pair.target,
                ) by {
                    assert(w1[x] == w[x]);
                    lemma_inner_earlier(w, vs, p, x);
                    assert(w[x].pair.target != w[s].pair.target);
                }
                assert forall|x: int| 0 <= x < w2.len() - 1 implies vs.take(p - 1).contains(
                    (#[trigger] w2[x]).pair.target,
                ) by {
                    assert(w2[x] == w[x + s + 1]);
                    lemma_inner_earlier(w, vs, p, x + s + 1);
                    assert(w[s].pair.target != w[x + s + 1].pair.target);
                }
                assert forall|x: int, y: int| 0 <= x < y < w1.len() - 1 implies (
                #[trigger] w1[x]).pair.target != (#[trigger] w1[y]).pair.target by {
                    assert(w1[x] == w[x]);
                    assert(w1[y] == w[y]);
                }
                assert forall|x: int, y: int| 0 <= x < y < w2.len() - 1 implies (
                #[trigger] w2[x]).pair.target != (#[trigger] w2[y]).pair.target by {
                    assert(w2[x] == w[x + s + 1]);
                    assert(w2[y] == w[y + s + 1]);
                }
                assert(is_walk(edges, w1, i, k));
                assert(is_walk(edges, w2, k, j));
                let ik = Pair { source: i, target: k };
                let kj = Pair { source: k, target: j };
                assert(t0.dom().contains(ik) && t0[ik].total_cost <= cost_sum(w1));
                assert(t0.dom().contains(kj) && t0[kj].total_cost <= cost_sum(w2));
                lemma_walk_endpoints(edges, w, 0);
                lemma_walk_endpoints(edges, w, w.len() - 1);
                assert(vs.contains(i));
                assert(vs.contains(j));
                let c = choose|c: int| 0 <= c < vs.len() && vs[c] == i;
                let d = choose|d: int| 0 <= d < vs.len() && vs[d] == j;
                assert(joins(t1, t0, vs[c], k, vs[d]));
            } else {
                assert forall|x: int| 0 <= x < w.len() - 1 implies vs.take(p - 1).contains(
                    (#[trigger] w[x]).pair.target,
                ) by {
                    lemma_inner_earlier(w, vs, p, x);
                }
                assert(t0.dom().contains(Pair { source: i, target: j }));
            }
        }
    }
}

/// A vertex among the first `p` of `vs`, if it is not the last of them, is among the first
/// `p - 1`.
proof fn lemma_inner_earlier(w: Seq<Edge>, vs: Seq<usize>, p: nat, x: int)
    requires
        0 < p <= vs.len(),
        inner_among(w, vs, p),
        0 <= x < w.len() - 1,
    ensures
        w[x].pair.target != vs[p - 1] ==> vs.take(p - 1).contains(w[x].pair.target),
{
    let v = w[x].pair.target;
    assert(vs.take(p as int).contains(v));
    let a = choose|a: int| 0 <= a < vs.take(p as int).len() && vs.take(p as int)[a] == v;
    if v != vs[p - 1] {
        assert(vs.take(p - 1)[a] == v);
    }
}

/// A walk that passes a vertex twice falls into the round trip between the two visits and
/// the walk without it.
proof fn lemma_cut_round_trip(
    edges: Seq<Edge>,
    w: Seq<Edge>,
    i: usize,
    j: usize,
    s: int,
    t: int,
)
    requires
        is_walk(edges, w, i, j),
        0 <= s < t < w.len() - 1,
        w[s].pair.target == w[t].pair.target,
    ensures
        is_walk(edges, w.subrange(s + 1, t + 1), w[s].pair.target, w[s].pair.target),
        is_walk(edges, w.take(s + 1) + w.skip(t + 1), i, j),
        w.subrange(s + 1, t + 1).len() > 0,
        (w.take(s + 1) + w.skip(t + 1)).len() > 0,
        w.subrange(s + 1, t + 1).len() < w.len(),
        (w.take(s + 1) + w.skip(t + 1)).len() < w.len(),
        cost_sum(w) == cost_sum(w.subrange(s + 1, t + 1)) + cost_sum(
            w.take(s + 1) + w.skip(t + 1),
        ),
{
    let u = w[s].pair.target;
    let head = w.take(s + 1);
    let rest = w.skip(s + 1);
    let round = w.subrange(s + 1, t + 1);
    let tail = w.skip(t + 1);
    assert(rest[t - s - 1] == w[t]);
    assert(rest.take(t - s) =~= round);
    assert(rest.skip(t - s) =~= tail);
    assert(is_walk(edges, head, i, u) && is_walk(edges, rest, u, j) && cost_sum(w) == cost_sum(
        head,
    ) + cost_sum(rest)) by {
        lemma_walk_split(edges, w, i, j, s);
    }
    assert(is_walk(edges, round, u, u) && is_walk(edges, tail, u, j) && cost_sum(rest)
        == cost_sum(round) + cost_sum(tail)) by {
        lemma_walk_split(edges, rest, u, j, t - s - 1);
    }
    assert(is_walk(edges, head + tail, i, j) && cost_sum(head + tail) == cost_sum(head)
        + cost_sum(tail)) by {
        lemma_walk_concat(edges, head, tail, i, u, j);
    }
}

/// Every walk can be replaced by one between the same ends that passes no vertex twice
/// between them, and that costs no more where the graph has no negative cycle.
proof fn lemma_shorten(edges: Seq<Edge>, w: Seq<Edge>, i: usize, j: usize) -> (r: Seq<Edge>)
    requires
        is_walk(edges, w, i, j),
    ensures
        is_walk(edges, r, i, j),
        inner_distinct(r),
        !has_negative_cycle(edges) ==> cost_sum(r) <= cost_sum(w),
    decreases w.len(),
{
    if inner_distinct(w) {
        w
    } else {
        let (s, t) = choose|s: int, t: int|
            0 <= s < t < w.len() - 1 && (#[trigger] w[s]).pair.target == (
            #[trigger] w[t]).pair.target;
        lemma_cut_round_trip(edges, w, i, j, s, t);
        let round = w.subrange(s + 1, t + 1);
        let straight = w.take(s + 1) + w.skip(t + 1);
        if !has_negative_cycle(edges) {
            assert(is_walk(edges, round, w[s].pair.target, w[s].pair.target));
            assert(cost_sum(round) >= 0);
        }
        lemma_shorten(edges, straight, i, j)
    }
}

/// A negative round trip holds one that passes no vertex twice between its ends.
proof fn lemma_negative_round_trip(edges: Seq<Edge>, w: Seq<Edge>, v: usize) -> (r: (
    Seq<Edge>,
    usize,
))
    requires
        is_walk(edges, w, v, v),
        cost_sum(w) < 0,
    ensures
        is_walk(edges, r.0, r.1, r.1),
        cost_sum(r.0) < 0,
        inner_distinct(r.0),
    decreases w.len(),
{
    if inner_distinct(w) {
        (w, v)
    } else {
        let (s, t) = choose|s: int, t: int|
            0 <= s < t < w.len() - 1 && (#[trigger] w[s]).pair.target == (
            #[trigger] w[t]).pair.target;
        lemma_cut_round_trip(edges, w, v, v, s, t);
        let round = w.subrange(s + 1, t + 1);
        let straight = w.take(s + 1) + w.skip(t + 1);
        if cost_sum(round) < 0 {
            lemma_negative_round_trip(edges, round, w[s].pair.target)
        } else {
            lemma_negative_round_trip(edges, straight, v)
        }
    }
}

/// The converged table covers every walk that passes no vertex twice between its ends.
proof fn lemma_converged_covers(edges: Seq<Edge>, w: Seq<Edge>, i: usize, j: usize)
    requires
        is_walk(edges, w, i, j),
        inner_distinct(w),
    ensures
        converged(edges).dom().contains(Pair { source: i, target: j }),
        converged(edges)[Pair { source: i, target: j }].total_cost <= cost_sum(w),
{
    let vs = vertices(edges);
    lemma_vertices_exist(edges);
    lemma_covers(edges, vs.len());
    assert forall|t: int| 0 <= t < w.len() - 1 implies vs.take(vs.len() as int).contains(
        (#[trigger] w[t]).pair.target,
    ) by {
        lemma_walk_endpoints(edges, w, t);
        assert(vs.take(vs.len() as int) =~= vs);
    }
}

/// The converged table is sound and well formed.
proof fn lemma_converged_sound(edges: Seq<Edge>)
    ensures
        sound(converged(edges), edges),
        lists_endpoints(vertices(edges), edges),
{
    lemma_vertices_exist(edges);
    lemma_relax_through(edges, vertices(edges).len());
}

/// The solver fails exactly on the graphs that have a negative cycle.
pub proof fn lemma_fails_on_negative_cycles(edges: Seq<Edge>)
    ensures
        shortest_table(edges) is Err <==> has_negative_cycle(edges),
{
    let vs = vertices(edges);
    let t = converged(edges);
    lemma_converged_sound(edges);
    lemma_relax_through(edges, vs.len());
    if has_negative_cycle(edges) {
        let (w, v) = choose|w: Seq<Edge>, v: usize| #[trigger]
            is_walk(edges, w, v, v) && cost_sum(w) < 0;
        let (r, u) = lemma_negative_round_trip(edges, w, v);
        lemma_converged_covers(edges, r, u, u);
        lemma_walk_endpoints(edges, r, 0);
        assert(vs.contains(u));
        let a = choose|a: int| 0 <= a < vs.len() && vs[a] == u;
        assert(t[Pair { source: vs[a], target: vs[a] }].total_cost < 0);
    }
    if has_negative_self_pair(t, vs) {
        let a = choose|a: int|
            0 <= a < vs.len() && (#[trigger] t[Pair { source: vs[a], target: vs[a] }]).total_cost
                < 0;
        let p = Pair { source: vs[a], target: vs[a] };
        assert(vs.contains(vs[a]));
        assert(seed(edges).dom().contains(p));
        assert(t.dom().contains(p));
        assert(is_walk(edges, t[p].edges, vs[a], vs[a]));
    }
}

/// Every path that the solver returns is a walk from its source to its target over the
/// seeding edges, and its total is the sum of their costs.
pub proof fn lemma_paths_are_walks(edges: Seq<Edge>, pair: Pair)
    requires
        shortest_table(edges) is Ok,
        shortest_table(edges)->Ok_0.dom().contains(pair),
    ensures
        is_walk(edges, shortest_table(edges)->Ok_0[pair].edges, pair.source, pair.target),
        shortest_table(edges)->Ok_0[pair].total_cost == cost_sum(
            shortest_table(edges)->Ok_0[pair].edges,
        ),
{
    lemma_converged_sound(edges);
}

/// Where the graph has no negative cycle, the solver returns a table that records a path
/// for a pair exactly where the target can be reached from the source.
pub proof fn lemma_records_reachable_pairs(edges: Seq<Edge>, i: usize, j: usize)
    requires
        !has_negative_cycle(edges),
    ensures
        shortest_table(edges) is Ok,
        shortest_table(edges)->Ok_0.dom().contains(Pair { source: i, target: j }) <==> reachable(
            edges,
            i,
            j,
        ),
{
    lemma_fails_on_negative_cycles(edges);
    lemma_converged_sound(edges);
    let t = converged(edges);
    let p = Pair { source: i, target: j };
    if reachable(edges, i, j) {
        let w = choose|w: Seq<Edge>| is_walk(edges, w, i, j);
        let r = lemma_shorten(edges, w, i, j);
        lemma_converged_covers(edges, r, i, j);
    }
    if t.dom().contains(p) {
        assert(is_walk(edges, t[p].edges, i, j));
    }
}

/// Where the graph has no negative cycle, every vertex has a path to itself in the
/// returned table, and it is the identity path unless an edge leads from the vertex to
/// itself.
pub proof fn lemma_records_self_pairs(edges: Seq<Edge>, v: usize)
    requires
        !has_negative_cycle(edges),
        is_endpoint(edges, v),
    ensures
        shortest_table(edges) is Ok,
        shortest_table(edges)->Ok_0.dom().contains(Pair { source: v, target: v }),
        seed_edge(edges, Pair { source: v, target: v }) is None ==> shortest_table(
            edges,
        )->Ok_0[Pair { source: v, target: v }] == identity(),
{
    lemma_fails_on_negative_cycles(edges);
    lemma_converged_sound(edges);
    let vs = vertices(edges);
    let t = converged(edges);
    let p = Pair { source: v, target: v };
    lemma_relax_through(edges, vs.len());
    assert(vs.contains(v));
    assert(seed(edges).dom().contains(p));
    let a = choose|a: int| 0 <= a < vs.len() && vs[a] == v;
    assert(t[Pair { source: vs[a], target: vs[a] }].total_cost >= 0);
    if seed_edge(edges, p) is None {
        assert(rests(t, v));
    }
}

/// The path that the solver returns for a pair costs no more than any walk from the
/// source to the target.
pub proof fn lemma_cheapest(edges: Seq<Edge>, w: Seq<Edge>, i: usize, j: usize)
    requires
        shortest_table(edges) is Ok,
        is_walk(edges, w, i, j),
    ensures
        shortest_table(edges)->Ok_0.dom().contains(Pair { source: i, target: j }),
        shortest_table(edges)->Ok_0[Pair { source: i, target: j }].total_cost <= cost_sum(w),
{
    lemma_fails_on_negative_cycles(edges);
    let r = lemma_shorten(edges, w, i, j);
    lemma_converged_covers(edges, r, i, j);
}

/// No further relaxation is possible in a returned table: where it records `i -> k` and
/// `k -> j`, it records `i -> j` at no more than the two cost together.
pub proof fn lemma_no_further_relaxation(edges: Seq<Edge>, i: usize, j: usize, k: usize)
    requires
        shortest_table(edges) is Ok,
        shortest_table(edges)->Ok_0.dom().contains(Pair { source: i, target: k }),
        shortest_table(edges)->Ok_0.dom().contains(Pair { source: k, target: j }),
    ensures
        shortest_table(edges)->Ok_0.dom().contains(Pair { source: i, target: j }),
        shortest_table(edges)->Ok_0[Pair { source: i, target: j }].total_cost <= shortest_table(
            edges,
        )->Ok_0[Pair { source: i, target: k }].total_cost + shortest_table(edges)->Ok_0[Pair {
            source: k,
            target: j,
        }].total_cost,
{
    let t = converged(edges);
    let ik = Pair { source: i, target: k };
    let kj = Pair { source: k, target: j };
    lemma_converged_sound(edges);
    lemma_walk_concat(edges, t[ik].edges, t[kj].edges, i, k, j);
    lemma_cheapest(edges, t[ik].edges + t[kj].edges, i, j);
}

/// A table has one listing only.
pub proof fn lemma_listing_unique(l1: Seq<(Pair, Path)>, l2: Seq<(Pair, Path)>, t: Table)
    requires
        lists_table(l1, t),
        lists_table(l2, t),
    ensures
        l1.len() == l2.len(),
        forall|x: int|
            0 <= x < l1.len() ==> (#[trigger] l1[x]).0 == l2[x].0 && l1[x].1@ == l2[x].1@,
    decreases l1.len(),
{
    if l1.len() == 0 {
        if l2.len() > 0 {
            assert(t.dom().contains(l2[0].0));
        }
    } else {
        let m1 = l1.last().0;
        assert(t.dom().contains(m1));
        let a2 = choose|a: int| 0 <= a < l2.len() && (#[trigger] l2[a]).0 == m1;
        let m2 = l2.last().0;
        assert(t.dom().contains(m2));
        let a1 = choose|a: int| 0 <= a < l1.len() && (#[trigger] l1[a]).0 == m2;
        assert(m1 == m2) by {
            if a1 < l1.len() - 1 {
                assert(pair_before(l1[a1].0, l1[l1.len() - 1].0));
            }
            if a2 < l2.len() - 1 {
                assert(pair_before(l2[a2].0, l2[l2.len() - 1].0));
            }
        }
        let r1 = l1.drop_last();
        let r2 = l2.drop_last();
        let rest = t.remove(m1);
        assert forall|p: Pair| rest.dom().contains(p) implies exists|x: int|
            0 <= x < r1.len() && (#[trigger] r1[x]).0 == p by {
            let x = choose|x: int| 0 <= x < l1.len() && (#[trigger] l1[x]).0 == p;
            assert(r1[x].0 == p);
        }
        assert forall|p: Pair| rest.dom().contains(p) implies exists|x: int|
            0 <= x < r2.len() && (#[trigger] r2[x]).0 == p by {
            let x = choose|x: int| 0 <= x < l2.len() && (#[trigger] l2[x]).0 == p;
            assert(r2[x].0 == p);
        }
        assert forall|x: int| 0 <= x < r1.len() implies rest.dom().contains(
            (#[trigger] r1[x]).0,
        ) && r1[x].1@ == rest[r1[x].0] by {
            assert(r1[x] == l1[x]);
            assert(pair_before(l1[x].0, l1[l1.len() - 1].0));
        }
        assert forall|x: int| 0 <= x < r2.len() implies rest.dom().contains(
            (#[trigger] r2[x]).0,
        ) && r2[x].1@ == rest[r2[x].0] by {
            assert(r2[x] == l2[x]);
            assert(pair_before(l2[x].0, l2[l2.len() - 1].0));
        }
        assert(lists_table(r1, rest));
        assert(lists_table(r2, rest));
        lemma_listing_unique(r1, r2, rest);
        assert forall|x: int| 0 <= x < l1.len() implies (#[trigger] l1[x]).0 == l2[x].0
            && l1[x].1@ == l2[x].1@ by {
            if x < l1.len() - 1 {
                assert(r1[x] == l1[x]);
                assert(r2[x] == l2[x]);
            }
        }
    }
}

/// Two calls with the same input give the same output: whatever two results a solver
/// returns for one table that it has to find, they hold the same pairs with the same paths
/// in the same order, or are the same failure.
pub proof fn lemma_same_input_same_output(
    r1: Result<Vec<(Pair, Path)>, PathCalculationError>,
    r2: Result<Vec<(Pair, Path)>, PathCalculationError>,
    table: Result<Table, PathCalculationError>,
)
    requires
        answers(r1, table),
        answers(r2, table),
    ensures
        same_results(r1, r2),
{
    match (r1, r2) {
        (Ok(l1), Ok(l2)) => {
            lemma_listing_unique(l1@, l2@, table->Ok_0);
        },
        _ => {},
    }
}

/// The target can be reached from the source exactly where a chain of pairs with edges
/// leads from the one to the other, or where both are one vertex from which no edge leads
/// to itself.
pub proof fn lemma_reachable_by_routes(edges: Seq<Edge>, i: usize, j: usize)
    ensures
        reachable(edges, i, j) <==> (exists|w: Seq<Pair>| is_route(edges, w, i, j)) || (i == j
            && is_endpoint(edges, i) && !has_edge(edges, Pair { source: i, target: i })),
{
    let own = Pair { source: i, target: i };
    lemma_seed_edge(edges, own);
    if seed_edge(edges, own) is Some {
        let e = seed_edge(edges, own)->Some_0;
        let x = choose|x: int| 0 <= x < edges.len() && edges[x] == e;
        assert(edges[x].pair == own);
    }
    if reachable(edges, i, j) {
        let w = choose|w: Seq<Edge>| is_walk(edges, w, i, j);
        if w.len() > 0 {
            let route = w.map_values(|e: Edge| e.pair);
            assert forall|t: int| 0 <= t < route.len() implies has_edge(edges, #[trigger] route[t]) by {
                lemma_seed_edge(edges, w[t].pair);
                let x = choose|x: int| 0 <= x < edges.len() && edges[x] == w[t];
                assert(edges[x].pair == route[t]);
            }
            assert forall|t: int| 0 <= t < route.len() - 1 implies (#[trigger] route[t]).target
                == route[t + 1].source by {
                assert(w[t].pair.target == w[t + 1].pair.source);
            }
            assert(is_route(edges, route, i, j));
        }
    }
    if exists|w: Seq<Pair>| is_route(edges, w, i, j) {
        let route = choose|w: Seq<Pair>| is_route(edges, w, i, j);
        let w = route.map_values(|p: Pair| seed_edge(edges, p)->Some_0);
        assert forall|t: int| 0 <= t < w.len() implies (#[trigger] w[t]).pair == route[t]
            && seed_edge(edges, w[t].pair) == Some(w[t]) by {
            assert(has_edge(edges, route[t]));
            lemma_seed_edge(edges, route[t]);
        }
        assert forall|t: int| 0 <= t < w.len() - 1 implies (#[trigger] w[t]).pair.target == w[t
            + 1].pair.source by {
            assert(route[t].target == route[t + 1].source);
            assert(w[t + 1].pair == route[t + 1]);
        }
        assert(w[0].pair == route[0]);
        assert(w[w.len() - 1].pair == route[route.len() - 1]);
        assert(is_walk(edges, w, i, j));
    }
    if i == j && is_endpoint(edges, i) && !has_edge(edges, own) {
        assert(is_walk(edges, Seq::<Edge>::empty(), i, j));
    }
}

} // verus!
