//! Which of the parallel edges on a pair is kept, and the listing of the kept edges.

use super::algo::{Comparison, Edge, Pair, Replace};
use super::model::pair_before;
use vstd::prelude::*;

verus! {

/// How the cost of the edge that is kept for a pair compares with the cost of a later
/// edge on the same pair.
pub open spec fn compare(current: i64, candidate: i64) -> Comparison {
    if current < candidate {
        Comparison::Less
    } else if current == candidate {
        Comparison::Equal
    } else {
        Comparison::Greater
    }
}

/// Whether a later edge of cost `candidate` replaces the edge of cost `current` that is
/// kept for its pair.
pub open spec fn replaces(rule: Replace, current: i64, candidate: i64) -> bool {
    match rule {
        Replace::Always => true,
        Replace::When(outcome) => compare(current, candidate) == outcome,
    }
}

/// The index of the edge that is kept for `pair` after a fold over `edges` in their
/// order: the first edge on the pair is kept until a later one replaces it, which it does
/// exactly where `rule` says so of the kept cost and its own.
pub open spec fn kept(edges: Seq<Edge>, rule: Replace, pair: Pair) -> Option<int>
    decreases edges.len(),
{
    if edges.len() == 0 {
        None
    } else {
        let last = edges.len() - 1;
        let earlier = kept(edges.drop_last(), rule, pair);
        if edges[last].pair != pair {
            earlier
        } else {
            match earlier {
                None => Some(last),
                Some(x) => if replaces(rule, edges[x].cost, edges[last].cost) {
                    Some(last)
                } else {
                    Some(x)
                },
            }
        }
    }
}

/// `e` is the edge of `edges` that is kept for its pair.
pub open spec fn is_kept(edges: Seq<Edge>, rule: Replace, e: Edge) -> bool {
    match kept(edges, rule, e.pair) {
        Some(k) => 0 <= k < edges.len() && edges[k] == e,
        None => false,
    }
}

/// `r` holds, in ascending order of their pairs, the one edge kept for each pair of `edges`.
pub open spec fn lists_kept(r: Seq<Edge>, edges: Seq<Edge>, rule: Replace) -> bool {
    &&& forall|x: int, y: int|
        0 <= x < y < r.len() ==> pair_before((#[trigger] r[x]).pair, (#[trigger] r[y]).pair)
    &&& forall|x: int|
        0 <= x < r.len() ==> is_kept(edges, rule, #[trigger] r[x])
    &&& forall|t: int|
        0 <= t < edges.len() ==> exists|x: int|
            0 <= x < r.len() && (#[trigger] r[x]).pair == (#[trigger] edges[t]).pair
}

/// The edges of `edges` with parallel quotes removed: one edge for each pair, in
/// ascending order of the pairs.
pub open spec fn cheapest(edges: Seq<Edge>, rule: Replace) -> Seq<Edge> {
    choose|r: Seq<Edge>| lists_kept(r, edges, rule)
}

/// The edge kept for a pair is an edge on that pair, and no pair of an edge is left
/// without one.
pub proof fn lemma_kept(edges: Seq<Edge>, rule: Replace, pair: Pair)
    ensures
        match kept(edges, rule, pair) {
            Some(k) => 0 <= k < edges.len() && edges[k].pair == pair,
            None => forall|t: int| 0 <= t < edges.len() ==> (#[trigger] edges[t]).pair != pair,
        },
    decreases edges.len(),
{
    if edges.len() > 0 {
        let d = edges.drop_last();
        lemma_kept(d, rule, pair);
        match kept(d, rule, pair) {
            Some(k) => {
                assert(d[k] == edges[k]);
            },
            None => {
                assert forall|t: int| 0 <= t < edges.len() - 1 implies (#[trigger] edges[t]).pair
                    != pair by {
                    assert(d[t] == edges[t]);
                }
            },
        }
    }
}

/// What is kept for a pair after one more edge.
pub proof fn lemma_kept_step(edges: Seq<Edge>, rule: Replace, pair: Pair, n: int)
    requires
        0 <= n < edges.len(),
    ensures
        kept(edges.take(n + 1), rule, pair) == if edges[n].pair != pair {
            kept(edges.take(n), rule, pair)
        } else {
            match kept(edges.take(n), rule, pair) {
                None => Some(n),
                Some(x) => if replaces(rule, edges[x].cost, edges[n].cost) {
                    Some(n)
                } else {
                    Some(x)
                },
            }
        },
{
    let next = edges.take(n + 1);
    assert(next.drop_last() =~= edges.take(n));
    assert(next[n] == edges[n]);
    lemma_kept(edges.take(n), rule, pair);
    match kept(edges.take(n), rule, pair) {
        Some(x) => {
            assert(next[x] == edges[x]);
        },
        None => {},
    }
}

/// What the first `n + 1` edges keep for every pair, in terms of what the first `n` keep.
pub proof fn lemma_kept_steps(edges: Seq<Edge>, rule: Replace, n: int)
    requires
        0 <= n < edges.len(),
    ensures
        forall|p: Pair|
            #[trigger] kept(edges.take(n + 1), rule, p) == if edges[n].pair != p {
                kept(edges.take(n), rule, p)
            } else {
                match kept(edges.take(n), rule, p) {
                    None => Some(n),
                    Some(k) => if replaces(rule, edges[k].cost, edges[n].cost) {
                        Some(n)
                    } else {
                        Some(k)
                    },
                }
            },
{
    assert forall|p: Pair|
        #[trigger] kept(edges.take(n + 1), rule, p) == if edges[n].pair != p {
            kept(edges.take(n), rule, p)
        } else {
            match kept(edges.take(n), rule, p) {
                None => Some(n),
                Some(k) => if replaces(rule, edges[k].cost, edges[n].cost) {
                    Some(n)
                } else {
                    Some(k)
                },
            }
        } by {
        lemma_kept_step(edges, rule, p, n);
    }
}

/// Which of the parallel edges on a pair is kept where a later edge replaces on one
/// outcome of the comparison: on `Comparison::Less` none of the edges costs more than the
/// kept one, on `Comparison::Greater` none costs less, and either way none of the same
/// cost comes before it.
pub proof fn lemma_kept_is_extreme(edges: Seq<Edge>, rule: Replace, t: int)
    requires
        0 <= t < edges.len(),
        rule == Replace::When(Comparison::Less) || rule == Replace::When(Comparison::Greater),
    ensures
        kept(edges, rule, edges[t].pair) is Some,
        ({
            let k = kept(edges, rule, edges[t].pair)->Some_0;
            &&& 0 <= k < edges.len()
            &&& edges[k].pair == edges[t].pair
            &&& rule == Replace::When(Comparison::Less) ==> edges[k].cost >= edges[t].cost
            &&& rule == Replace::When(Comparison::Greater) ==> edges[k].cost <= edges[t].cost
            &&& edges[k].cost == edges[t].cost ==> k <= t
        }),
    decreases edges.len(),
{
    let pair = edges[t].pair;
    let d = edges.drop_last();
    let last = edges.len() - 1;
    lemma_kept(edges, rule, pair);
    lemma_kept(d, rule, pair);
    if t < last {
        assert(d[t] == edges[t]);
        lemma_kept_is_extreme(d, rule, t);
        let k = kept(d, rule, pair)->Some_0;
        assert(d[k] == edges[k]);
    } else {
        match kept(d, rule, pair) {
            Some(k) => {
                assert(d[k] == edges[k]);
            },
            None => {},
        }
    }
}

/// Where every later edge replaces, the last edge on a pair is kept.
pub proof fn lemma_kept_last(edges: Seq<Edge>, t: int)
    requires
        0 <= t < edges.len(),
    ensures
        kept(edges, Replace::Always, edges[t].pair) is Some,
        ({
            let k = kept(edges, Replace::Always, edges[t].pair)->Some_0;
            t <= k < edges.len() && edges[k].pair == edges[t].pair
        }),
    decreases edges.len(),
{
    let pair = edges[t].pair;
    let d = edges.drop_last();
    lemma_kept(edges, Replace::Always, pair);
    if t < edges.len() - 1 && edges.last().pair != pair {
        assert(d[t] == edges[t]);
        lemma_kept_last(d, t);
    }
}

/// Strictly ascending pairs.
pub open spec fn ascending_pairs(s: Seq<Pair>) -> bool {
    forall|a: int, b: int| 0 <= a < b < s.len() ==> pair_before(#[trigger] s[a], #[trigger] s[b])
}

/// Two ascending sequences of pairs with the same elements are the same sequence.
pub proof fn lemma_ascending_pairs_unique(s1: Seq<Pair>, s2: Seq<Pair>)
    requires
        ascending_pairs(s1),
        ascending_pairs(s2),
        forall|p: Pair| s1.contains(p) <==> s2.contains(p),
    ensures
        s1 == s2,
    decreases s1.len(),
{
    if s1.len() == 0 {
        if s2.len() > 0 {
            assert(s2.contains(s2[0]));
        }
        assert(s1 =~= s2);
    } else {
        let m1 = s1.last();
        assert(s1.contains(m1));
        assert(s2.contains(m1));
        let m2 = s2.last();
        assert(s2.contains(m2));
        assert(s1.contains(m2));
        let a1 = choose|a: int| 0 <= a < s1.len() && s1[a] == m2;
        let a2 = choose|a: int| 0 <= a < s2.len() && s2[a] == m1;
        assert(m1 == m2) by {
            if a1 < s1.len() - 1 {
                assert(pair_before(s1[a1], s1[s1.len() - 1]));
            }
            if a2 < s2.len() - 1 {
                assert(pair_before(s2[a2], s2[s2.len() - 1]));
            }
        }
        let r1 = s1.drop_last();
        let r2 = s2.drop_last();
        assert forall|p: Pair| r1.contains(p) <==> r2.contains(p) by {
            if r1.contains(p) {
                let a = choose|a: int| 0 <= a < r1.len() && r1[a] == p;
                assert(s1[a] == p);
                assert(pair_before(s1[a], s1[s1.len() - 1]));
                assert(s1.contains(p));
                let b = choose|b: int| 0 <= b < s2.len() && s2[b] == p;
                assert(r2[b] == p);
            }
            if r2.contains(p) {
                let a = choose|a: int| 0 <= a < r2.len() && r2[a] == p;
                assert(s2[a] == p);
                assert(pair_before(s2[a], s2[s2.len() - 1]));
                assert(s2.contains(p));
                let b = choose|b: int| 0 <= b < s1.len() && s1[b] == p;
                assert(r1[b] == p);
            }
        }
        lemma_ascending_pairs_unique(r1, r2);
        assert(s1 =~= r1.push(m1));
        assert(s2 =~= r2.push(m2));
    }
}

/// Two listings of the kept edges are the same sequence: both ascend strictly by pair and
/// hold the same pairs, and an edge is fixed by its pair.
pub proof fn lemma_lists_kept_unique(
    r1: Seq<Edge>,
    r2: Seq<Edge>,
    edges: Seq<Edge>,
    rule: Replace,
)
    requires
        lists_kept(r1, edges, rule),
        lists_kept(r2, edges, rule),
    ensures
        r1 == r2,
{
    let pairs1 = r1.map_values(|e: Edge| e.pair);
    let pairs2 = r2.map_values(|e: Edge| e.pair);
    assert forall|p: Pair| pairs1.contains(p) <==> pairs2.contains(p) by {
        if pairs1.contains(p) {
            let x = choose|x: int| 0 <= x < pairs1.len() && pairs1[x] == p;
            assert(is_kept(edges, rule, r1[x]));
            let k = kept(edges, rule, p)->Some_0;
            let y = choose|y: int|
                0 <= y < r2.len() && (#[trigger] r2[y]).pair == (#[trigger] edges[k]).pair;
            assert(pairs2[y] == p);
        }
        if pairs2.contains(p) {
            let x = choose|x: int| 0 <= x < pairs2.len() && pairs2[x] == p;
            assert(is_kept(edges, rule, r2[x]));
            let k = kept(edges, rule, p)->Some_0;
            let y = choose|y: int|
                0 <= y < r1.len() && (#[trigger] r1[y]).pair == (#[trigger] edges[k]).pair;
            assert(pairs1[y] == p);
        }
    }
    lemma_ascending_pairs_unique(pairs1, pairs2);
    assert forall|x: int| 0 <= x < r1.len() implies r1[x] == r2[x] by {
        assert(pairs1[x] == pairs2[x]);
        assert(is_kept(edges, rule, r1[x]));
        assert(is_kept(edges, rule, r2[x]));
    }
    assert(r1 =~= r2);
}

/// In a sequence with ascending pairs, what is kept for the pair of an edge among the
/// first `n` edges is that edge, if it is among them.
pub proof fn lemma_kept_in_ascending(g: Seq<Edge>, rule: Replace, x: int, n: int)
    requires
        forall|a: int, b: int|
            0 <= a < b < g.len() ==> pair_before((#[trigger] g[a]).pair, (#[trigger] g[b]).pair),
        0 <= x < g.len(),
        0 <= n <= g.len(),
    ensures
        kept(g.take(n), rule, g[x].pair) == if x < n {
            Some(x)
        } else {
            None
        },
    decreases n,
{
    if n > 0 {
        lemma_kept_in_ascending(g, rule, x, n - 1);
        lemma_kept_step(g, rule, g[x].pair, n - 1);
        if x < n - 1 {
            assert(pair_before(g[x].pair, g[n - 1].pair));
        } else if x > n - 1 {
            assert(pair_before(g[n - 1].pair, g[x].pair));
        }
    }
}

/// A sequence with ascending pairs has no parallel edges: all of it is kept.
pub proof fn lemma_ascending_is_kept(g: Seq<Edge>, rule: Replace)
    requires
        forall|a: int, b: int|
            0 <= a < b < g.len() ==> pair_before((#[trigger] g[a]).pair, (#[trigger] g[b]).pair),
    ensures
        lists_kept(g, g, rule),
        cheapest(g, rule) == g,
{
    assert(g.take(g.len() as int) =~= g);
    assert forall|x: int| 0 <= x < g.len() implies is_kept(g, rule, #[trigger] g[x]) by {
        lemma_kept_in_ascending(g, rule, x, g.len() as int);
    }
    assert(lists_kept(g, g, rule));
    lemma_lists_kept_unique(g, cheapest(g, rule), g, rule);
}

/// `at` holds, in ascending order of their pairs, the indices of the edges kept for each
/// pair of `edges`.
pub open spec fn lists_kept_at(at: Seq<usize>, edges: Seq<Edge>, rule: Replace) -> bool {
    &&& forall|x: int| 0 <= x < at.len() ==> (#[trigger] at[x]) < edges.len()
    &&& forall|x: int, y: int|
        0 <= x < y < at.len() ==> pair_before(
            edges[(#[trigger] at[x]) as int].pair,
            edges[(#[trigger] at[y]) as int].pair,
        )
    &&& forall|x: int|
        0 <= x < at.len() ==> kept(edges, rule, edges[(#[trigger] at[x]) as int].pair) == Some(
            at[x] as int,
        )
    &&& forall|t: int|
        0 <= t < edges.len() ==> exists|x: int|
            0 <= x < at.len() && edges[(#[trigger] at[x]) as int].pair == (#[trigger] edges[t]).pair
}

/// The listing of the kept indices after an edge on a pair that is listed already.
pub proof fn lemma_kept_at_same(
    before: Seq<usize>,
    after: Seq<usize>,
    edges: Seq<Edge>,
    rule: Replace,
    n: int,
    x: int,
)
    requires
        0 <= n < edges.len(),
        n <= usize::MAX,
        lists_kept_at(before, edges.take(n), rule),
        0 <= x < before.len(),
        edges[before[x] as int].pair == edges[n].pair,
        after == if replaces(rule, edges[before[x] as int].cost, edges[n].cost) {
            before.update(x, n as usize)
        } else {
            before
        },
    ensures
        lists_kept_at(after, edges.take(n + 1), rule),
{
    let done = edges.take(n);
    let next = edges.take(n + 1);
    let e = edges[n];
    lemma_kept_steps(edges, rule, n);
    assert forall|y: int| 0 <= y < before.len() implies (#[trigger] before[y]) < n && done[before[y] as int]
        == edges[before[y] as int] by {
        assert(before[y] < done.len());
    }
    assert(kept(done, rule, e.pair) == Some(before[x] as int));
    assert forall|y: int| 0 <= y < after.len() implies (#[trigger] after[y]) < next.len()
        && next[after[y] as int].pair == done[before[y] as int].pair by {}
    assert forall|y: int, z: int| 0 <= y < z < after.len() implies pair_before(
        next[(#[trigger] after[y]) as int].pair,
        next[(#[trigger] after[z]) as int].pair,
    ) by {
        assert(pair_before(done[before[y] as int].pair, done[before[z] as int].pair));
    }
    assert forall|y: int| 0 <= y < after.len() implies kept(
        next,
        rule,
        next[(#[trigger] after[y]) as int].pair,
    ) == Some(after[y] as int) by {
        if y != x {
            assert(after[y] == before[y]);
            if y < x {
                assert(pair_before(done[before[y] as int].pair, done[before[x] as int].pair));
            } else {
                assert(pair_before(done[before[x] as int].pair, done[before[y] as int].pair));
            }
        }
    }
    assert forall|t: int| 0 <= t < next.len() implies exists|y: int|
        0 <= y < after.len() && next[(#[trigger] after[y]) as int].pair == (
        #[trigger] next[t]).pair by {
        if t < n {
            assert(done[t] == next[t]);
            let y = choose|y: int|
                0 <= y < before.len() && done[(#[trigger] before[y]) as int].pair == (
                #[trigger] done[t]).pair;
            assert(next[after[y] as int].pair == next[t].pair);
        } else {
            assert(next[after[x] as int].pair == next[t].pair);
        }
    }
}

/// The listing of the kept indices after the first edge on a pair.
pub proof fn lemma_kept_at_insert(
    before: Seq<usize>,
    edges: Seq<Edge>,
    rule: Replace,
    n: int,
    x: int,
)
    requires
        0 <= n < edges.len(),
        n <= usize::MAX,
        lists_kept_at(before, edges.take(n), rule),
        0 <= x <= before.len(),
        forall|y: int|
            0 <= y < x ==> pair_before(edges[(#[trigger] before[y]) as int].pair, edges[n].pair),
        x < before.len() ==> !pair_before(edges[before[x] as int].pair, edges[n].pair)
            && edges[before[x] as int].pair != edges[n].pair,
    ensures
        lists_kept_at(before.insert(x, n as usize), edges.take(n + 1), rule),
{
    let done = edges.take(n);
    let next = edges.take(n + 1);
    let e = edges[n];
    let after = before.insert(x, n as usize);
    lemma_kept_steps(edges, rule, n);
    assert forall|y: int| 0 <= y < before.len() implies (#[trigger] before[y]) < n && done[before[y] as int]
        == edges[before[y] as int] && next[before[y] as int] == edges[before[y] as int] by {
        assert(before[y] < done.len());
    }
    assert forall|y: int| x <= y < before.len() implies pair_before(
        e.pair,
        done[(#[trigger] before[y]) as int].pair,
    ) by {
        if y > x {
            assert(pair_before(done[before[x] as int].pair, done[before[y] as int].pair));
        }
    }
    assert(kept(done, rule, e.pair) is None) by {
        lemma_kept(done, rule, e.pair);
        if kept(done, rule, e.pair) is Some {
            let k = kept(done, rule, e.pair)->Some_0;
            let y = choose|y: int|
                0 <= y < before.len() && done[(#[trigger] before[y]) as int].pair == (
                #[trigger] done[k]).pair;
            if y < x {
                assert(pair_before(edges[before[y] as int].pair, e.pair));
            }
        }
    }
    assert forall|y: int| 0 <= y < after.len() implies (#[trigger] after[y]) == (if y < x {
        before[y]
    } else if y == x {
        n as usize
    } else {
        before[y - 1]
    }) by {}
    assert forall|y: int| 0 <= y < after.len() implies (#[trigger] after[y]) < next.len() by {}
    assert forall|y: int, z: int| 0 <= y < z < after.len() implies pair_before(
        next[(#[trigger] after[y]) as int].pair,
        next[(#[trigger] after[z]) as int].pair,
    ) by {
        if z < x {
            assert(pair_before(done[before[y] as int].pair, done[before[z] as int].pair));
        } else if z == x {
            assert(pair_before(edges[before[y] as int].pair, e.pair));
        } else if y == x {
            assert(pair_before(e.pair, done[before[z - 1] as int].pair));
        } else if y < x {
            assert(pair_before(done[before[y] as int].pair, done[before[z - 1] as int].pair));
        } else {
            assert(pair_before(done[before[y - 1] as int].pair, done[before[z - 1] as int].pair));
        }
    }
    assert forall|y: int| 0 <= y < after.len() implies kept(
        next,
        rule,
        next[(#[trigger] after[y]) as int].pair,
    ) == Some(after[y] as int) by {
        if y < x {
            assert(pair_before(edges[before[y] as int].pair, e.pair));
        } else if y > x {
            assert(pair_before(e.pair, done[before[y - 1] as int].pair));
        }
    }
    assert forall|t: int| 0 <= t < next.len() implies exists|y: int|
        0 <= y < after.len() && next[(#[trigger] after[y]) as int].pair == (
        #[trigger] next[t]).pair by {
        if t < n {
            assert(done[t] == next[t]);
            let y = choose|y: int|
                0 <= y < before.len() && done[(#[trigger] before[y]) as int].pair == (
                #[trigger] done[t]).pair;
            if y < x {
                assert(next[after[y] as int].pair == next[t].pair);
            } else {
                assert(next[after[y + 1] as int].pair == next[t].pair);
            }
        } else {
            assert(next[after[x] as int].pair == next[t].pair);
        }
    }
}

/// The pairs of `s` ascend strictly.
pub open spec fn ascending_edges(s: Seq<Edge>) -> bool {
    forall|x: int, y: int|
        0 <= x < y < s.len() ==> pair_before((#[trigger] s[x]).pair, (#[trigger] s[y]).pair)
}

/// The sequence `s`, ascending by pair, with `e` at the place of its pair: in place of the
/// edge of `s` on that pair, if there is one.
pub open spec fn with_edge(s: Seq<Edge>, e: Edge) -> Seq<Edge>
    decreases s.len(),
{
    if s.len() == 0 {
        seq![e]
    } else if pair_before(s.last().pair, e.pair) {
        s.push(e)
    } else if s.last().pair == e.pair {
        s.drop_last().push(e)
    } else {
        with_edge(s.drop_last(), e).push(s.last())
    }
}

/// Putting an edge at the place of its pair keeps the pairs ascending, and changes
/// nothing on other pairs.
pub proof fn lemma_with_edge(s: Seq<Edge>, e: Edge)
    requires
        ascending_edges(s),
    ensures
        ascending_edges(with_edge(s, e)),
        with_edge(s, e).contains(e),
        forall|x: Edge| #[trigger] with_edge(s, e).contains(x) ==> x == e || (s.contains(x) && x.pair != e.pair),
        forall|x: Edge| #[trigger] s.contains(x) && x.pair != e.pair ==> with_edge(s, e).contains(x),
    decreases s.len(),
{
    let r = with_edge(s, e);
    if s.len() == 0 {
        assert(r[0] == e);
    } else if pair_before(s.last().pair, e.pair) {
        assert(r[s.len() as int] == e);
        assert forall|x: Edge| #[trigger] r.contains(x) implies x == e || (s.contains(x) && x.pair
            != e.pair) by {
            let a = choose|a: int| 0 <= a < r.len() && r[a] == x;
            if a < s.len() {
                assert(s[a] == x);
                if a < s.len() - 1 {
                    assert(pair_before(s[a].pair, s[s.len() - 1].pair));
                }
            }
        }
        assert forall|x: Edge| #[trigger] s.contains(x) && x.pair != e.pair implies r.contains(
            x,
        ) by {
            let a = choose|a: int| 0 <= a < s.len() && s[a] == x;
            assert(r[a] == x);
        }
        assert forall|x: int, y: int| 0 <= x < y < r.len() implies pair_before(
            (#[trigger] r[x]).pair,
            (#[trigger] r[y]).pair,
        ) by {
            if y == s.len() {
                if x < s.len() - 1 {
                    assert(pair_before(s[x].pair, s[s.len() - 1].pair));
                }
            } else {
                assert(pair_before(s[x].pair, s[y].pair));
            }
        }
    } else if s.last().pair == e.pair {
        let d = s.drop_last();
        assert(r[r.len() - 1] == e);
        assert forall|x: Edge| #[trigger] r.contains(x) implies x == e || (s.contains(x) && x.pair
            != e.pair) by {
            let a = choose|a: int| 0 <= a < r.len() && r[a] == x;
            if a < d.len() {
                assert(s[a] == x);
                assert(pair_before(s[a].pair, s[s.len() - 1].pair));
            }
        }
        assert forall|x: Edge| #[trigger] s.contains(x) && x.pair != e.pair implies r.contains(
            x,
        ) by {
            let a = choose|a: int| 0 <= a < s.len() && s[a] == x;
            assert(r[a] == x);
        }
        assert forall|x: int, y: int| 0 <= x < y < r.len() implies pair_before(
            (#[trigger] r[x]).pair,
            (#[trigger] r[y]).pair,
        ) by {
            assert(pair_before(s[x].pair, s[y].pair));
        }
    } else {
        let d = s.drop_last();
        let top = s.last();
        let w = with_edge(d, e);
        assert forall|x: int, y: int| 0 <= x < y < d.len() implies pair_before(
            (#[trigger] d[x]).pair,
            (#[trigger] d[y]).pair,
        ) by {
            assert(pair_before(s[x].pair, s[y].pair));
        }
        lemma_with_edge(d, e);
        assert(r == w.push(top));
        assert(r[r.len() - 1] == top);
        assert forall|x: Edge| d.contains(x) implies s.contains(x) && pair_before(
            x.pair,
            top.pair,
        ) by {
            let a = choose|a: int| 0 <= a < d.len() && d[a] == x;
            assert(s[a] == x);
            assert(pair_before(s[a].pair, s[s.len() - 1].pair));
        }
        assert forall|a: int| 0 <= a < w.len() implies pair_before((#[trigger] w[a]).pair, top.pair) by {
            assert(w.contains(w[a]));
        }
        assert forall|x: Edge| w.contains(x) implies r.contains(x) by {
            let a = choose|a: int| 0 <= a < w.len() && w[a] == x;
            assert(r[a] == x);
        }
        assert forall|x: Edge| #[trigger] r.contains(x) implies x == e || (s.contains(x) && x.pair
            != e.pair) by {
            let a = choose|a: int| 0 <= a < r.len() && r[a] == x;
            if a < w.len() {
                assert(w.contains(w[a]));
            } else {
                assert(s[s.len() - 1] == x);
            }
        }
        assert forall|x: Edge| #[trigger] s.contains(x) && x.pair != e.pair implies r.contains(
            x,
        ) by {
            let a = choose|a: int| 0 <= a < s.len() && s[a] == x;
            if a < d.len() {
                assert(d[a] == x);
                assert(d.contains(x));
                assert(w.contains(x));
            }
        }
        assert forall|x: int, y: int| 0 <= x < y < r.len() implies pair_before(
            (#[trigger] r[x]).pair,
            (#[trigger] r[y]).pair,
        ) by {
            if y < w.len() {
                assert(pair_before(w[x].pair, w[y].pair));
            }
        }
    }
}

/// The kept edges of `edges` in ascending order of their pairs, built edge by edge.
pub open spec fn kept_in_order(edges: Seq<Edge>, rule: Replace) -> Seq<Edge>
    decreases edges.len(),
{
    if edges.len() == 0 {
        Seq::empty()
    } else {
        with_edge(
            kept_in_order(edges.drop_last(), rule),
            edges[kept(edges, rule, edges.last().pair)->Some_0],
        )
    }
}

/// Every sequence of edges has its listing of kept edges.
pub proof fn lemma_cheapest_exists(edges: Seq<Edge>, rule: Replace)
    ensures
        lists_kept(cheapest(edges, rule), edges, rule),
        cheapest(edges, rule) == kept_in_order(edges, rule),
    decreases edges.len(),
{
    let r = kept_in_order(edges, rule);
    if edges.len() == 0 {
        assert(lists_kept(r, edges, rule));
    } else {
        let d = edges.drop_last();
        let n = edges.len() - 1;
        let last = edges[n];
        lemma_cheapest_exists(d, rule);
        let r0 = kept_in_order(d, rule);
        assert(edges.take(n) =~= d);
        assert(edges.take(n + 1) =~= edges);
        lemma_kept_steps(edges, rule, n);
        lemma_kept(edges, rule, last.pair);
        let k = kept(edges, rule, last.pair)->Some_0;
        let chosen = edges[k];
        lemma_with_edge(r0, chosen);
        assert forall|x: int| 0 <= x < r.len() implies is_kept(edges, rule, #[trigger] r[x]) by {
            assert(r.contains(r[x]));
            if r[x] != chosen {
                assert(r0.contains(r[x]));
                let y = choose|y: int| 0 <= y < r0.len() && r0[y] == r[x];
                assert(is_kept(d, rule, r0[y]));
                let kk = kept(d, rule, r[x].pair)->Some_0;
                assert(d[kk] == edges[kk]);
            }
        }
        assert forall|t: int| 0 <= t < edges.len() implies exists|x: int|
            0 <= x < r.len() && (#[trigger] r[x]).pair == (#[trigger] edges[t]).pair by {
            if edges[t].pair == last.pair {
                let x = choose|x: int| 0 <= x < r.len() && r[x] == chosen;
                assert(r[x].pair == edges[t].pair);
            } else {
                assert(d[t] == edges[t]);
                let y = choose|y: int|
                    0 <= y < r0.len() && (#[trigger] r0[y]).pair == (#[trigger] d[t]).pair;
                assert(r0.contains(r0[y]));
                assert(r.contains(r0[y]));
                let x = choose|x: int| 0 <= x < r.len() && r[x] == r0[y];
                assert(r[x].pair == edges[t].pair);
            }
        }
        assert(lists_kept(r, edges, rule));
    }
    lemma_lists_kept_unique(r, cheapest(edges, rule), edges, rule);
}

} // verus!
