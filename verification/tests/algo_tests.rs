//! The solver on the graph of four vertices
//!
//! ```text
//!         8            3
//!    0. *----------------* 1.
//!    * *                   |
//!  2 |  5 \                |
//!    |       \             |
//!    |          \          |
//!    |             \       |
//!  7 |                \    | 2
//!    *                   \ *
//!    3. *----------------- 2.
//!         1
//! ```
//!
//! whose cheapest totals are
//!
//! ```text
//!      0.  1.  2.  3.
//!  0.  0   3   5   6
//!  1.  5   0   2   3
//!  2.  3   6   0   1
//!  3.  2   5   7   0
//! ```
//!
//! and on small graphs of rates.

use best_path::best_path_calculator::floyd_warshall::algo::{
    deduplicate, floyd_warshall_shortest_paths, longest_paths_mult, shortest_paths,
    unique_cheapest_edges, Comparison, Edge, LogEdge, Pair, Path, PathCalculationError, Replace,
};
use core::cmp::Ordering;

/// Two to the power of 52: the number of fixed-point units in one.
const UNITS: f64 = 4503599627370496.0;

/// The fixed-point cost that stands for `cost`.
fn fixed(cost: f64) -> i64 {
    (cost * UNITS).round() as i64
}

/// The cost that the fixed-point `total` stands for.
fn unfixed(total: i128) -> f64 {
    total as f64 / UNITS
}

/// The integer that stands for `rate`: it orders as the rates do.
fn rate_key(rate: f64) -> i64 {
    let bits = rate.to_bits() as i64;
    if bits < 0 {
        bits ^ i64::MAX
    } else {
        bits
    }
}

/// The rate that `key` stands for.
fn key_rate(key: i64) -> f64 {
    let bits = if key < 0 { key ^ i64::MAX } else { key };
    f64::from_bits(bits as u64)
}

/// The log-domain cost of `rate`.
fn log_cost(rate: f64) -> i64 {
    fixed(-num_traits::Float::log2(rate))
}

fn edge(source: usize, target: usize, provider: usize, cost: f64) -> Edge {
    Edge { pair: Pair { source, target }, provider, cost: fixed(cost) }
}

fn rated(source: usize, target: usize, provider: usize, rate: f64) -> LogEdge {
    LogEdge {
        edge: Edge { pair: Pair { source, target }, provider, cost: rate_key(rate) },
        log_cost: log_cost(rate),
    }
}

/// A path of rates: the product of the rates and the hops.
#[derive(Debug, PartialEq)]
struct RatePath {
    total_cost: f64,
    edges: Vec<(usize, usize, usize, f64)>,
}

/// The paths of the highest compounded rate, with each total the running product of the
/// hops' rates.
fn longest(edges: &[LogEdge]) -> Result<Vec<(Pair, RatePath)>, PathCalculationError> {
    let found = longest_paths_mult(edges)?;
    Ok(found
        .into_iter()
        .map(|(pair, path)| {
            let hops: Vec<(usize, usize, usize, f64)> = path
                .edges
                .iter()
                .map(|e| (e.pair.source, e.pair.target, e.provider, key_rate(e.cost)))
                .collect();
            let total_cost = hops.iter().fold(1.0, |acc, h| acc * h.3);
            (pair, RatePath { total_cost, edges: hops })
        })
        .collect())
}

fn get<'a>(table: &'a [(Pair, Path)], source: usize, target: usize) -> Option<&'a Path> {
    table.iter().find(|(p, _)| p.source == source && p.target == target).map(|(_, path)| path)
}

fn four_vertex_edges(two_to_zero: f64, ignored: f64) -> Vec<Edge> {
    vec![
        edge(0, 1, 1, 3.0),
        edge(0, 3, 1, 7.0),
        edge(0, 3, 10, ignored),
        edge(1, 0, 1, 8.0),
        edge(1, 2, 1, 2.0),
        edge(2, 0, 1, two_to_zero),
        edge(2, 3, 1, 1.0),
        edge(3, 0, 1, 2.0),
    ]
}

#[test]
fn test_unique_edges() {
    let set = unique_cheapest_edges(
        &vec![edge(1, 2, 3, 1.0), edge(1, 2, 33, 10.0), edge(1, 2, 333, 5.0)],
        Ordering::Less,
    );

    assert_eq!(1, set.len());
    assert_eq!(fixed(10.0), set.iter().next().unwrap().cost);
}

#[test]
fn test_simple() {
    let edges = vec![
        rated(0, 1, 1, 2.0),
        rated(1, 0, 1, 0.5),
        rated(1, 2, 1, 4.0),
        rated(2, 1, 1, 0.25),
    ];
    let res = longest(&edges).unwrap();
    assert_eq!(
        res,
        vec![
            (Pair { source: 0, target: 0 }, RatePath { total_cost: 1.0, edges: vec![] }),
            (Pair { source: 0, target: 1 }, RatePath { total_cost: 2.0, edges: vec![(0, 1, 1, 2.0)] }),
            (
                Pair { source: 0, target: 2 },
                RatePath { total_cost: 8.0, edges: vec![(0, 1, 1, 2.0), (1, 2, 1, 4.0)] }
            ),
            (Pair { source: 1, target: 0 }, RatePath { total_cost: 0.5, edges: vec![(1, 0, 1, 0.5)] }),
            (Pair { source: 1, target: 1 }, RatePath { total_cost: 1.0, edges: vec![] }),
            (Pair { source: 1, target: 2 }, RatePath { total_cost: 4.0, edges: vec![(1, 2, 1, 4.0)] }),
            (
                Pair { source: 2, target: 0 },
                RatePath { total_cost: 0.125, edges: vec![(2, 1, 1, 0.25), (1, 0, 1, 0.5)] }
            ),
            (Pair { source: 2, target: 1 }, RatePath { total_cost: 0.25, edges: vec![(2, 1, 1, 0.25)] }),
            (Pair { source: 2, target: 2 }, RatePath { total_cost: 1.0, edges: vec![] }),
        ],
    );
}

#[test]
fn test_youtube() {
    let edges = four_vertex_edges(5.0, 6.5);
    let res = shortest_paths(&edges).unwrap();
    let costs = (0_usize..=3)
        .map(|source| {
            (0_usize..=3)
                .map(|target| get(&res, source, target).map(|p| unfixed(p.total_cost)))
                .collect::<Vec<_>>()
        })
        .collect::<Vec<_>>();
    assert_eq!(
        vec![
            vec![Some(0.0), Some(3.0), Some(5.0), Some(6.0)],
            vec![Some(5.0), Some(0.0), Some(2.0), Some(3.0)],
            vec![Some(3.0), Some(6.0), Some(0.0), Some(1.0)],
            vec![Some(2.0), Some(5.0), Some(7.0), Some(0.0)],
        ],
        costs
    );
    assert_eq!(
        vec![edge(0, 1, 1, 3.0), edge(1, 2, 1, 2.0), edge(2, 3, 1, 1.0)],
        get(&res, 0, 3).unwrap().edges
    );
    assert_eq!(vec![edge(3, 0, 1, 2.0)], get(&res, 3, 0).unwrap().edges);
}

#[test]
fn test_youtube_negative_cycle() {
    let edges = four_vertex_edges(-6.0, 6.0);
    assert!(shortest_paths(&edges).is_err());
}

/// A few checks that floats compare as the conversions above rely on.
#[test]
fn test_f64() {
    assert!(f64::MAX > 1.0);
    assert!(-f64::MAX < 1.0);
    assert!(!(f64::MAX > f64::MAX + 1.0)); // neither > or < than MAX
    assert!(!(f64::MAX < f64::MAX + 1.0));
    assert_eq!(f64::MAX, f64::MAX + 1.0);
    assert_eq!(f64::MAX, f64::MAX - 1.0);
    assert!(!(f64::MAX == 8.0 + 7.0));
    assert!(f64::MAX != 8.0 + 7.0);
    assert!(f64::MAX > 8.0 + 7.0);
    assert!(!(f64::MAX <= 8.0 + 7.0));

    let max_u128 = u128::MAX;
    let max_u128_as_f64 = (max_u128 as f64) * 10.0 + 10.0;
    let max_u128_as_f64_as_u128 = max_u128_as_f64 as u128;
    assert_eq!(max_u128, max_u128_as_f64_as_u128);
}

#[test]
fn negative_cycle_is_the_error_of_the_solver() {
    let edges = four_vertex_edges(-6.0, 6.0);
    assert_eq!(Err(PathCalculationError::NegativeCyclesError), shortest_paths(&edges));
    assert_eq!(
        Err(PathCalculationError::NegativeCyclesError),
        floyd_warshall_shortest_paths(&edges)
    );
}

#[test]
fn rates_that_compound_to_more_than_one_fail() {
    let edges = vec![rated(0, 1, 1, 2.0), rated(1, 0, 1, 0.75)];
    assert_eq!(Err(PathCalculationError::NegativeCyclesError), longest(&edges));
    let fair = vec![rated(0, 1, 1, 2.0), rated(1, 0, 1, 0.5)];
    assert!(longest(&fair).is_ok());
}

#[test]
fn additive_dedup_keeps_the_first_edge_of_the_highest_cost() {
    let edges = vec![
        edge(1, 2, 3, 1.0),
        edge(1, 2, 33, 10.0),
        edge(1, 2, 333, 5.0),
        edge(1, 2, 3333, 10.0),
    ];
    let kept = deduplicate(&edges, Replace::When(Comparison::Less));
    assert_eq!(vec![edge(1, 2, 33, 10.0)], kept);
    let by_ordering = unique_cheapest_edges(&edges, Ordering::Less);
    assert_eq!(kept, by_ordering);
}

#[test]
fn multiplicative_dedup_keeps_the_first_edge_of_the_lowest_cost() {
    let edges = vec![
        edge(1, 2, 3, 5.0),
        edge(1, 2, 33, 1.0),
        edge(1, 2, 333, 10.0),
        edge(1, 2, 3333, 1.0),
    ];
    let kept = unique_cheapest_edges(&edges, Ordering::Greater);
    assert_eq!(vec![edge(1, 2, 33, 1.0)], kept);
}

#[test]
fn dedup_on_equal_replaces_only_an_edge_of_the_same_cost() {
    let edges = vec![edge(1, 2, 3, 5.0), edge(1, 2, 33, 1.0), edge(1, 2, 333, 5.0)];
    assert_eq!(vec![edge(1, 2, 333, 5.0)], unique_cheapest_edges(&edges, Ordering::Equal));
}

#[test]
fn dedup_always_keeps_the_last_edge() {
    let edges = vec![edge(1, 2, 3, 5.0), edge(1, 2, 33, 1.0), edge(1, 2, 333, 3.0)];
    assert_eq!(vec![edge(1, 2, 333, 3.0)], deduplicate(&edges, Replace::Always));
}

#[test]
fn dedup_lists_pairs_in_ascending_order() {
    let edges = vec![
        edge(2, 1, 1, 1.0),
        edge(0, 5, 1, 1.0),
        edge(2, 0, 1, 1.0),
        edge(0, 5, 2, 4.0),
        edge(0, 1, 1, 1.0),
    ];
    let kept = deduplicate(&edges, Replace::When(Comparison::Less));
    assert_eq!(
        vec![edge(0, 1, 1, 1.0), edge(0, 5, 2, 4.0), edge(2, 0, 1, 1.0), edge(2, 1, 1, 1.0)],
        kept
    );
}

#[test]
fn paths_of_the_multiplicative_solver_use_the_lowest_parallel_rate() {
    let edges = vec![rated(0, 1, 7, 3.0), rated(0, 1, 8, 2.0), rated(1, 2, 7, 4.0)];
    let res = longest(&edges).unwrap();
    let zero_to_two = res.iter().find(|(p, _)| p.source == 0 && p.target == 2).unwrap();
    assert_eq!(
        RatePath { total_cost: 8.0, edges: vec![(0, 1, 8, 2.0), (1, 2, 7, 4.0)] },
        zero_to_two.1
    );
}

#[test]
fn table_has_every_reachable_pair_and_no_other() {
    // 0 -> 1 -> 2, and 3 -> 0; nothing leads to 3.
    let edges = vec![edge(0, 1, 1, 1.0), edge(1, 2, 1, 1.0), edge(3, 0, 1, 1.0)];
    let res = shortest_paths(&edges).unwrap();
    let pairs: Vec<(usize, usize)> = res.iter().map(|(p, _)| (p.source, p.target)).collect();
    assert_eq!(
        vec![(0, 0), (0, 1), (0, 2), (1, 1), (1, 2), (2, 2), (3, 0), (3, 1), (3, 2), (3, 3)],
        pairs
    );
    for v in 0..4 {
        let own = get(&res, v, v).unwrap();
        assert_eq!(0, own.total_cost);
        assert!(own.edges.is_empty());
    }
    assert_eq!(3.0, unfixed(get(&res, 3, 2).unwrap().total_cost));
}

#[test]
fn no_entry_can_be_improved_through_a_third_vertex() {
    let res = shortest_paths(&four_vertex_edges(5.0, 6.5)).unwrap();
    for i in 0..4 {
        for j in 0..4 {
            for k in 0..4 {
                let ij = get(&res, i, j).unwrap().total_cost;
                let ik = get(&res, i, k).unwrap().total_cost;
                let kj = get(&res, k, j).unwrap().total_cost;
                assert!(ij <= ik + kj);
            }
        }
    }
}

#[test]
fn two_calls_give_the_same_table() {
    let edges = four_vertex_edges(5.0, 6.5);
    assert_eq!(shortest_paths(&edges), shortest_paths(&edges));
    let rates = vec![rated(0, 1, 1, 2.0), rated(1, 0, 1, 0.5), rated(1, 2, 1, 4.0)];
    assert_eq!(longest_paths_mult(&rates), longest_paths_mult(&rates));
}

#[test]
fn equal_cost_alternative_does_not_replace_the_path_found_first() {
    // 0 -> 2 directly costs what 0 -> 1 -> 2 costs: the direct edge stays.
    let edges = vec![edge(0, 1, 1, 1.0), edge(1, 2, 1, 1.0), edge(0, 2, 1, 2.0)];
    let res = shortest_paths(&edges).unwrap();
    assert_eq!(vec![edge(0, 2, 1, 2.0)], get(&res, 0, 2).unwrap().edges);
}

#[test]
fn edge_from_a_vertex_to_itself_seeds_its_self_pair() {
    let edges = vec![edge(0, 0, 1, 2.0), edge(0, 1, 1, 1.0)];
    let res = floyd_warshall_shortest_paths(&edges).unwrap();
    assert_eq!(vec![edge(0, 0, 1, 2.0)], get(&res, 0, 0).unwrap().edges);
    assert_eq!(fixed(2.0) as i128, get(&res, 0, 0).unwrap().total_cost);
    assert!(get(&res, 1, 1).unwrap().edges.is_empty());
}

#[test]
fn the_last_of_parallel_edges_seeds_the_solver() {
    let edges = vec![edge(0, 1, 1, 1.0), edge(0, 1, 2, 3.0)];
    let res = floyd_warshall_shortest_paths(&edges).unwrap();
    assert_eq!(vec![edge(0, 1, 2, 3.0)], get(&res, 0, 1).unwrap().edges);
}

#[test]
fn no_edges_give_an_empty_table() {
    assert_eq!(Ok(vec![]), shortest_paths(&[]));
    assert_eq!(Ok(vec![]), longest_paths_mult(&[]));
}

#[test]
fn extreme_costs_do_not_overflow() {
    let edges = vec![
        Edge { pair: Pair { source: 0, target: 1 }, provider: 1, cost: i64::MAX },
        Edge { pair: Pair { source: 1, target: 2 }, provider: 1, cost: i64::MAX },
        Edge { pair: Pair { source: 2, target: 3 }, provider: 1, cost: i64::MIN },
    ];
    let res = shortest_paths(&edges).unwrap();
    assert_eq!(2 * (i64::MAX as i128), get(&res, 0, 2).unwrap().total_cost);
    assert_eq!(2 * (i64::MAX as i128) + (i64::MIN as i128), get(&res, 0, 3).unwrap().total_cost);
}

#[test]
fn path_add_extends_the_hops_and_the_total() {
    let mut path = Path { total_cost: 0, edges: vec![] };
    path.add(&edge(0, 1, 1, 3.0));
    path.add(&edge(1, 2, 1, -1.0));
    assert_eq!(
        Path {
            total_cost: fixed(2.0) as i128,
            edges: vec![edge(0, 1, 1, 3.0), edge(1, 2, 1, -1.0)]
        },
        path
    );
}

#[test]
fn edges_order_by_pair_then_provider_then_cost() {
    let mut edges = vec![
        edge(1, 0, 1, 1.0),
        edge(0, 2, 2, 1.0),
        edge(0, 2, 1, 5.0),
        edge(0, 2, 1, 4.0),
        edge(0, 1, 9, 9.0),
    ];
    edges.sort();
    assert_eq!(
        vec![
            edge(0, 1, 9, 9.0),
            edge(0, 2, 1, 4.0),
            edge(0, 2, 1, 5.0),
            edge(0, 2, 2, 1.0),
            edge(1, 0, 1, 1.0),
        ],
        edges
    );
}
