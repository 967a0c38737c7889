//! The calculator on quotes between named currencies, with amounts in fixed point at a
//! scale of 10^12.

use best_path::best_path_calculator::floyd_warshall::algo::{
    Edge, LogEdge, Pair as VertexPair, PathCalculationError,
};
use best_path::best_path_calculator::floyd_warshall::calculator::{
    FloydWarshallCalculator, LogRate, ScaledPath, ScaledStep, SCALE,
};
use best_path::best_path_calculator::floyd_warshall::indexer::PositionIndexer;
use best_path::best_path_calculator::noop_calculator::NoBestPathCalculator;
use best_path::types::{CalculatorError, Pair, PathStep, PricePath, ProviderPair};
use best_path::BestPathCalculator;

const MOCK_PROVIDER: &str = "MOCK_PROVIDER";

/// The scale of the fixed-point amounts.
const PRECISION: f64 = SCALE as f64;

/// Two to the power of 52: the number of fixed-point units in one log-domain unit.
const UNITS: f64 = 4503599627370496.0;

/// The integer that stands for `rate`: it orders as the rates do.
fn rate_key(rate: f64) -> i64 {
    let bits = rate.to_bits() as i64;
    if bits < 0 {
        bits ^ i64::MAX
    } else {
        bits
    }
}

/// The rate that `key` stands for.
fn key_rate(key: i64) -> f64 {
    let bits = if key < 0 { key ^ i64::MAX } else { key };
    f64::from_bits(bits as u64)
}

/// What stands for the amount in the solver.
fn log_rate(amount: u128) -> LogRate {
    let rate = amount as f64 / PRECISION;
    LogRate {
        rate: rate_key(rate),
        log_cost: (-num_traits::Float::log2(rate) * UNITS).round() as i64,
    }
}

/// The whole calculation: the steps of the calculator, with the arithmetic on rates in
/// double precision between them.
fn calc_best_paths<C: Ord + Clone, P: Ord + Clone>(
    pairs_and_prices: &[(ProviderPair<C, P>, u128)],
) -> Result<Vec<(Pair<C>, PricePath<C, u128, P>)>, CalculatorError> {
    let amounts = FloydWarshallCalculator::amounts(pairs_and_prices)?;
    let rated: Vec<(ProviderPair<C, P>, LogRate)> = pairs_and_prices
        .iter()
        .zip(amounts)
        .map(|((pp, _), amount)| (pp.clone(), log_rate(amount)))
        .collect();
    let paths = FloydWarshallCalculator::best_paths(&rated)?;
    let scaled: Vec<(VertexPair, ScaledPath)> = paths
        .into_iter()
        .map(|(pair, path)| {
            let total_cost = path.edges.iter().fold(1.0, |acc, e| acc * key_rate(e.cost));
            let steps = path
                .edges
                .iter()
                .map(|e| ScaledStep {
                    pair: e.pair,
                    provider: e.provider,
                    cost: (key_rate(e.cost) * PRECISION) as u128,
                })
                .collect();
            (pair, ScaledPath { total_cost: (total_cost * PRECISION) as u128, steps })
        })
        .collect();
    FloydWarshallCalculator::price_paths(pairs_and_prices, &scaled)
}

fn quote(source: &str, target: &str, provider: &str, amount: u128) -> (ProviderPair<String, String>, u128) {
    (
        ProviderPair {
            pair: Pair { source: source.to_owned(), target: target.to_owned() },
            provider: provider.to_owned(),
        },
        amount,
    )
}

fn step(source: &str, target: &str, provider: &str, cost: u128) -> PathStep<String, u128, String> {
    PathStep {
        pair: Pair { source: source.to_owned(), target: target.to_owned() },
        provider: provider.to_owned(),
        cost,
    }
}

fn find<'a>(
    table: &'a [(Pair<String>, PricePath<String, u128, String>)],
    source: &str,
    target: &str,
) -> Option<&'a PricePath<String, u128, String>> {
    table.iter().find(|(p, _)| p.source == source && p.target == target).map(|(_, path)| path)
}

#[test]
fn test_real_life_graph() {
    let in_graph = vec![
        ("BTC".to_owned(), "USDT".to_owned(), MOCK_PROVIDER, 5997.42),
        ("USDT".to_owned(), "BTC".to_owned(), MOCK_PROVIDER, 0.00002777),
        ("ETH".to_owned(), "USDT".to_owned(), MOCK_PROVIDER, 2384.99),
        ("USDT".to_owned(), "ETH".to_owned(), MOCK_PROVIDER, 0.0004192),
        ("BNB".to_owned(), "USDT".to_owned(), MOCK_PROVIDER, 364.19),
        ("USDT".to_owned(), "BNB".to_owned(), MOCK_PROVIDER, 0.002745),
        ("DOT".to_owned(), "USDT".to_owned(), MOCK_PROVIDER, 17.43),
        ("USDT".to_owned(), "DOT".to_owned(), MOCK_PROVIDER, 0.05737),
        ("BTC".to_owned(), "ETH".to_owned(), MOCK_PROVIDER, 15.09),
        ("ETH".to_owned(), "BTC".to_owned(), MOCK_PROVIDER, 0.06626),
        ("ETH".to_owned(), "BNB".to_owned(), MOCK_PROVIDER, 6.548),
        ("BNB".to_owned(), "ETH".to_owned(), MOCK_PROVIDER, 0.1527),
    ]
    .into_iter()
    .map(|(source, target, provider, cost)| {
        (
            ProviderPair {
                pair: Pair {
                    source: source.as_str().as_bytes().to_vec(),
                    target: target.as_str().as_bytes().to_vec(),
                },
                provider,
            },
            (cost * PRECISION) as u128,
        )
    })
    .collect::<Vec<_>>();
    let res_out = calc_best_paths(&in_graph)
        .unwrap()
        .into_iter()
        .collect::<Vec<(_, _)>>()
        .into_iter()
        .map(|(p, pp)| {
            (
                String::from_utf8(p.source).unwrap(),
                String::from_utf8(p.target).unwrap(),
                pp.total_cost as f64 / PRECISION,
                pp.steps
                    .into_iter()
                    .map(|PathStep { pair: Pair { source, target }, provider, cost }| {
                        (
                            String::from_utf8(source).unwrap(),
                            String::from_utf8(target).unwrap(),
                            provider,
                            cost as f64 / PRECISION,
                        )
                    })
                    .collect::<Vec<(String, String, &str, f64)>>(),
            )
        })
        .collect::<Vec<(String, String, f64, Vec<(String, String, &str, f64)>)>>();
    assert_eq!(
        vec![
            ("BNB".to_owned(), "BNB".to_owned(), 1.0,                vec![]),
            ("BNB".to_owned(), "BTC".to_owned(), 0.010117902,        vec![("BNB".to_owned(), "ETH".to_owned(), MOCK_PROVIDER, 0.1527), ("ETH".to_owned(), "BTC".to_owned(), MOCK_PROVIDER, 0.06626)]),
            ("BNB".to_owned(), "DOT".to_owned(), 20.8935803,         vec![("BNB".to_owned(), "USDT".to_owned(), MOCK_PROVIDER, 364.19), ("USDT".to_owned(), "DOT".to_owned(), MOCK_PROVIDER, 0.05737)]),
            ("BNB".to_owned(), "ETH".to_owned(), 0.1527,             vec![("BNB".to_owned(), "ETH".to_owned(), MOCK_PROVIDER, 0.1527)]),
            ("BNB".to_owned(), "USDT".to_owned(), 364.19,            vec![("BNB".to_owned(), "USDT".to_owned(), MOCK_PROVIDER, 364.19)]),
            ("BTC".to_owned(), "BNB".to_owned(), 98.80932,           vec![("BTC".to_owned(), "ETH".to_owned(), MOCK_PROVIDER, 15.09), ("ETH".to_owned(), "BNB".to_owned(), MOCK_PROVIDER, 6.548)]),
            ("BTC".to_owned(), "BTC".to_owned(), 1.0,                vec![]),
            ("BTC".to_owned(), "DOT".to_owned(), 2064.717563366999,  vec![("BTC".to_owned(), "ETH".to_owned(), MOCK_PROVIDER, 15.09), ("ETH".to_owned(), "USDT".to_owned(), MOCK_PROVIDER, 2384.99), ("USDT".to_owned(), "DOT".to_owned(), MOCK_PROVIDER, 0.05737)]),
            ("BTC".to_owned(), "ETH".to_owned(), 15.09,              vec![("BTC".to_owned(), "ETH".to_owned(), MOCK_PROVIDER, 15.09)]),
            ("BTC".to_owned(), "USDT".to_owned(), 35989.49909999999, vec![("BTC".to_owned(), "ETH".to_owned(), MOCK_PROVIDER, 15.09), ("ETH".to_owned(), "USDT".to_owned(), MOCK_PROVIDER, 2384.99)]),
            ("DOT".to_owned(), "BNB".to_owned(), 0.04784535,         vec![("DOT".to_owned(), "USDT".to_owned(), MOCK_PROVIDER, 17.43), ("USDT".to_owned(), "BNB".to_owned(), MOCK_PROVIDER, 0.002745)]),
            ("DOT".to_owned(), "BTC".to_owned(), 0.000484139026,     vec![("DOT".to_owned(), "USDT".to_owned(), MOCK_PROVIDER, 17.43), ("USDT".to_owned(), "ETH".to_owned(), MOCK_PROVIDER, 0.0004192), ("ETH".to_owned(), "BTC".to_owned(), MOCK_PROVIDER, 0.06626)]),
            ("DOT".to_owned(), "DOT".to_owned(), 1.0,                vec![]),
            ("DOT".to_owned(), "ETH".to_owned(), 0.007306656,        vec![("DOT".to_owned(), "USDT".to_owned(), MOCK_PROVIDER, 17.43), ("USDT".to_owned(), "ETH".to_owned(), MOCK_PROVIDER, 0.0004192)]),
            ("DOT".to_owned(), "USDT".to_owned(), 17.43,             vec![("DOT".to_owned(), "USDT".to_owned(), MOCK_PROVIDER, 17.43)]),
            ("ETH".to_owned(), "BNB".to_owned(), 6.548,              vec![("ETH".to_owned(), "BNB".to_owned(), MOCK_PROVIDER, 6.548)]),
            ("ETH".to_owned(), "BTC".to_owned(), 0.06626,            vec![("ETH".to_owned(), "BTC".to_owned(), MOCK_PROVIDER, 0.06626)]),
            ("ETH".to_owned(), "DOT".to_owned(), 136.826876299999,   vec![("ETH".to_owned(), "USDT".to_owned(), MOCK_PROVIDER, 2384.99), ("USDT".to_owned(), "DOT".to_owned(), MOCK_PROVIDER, 0.05737)]),
            ("ETH".to_owned(), "ETH".to_owned(), 1.0,                vec![]),
            ("ETH".to_owned(), "USDT".to_owned(), 2384.99,           vec![("ETH".to_owned(), "USDT".to_owned(), MOCK_PROVIDER, 2384.99)]),
            ("USDT".to_owned(), "BNB".to_owned(), 0.002745,          vec![("USDT".to_owned(), "BNB".to_owned(), MOCK_PROVIDER, 0.002745)]),
            ("USDT".to_owned(), "BTC".to_owned(), 2.7776192e-5,      vec![("USDT".to_owned(), "ETH".to_owned(), MOCK_PROVIDER, 0.0004192), ("ETH".to_owned(), "BTC".to_owned(), MOCK_PROVIDER, 0.06626)]),
            ("USDT".to_owned(), "DOT".to_owned(), 0.05737,           vec![("USDT".to_owned(), "DOT".to_owned(), MOCK_PROVIDER, 0.05737)]),
            ("USDT".to_owned(), "ETH".to_owned(), 0.0004192,         vec![("USDT".to_owned(), "ETH".to_owned(), MOCK_PROVIDER, 0.0004192)]),
            ("USDT".to_owned(), "USDT".to_owned(), 1.0,              vec![])
        ],
        res_out
    );
}

#[test]
fn two_quotes_chain_into_one_path() {
    let in_graph = [
        quote("BNB", "USDT", "CRYPTO_COMPARE", 364_190_000_000_000),
        quote("USDT", "ETH", "COINGECKO", 2_745_000_000),
    ];
    let res = calc_best_paths(&in_graph).unwrap();
    assert_eq!(
        &PricePath {
            total_cost: 999_701_550_000_u128,
            steps: vec![
                step("BNB", "USDT", "CRYPTO_COMPARE", 364_190_000_000_000),
                step("USDT", "ETH", "COINGECKO", 2_745_000_000),
            ]
        },
        find(&res, "BNB", "ETH").unwrap()
    );
    assert!(find(&res, "ETH", "BNB").is_none());
}

#[test]
fn every_currency_has_its_self_pair_at_the_scale() {
    let in_graph = [
        quote("BNB", "USDT", "A", 364_190_000_000_000),
        quote("USDT", "ETH", "B", 2_745_000_000),
    ];
    let res = calc_best_paths(&in_graph).unwrap();
    for c in ["BNB", "ETH", "USDT"] {
        assert_eq!(
            &PricePath { total_cost: 1_000_000_000_000_u128, steps: vec![] },
            find(&res, c, c).unwrap()
        );
    }
    let pairs: Vec<(&str, &str)> =
        res.iter().map(|(p, _)| (p.source.as_str(), p.target.as_str())).collect();
    assert_eq!(
        vec![
            ("BNB", "BNB"),
            ("BNB", "ETH"),
            ("BNB", "USDT"),
            ("ETH", "ETH"),
            ("USDT", "ETH"),
            ("USDT", "USDT")
        ],
        pairs
    );
}

#[test]
fn two_calls_of_the_calculator_give_the_same_table() {
    let in_graph = [
        quote("BNB", "USDT", "A", 364_190_000_000_000),
        quote("USDT", "ETH", "B", 2_745_000_000),
        quote("ETH", "BNB", "B", 6_000_000_000_000),
    ];
    assert_eq!(calc_best_paths(&in_graph), calc_best_paths(&in_graph));
}

#[test]
fn cycle_of_quotes_above_one_is_the_negative_cycle_error() {
    let in_graph = [
        quote("A", "B", "P", 2_000_000_000_000),
        quote("B", "A", "P", 600_000_000_000),
    ];
    assert_eq!(Err(CalculatorError::NegativeCyclesError), calc_best_paths(&in_graph));
}

#[test]
fn of_two_providers_the_lower_quote_is_the_step() {
    let in_graph = [
        quote("A", "B", "DEAR", 3_000_000_000_000),
        quote("A", "B", "CHEAP", 2_000_000_000_000),
        quote("A", "B", "LATE", 2_000_000_000_000),
    ];
    let res = calc_best_paths(&in_graph).unwrap();
    assert_eq!(
        &PricePath {
            total_cost: 2_000_000_000_000_u128,
            steps: vec![step("A", "B", "CHEAP", 2_000_000_000_000)]
        },
        find(&res, "A", "B").unwrap()
    );
}

#[test]
fn amount_that_is_no_unsigned_integer_is_a_conversion_error() {
    let in_graph = [(
        ProviderPair { pair: Pair { source: 1_u32, target: 2_u32 }, provider: 7_u8 },
        -1_i128,
    )];
    assert_eq!(Err(CalculatorError::ConversionError), FloydWarshallCalculator::amounts(&in_graph));
    let fine = [
        (ProviderPair { pair: Pair { source: 1_u32, target: 2_u32 }, provider: 7_u8 }, 5_i128),
        (ProviderPair { pair: Pair { source: 2_u32, target: 1_u32 }, provider: 7_u8 }, 0_i128),
    ];
    assert_eq!(Ok(vec![5_u128, 0_u128]), FloydWarshallCalculator::amounts(&fine));
}

#[test]
fn cost_that_does_not_fit_the_amount_type_is_a_conversion_error() {
    let quotes = [(
        ProviderPair { pair: Pair { source: 1_u32, target: 2_u32 }, provider: 7_u8 },
        3_u8,
    )];
    let fits = [(
        VertexPair { source: 0, target: 1 },
        ScaledPath {
            total_cost: 200,
            steps: vec![ScaledStep { pair: VertexPair { source: 0, target: 1 }, provider: 0, cost: 200 }],
        },
    )];
    let table: Vec<(Pair<u32>, PricePath<u32, u8, u8>)> =
        FloydWarshallCalculator::price_paths(&quotes, &fits).unwrap();
    assert_eq!(
        vec![(
            Pair { source: 1, target: 2 },
            PricePath {
                total_cost: 200_u8,
                steps: vec![PathStep { pair: Pair { source: 1, target: 2 }, provider: 7, cost: 200 }]
            }
        )],
        table
    );
    let total_too_high = [(
        VertexPair { source: 0, target: 1 },
        ScaledPath { total_cost: 256, steps: vec![] },
    )];
    let r: Result<Vec<(Pair<u32>, PricePath<u32, u8, u8>)>, CalculatorError> =
        FloydWarshallCalculator::price_paths(&quotes, &total_too_high);
    assert_eq!(Err(CalculatorError::ConversionError), r);
    let step_too_high = [(
        VertexPair { source: 0, target: 1 },
        ScaledPath {
            total_cost: 1,
            steps: vec![ScaledStep { pair: VertexPair { source: 0, target: 1 }, provider: 0, cost: 256 }],
        },
    )];
    let r: Result<Vec<(Pair<u32>, PricePath<u32, u8, u8>)>, CalculatorError> =
        FloydWarshallCalculator::price_paths(&quotes, &step_too_high);
    assert_eq!(Err(CalculatorError::ConversionError), r);
}

#[test]
fn id_that_names_nothing_is_a_conversion_error() {
    let quotes = [(
        ProviderPair { pair: Pair { source: 1_u32, target: 2_u32 }, provider: 7_u8 },
        3_u8,
    )];
    for (source, target, provider) in [(2, 0, 0), (0, 2, 0), (0, 1, 1)] {
        let path = [(
            VertexPair { source: 0, target: 1 },
            ScaledPath {
                total_cost: 1,
                steps: vec![ScaledStep { pair: VertexPair { source, target }, provider, cost: 1 }],
            },
        )];
        let r: Result<Vec<(Pair<u32>, PricePath<u32, u8, u8>)>, CalculatorError> =
            FloydWarshallCalculator::price_paths(&quotes, &path);
        assert_eq!(Err(CalculatorError::ConversionError), r);
    }
    let pair_out_of_range =
        [(VertexPair { source: 0, target: 2 }, ScaledPath { total_cost: 1, steps: vec![] })];
    let r: Result<Vec<(Pair<u32>, PricePath<u32, u8, u8>)>, CalculatorError> =
        FloydWarshallCalculator::price_paths(&quotes, &pair_out_of_range);
    assert_eq!(Err(CalculatorError::ConversionError), r);
}

#[test]
fn graph_maps_identifiers_to_ids_in_ascending_order() {
    let rate = |r: i64| LogRate { rate: r, log_cost: -r };
    let quotes = [
        (ProviderPair { pair: Pair { source: "USDT", target: "BTC" }, provider: "Z" }, rate(1)),
        (ProviderPair { pair: Pair { source: "BTC", target: "USDT" }, provider: "Y" }, rate(2)),
        (ProviderPair { pair: Pair { source: "USDT", target: "ETH" }, provider: "Y" }, rate(3)),
        (ProviderPair { pair: Pair { source: "BTC", target: "ETH" }, provider: "Z" }, rate(4)),
    ];
    let edge = |source: usize, target: usize, provider: usize, r: i64| LogEdge {
        edge: Edge { pair: VertexPair { source, target }, provider, cost: r },
        log_cost: -r,
    };
    // BTC = 0, ETH = 1, USDT = 2; Y = 0, Z = 1. Edges come source by source, and for one
    // source in the order of the quotes.
    assert_eq!(
        vec![edge(0, 2, 0, 2), edge(0, 1, 1, 4), edge(2, 0, 1, 1), edge(2, 1, 0, 3)],
        FloydWarshallCalculator::graph(&quotes)
    );
}

#[test]
fn scale_is_ten_to_the_twelfth() {
    assert_eq!(1_000_000_000_000_u128, SCALE);
    assert_eq!(1_000_000_000_000.0, PRECISION);
}

#[test]
fn solver_error_becomes_the_error_of_the_calculator() {
    assert_eq!(
        CalculatorError::NegativeCyclesError,
        CalculatorError::from(PathCalculationError::NegativeCyclesError)
    );
}

#[test]
fn indexer_gives_ids_by_ascending_order_of_the_distinct_values() {
    let values = ["USDT", "BTC", "ETH", "BTC", "USDT"];
    let refs: Vec<&&str> = values.iter().collect();
    let indexer = PositionIndexer::new(&refs);
    assert_eq!(3, indexer.len());
    assert_eq!(vec![&"BTC", &"ETH", &"USDT"], indexer.iter());
    assert_eq!(0, indexer.by_val(&"BTC"));
    assert_eq!(1, indexer.by_val(&"ETH"));
    assert_eq!(2, indexer.by_val(&"USDT"));
    assert_eq!("BTC", indexer.by_ind(0));
    assert_eq!("ETH", indexer.by_ind(1));
    assert_eq!("USDT", indexer.by_ind(2));
}

#[test]
fn indexer_maps_every_value_to_its_id_and_back() {
    let values: Vec<u64> = vec![40, 7, 7, 1000, 3, 40, 0, 99];
    let refs: Vec<&u64> = values.iter().collect();
    let indexer = PositionIndexer::new(&refs);
    for v in &values {
        assert_eq!(*v, indexer.by_ind(indexer.by_val(v)));
    }
    for id in 0..indexer.len() {
        assert_eq!(id, indexer.by_val(&indexer.by_ind(id)));
    }
    let empty: Vec<&u64> = vec![];
    assert_eq!(0, PositionIndexer::new(&empty).len());
}

#[test]
fn pass_through_calculator_returns_each_quote_as_one_step() {
    let in_graph = [
        quote("USDT", "BTC", "P", 27),
        quote("BTC", "USDT", "Q", 5),
        quote("USDT", "BTC", "R", 28),
    ];
    let res = NoBestPathCalculator::calc_best_paths(&in_graph).unwrap();
    assert_eq!(
        vec![
            (
                Pair { source: "BTC".to_owned(), target: "USDT".to_owned() },
                PricePath { total_cost: 5_u128, steps: vec![step("BTC", "USDT", "Q", 5)] }
            ),
            (
                Pair { source: "USDT".to_owned(), target: "BTC".to_owned() },
                PricePath { total_cost: 28_u128, steps: vec![step("USDT", "BTC", "R", 28)] }
            ),
        ],
        res
    );
}
