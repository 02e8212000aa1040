use forex_arbitrage::builder::{construct_from_table, GraphBuilder};
use forex_arbitrage::cost_graph::{CostGraph, GraphError, MAX_VERTICES};
use forex_arbitrage::detect::{detect_any_cycle, detect_cycle};
use forex_arbitrage::options::{ConfigError, Opt};
use forex_arbitrage::profit::cycle_rates;

const SCALE: f64 = 1_000_000_000.0;

fn cost_of(rate: f64) -> i64 {
    (-rate.ln() * SCALE).round() as i64
}

/// Runs a construction against an in-memory rate table, returning the builder and the
/// order in which currencies were looked up.
fn build(table: &[(&str, Vec<(&str, f64)>)], base: &str) -> (GraphBuilder<f64>, Vec<String>) {
    let mut b: GraphBuilder<f64> = GraphBuilder::new(base.to_string());
    let mut order = Vec::new();
    while let Some(cur) = b.next_currency() {
        let entry = table.iter().find(|(c, _)| *c == cur).expect("currency in table");
        let rates: Vec<(String, f64)> = entry.1.iter().map(|(t, r)| (t.to_string(), *r)).collect();
        order.push(cur);
        b.record(&rates);
    }
    (b, order)
}

fn cost_graph_of(b: &GraphBuilder<f64>) -> CostGraph {
    let n = b.vertex_count();
    let mut edges = Vec::new();
    for u in 0..n {
        for &(v, rate) in b.rates_of(u).unwrap() {
            edges.push((u, v, cost_of(rate)));
        }
    }
    CostGraph::from_edges(n, &edges).unwrap()
}

fn index_of(b: &GraphBuilder<f64>, code: &str) -> usize {
    (0..b.vertex_count()).find(|&i| b.code(i) == code).unwrap()
}

fn is_rotation_of(cycle: &[usize], expected: &[usize]) -> bool {
    let c = &cycle[..cycle.len() - 1];
    let e = &expected[..expected.len() - 1];
    c.len() == e.len() && (0..c.len()).any(|s| (0..c.len()).all(|i| c[(s + i) % c.len()] == e[i]))
}

fn three_cycle_table() -> Vec<(&'static str, Vec<(&'static str, f64)>)> {
    vec![
        ("D", vec![("A", 1.0)]),
        ("A", vec![("B", 1.05)]),
        ("B", vec![("C", 1.02)]),
        ("C", vec![("A", 0.97)]),
    ]
}

#[test]
fn verify_rejects_both_files() {
    let opt = Opt { graph_file: Some("g.json".to_string()), save_file: Some("s.json".to_string()) };
    assert_eq!(opt.verify(), Err(ConfigError::FileConflict));
}

#[test]
fn verify_accepts_one_or_no_file() {
    let load = Opt { graph_file: Some("g.json".to_string()), save_file: None };
    let save = Opt { graph_file: None, save_file: Some("s.json".to_string()) };
    let neither = Opt { graph_file: None, save_file: None };
    assert_eq!(load.verify(), Ok(()));
    assert_eq!(save.verify(), Ok(()));
    assert_eq!(neither.verify(), Ok(()));
}

#[test]
fn from_edges_rejects_unknown_vertex() {
    assert_eq!(CostGraph::from_edges(2, &vec![(0, 2, 5)]).err(), Some(GraphError::UnknownVertex));
}

#[test]
fn from_edges_rejects_too_many_vertices() {
    assert_eq!(CostGraph::from_edges(MAX_VERTICES + 1, &vec![]).err(), Some(GraphError::TooManyVertices));
}

#[test]
fn from_edges_later_edge_replaces_earlier() {
    let g = CostGraph::from_edges(3, &vec![(0, 1, 5), (1, 2, -3), (0, 1, 7)]).unwrap();
    assert_eq!(g.vertex_count(), 3);
    assert_eq!(g.cost(0, 1), Some(7));
    assert_eq!(g.cost(1, 2), Some(-3));
    assert_eq!(g.cost(2, 0), None);
}

#[test]
fn three_cycle_found_from_outside_vertex_and_profitable() {
    let table = three_cycle_table();
    let (b, _) = build(&table, "D");
    let g = cost_graph_of(&b);
    let (a, bb, c, d) = (index_of(&b, "A"), index_of(&b, "B"), index_of(&b, "C"), index_of(&b, "D"));
    let cycle = detect_cycle(&g, d).expect("a cycle");
    assert!(is_rotation_of(&cycle, &[a, bb, c, a]));
    let rates = cycle_rates(&b, &cycle).unwrap();
    let gain: f64 = rates.iter().product();
    assert!((gain - 1.05 * 1.02 * 0.97).abs() < 1e-9);
    assert!((gain - 1.0389).abs() < 1e-4);
    assert!(gain > 1.0);
}

#[test]
fn three_cycle_walk_from_start_on_cycle_extracts_nothing() {
    // From a start vertex that lies on the cycle, the predecessor walk reaches the start
    // before it closes a cycle, so this search reports nothing.
    let table = three_cycle_table();
    let (b, _) = build(&table, "D");
    let g = cost_graph_of(&b);
    assert_eq!(detect_cycle(&g, index_of(&b, "A")), None);
}

#[test]
fn no_negative_cycle_detects_nothing_anywhere() {
    let table = vec![
        ("USD", vec![("EUR", 0.9), ("JPY", 110.0)]),
        ("EUR", vec![("USD", 1.1), ("JPY", 120.0)]),
        ("JPY", vec![("USD", 0.009), ("EUR", 0.008)]),
    ];
    let (b, _) = build(&table, "USD");
    let g = cost_graph_of(&b);
    let found = detect_any_cycle(&g);
    assert_eq!(found.len(), 3);
    assert!(found.iter().all(|f| f.is_none()));
}

#[test]
fn unit_self_loop_and_balanced_pair_not_reported() {
    let table = vec![("A", vec![("A", 1.0), ("B", 2.0)]), ("B", vec![("A", 0.5)])];
    let (b, _) = build(&table, "A");
    let g = cost_graph_of(&b);
    assert_eq!(g.cost(0, 0), Some(0));
    let found = detect_any_cycle(&g);
    assert!(found.iter().all(|f| f.is_none()));
}

#[test]
fn negative_self_loop_is_a_cycle() {
    let g = CostGraph::from_edges(2, &vec![(0, 1, 4), (1, 1, -1)]).unwrap();
    assert_eq!(detect_cycle(&g, 0), Some(vec![1, 1]));
    let all = detect_any_cycle(&g);
    assert_eq!(all[0], Some(vec![1, 1]));
    // from vertex 1 itself the walk stops at the start
    assert_eq!(all[1], None);
}

#[test]
fn detect_unreachable_cycle_not_found() {
    let g = CostGraph::from_edges(3, &vec![(1, 2, -5), (2, 1, 1)]).unwrap();
    assert_eq!(detect_cycle(&g, 0), None);
    assert_eq!(detect_cycle(&g, 1), None);
}

#[test]
fn construct_closed_universe_from_every_base() {
    let table = vec![
        ("USD", vec![("EUR", 0.9), ("GBP", 0.8)]),
        ("EUR", vec![("USD", 1.1), ("CHF", 1.05)]),
        ("GBP", vec![("EUR", 1.12)]),
        ("CHF", vec![("USD", 1.0), ("GBP", 0.85)]),
    ];
    for base in ["USD", "EUR", "GBP", "CHF"] {
        let (b, order) = build(&table, base);
        let mut codes: Vec<String> = (0..b.vertex_count()).map(|i| b.code(i).clone()).collect();
        codes.sort();
        assert_eq!(codes, vec!["CHF", "EUR", "GBP", "USD"]);
        let mut looked = order.clone();
        looked.sort();
        looked.dedup();
        assert_eq!(looked.len(), order.len(), "a currency was looked up twice");
        assert_eq!(order.len(), 4);
        assert_eq!(order[0], base);
        assert_eq!(b.next_currency(), None);
    }
}

#[test]
fn construct_stops_at_reachable_currencies() {
    let table = vec![
        ("USD", vec![("EUR", 0.9)]),
        ("EUR", vec![("USD", 1.1)]),
        ("JPY", vec![("USD", 0.009)]),
    ];
    let (b, order) = build(&table, "USD");
    assert_eq!(b.vertex_count(), 2);
    assert_eq!(order, vec!["USD", "EUR"]);
}

#[test]
fn record_keeps_rates_and_queues_new_codes() {
    let mut b: GraphBuilder<f64> = GraphBuilder::new("USD".to_string());
    assert_eq!(b.next_currency(), Some("USD".to_string()));
    b.record(&vec![("EUR".to_string(), 0.9), ("USD".to_string(), 1.0), ("GBP".to_string(), 0.8)]);
    assert_eq!(b.vertex_count(), 3);
    assert_eq!(b.code(1), "EUR");
    assert_eq!(b.code(2), "GBP");
    assert_eq!(b.rates_of(0).unwrap(), &vec![(1, 0.9), (0, 1.0), (2, 0.8)]);
    assert!(b.rates_of(1).is_none());
    assert_eq!(b.next_currency(), Some("GBP".to_string()));
    b.record(&vec![("EUR".to_string(), 1.12)]);
    assert_eq!(b.vertex_count(), 3);
    assert_eq!(b.next_currency(), Some("EUR".to_string()));
    b.record(&vec![]);
    assert_eq!(b.next_currency(), None);
}

#[test]
fn cycle_rates_missing_step_is_none() {
    let table = vec![("A", vec![("B", 2.0)]), ("B", vec![("A", 0.4)])];
    let (b, _) = build(&table, "A");
    assert_eq!(cycle_rates(&b, &vec![0, 1, 0]), Some(vec![2.0, 0.4]));
    assert_eq!(cycle_rates(&b, &vec![0, 0]), None);
    assert_eq!(cycle_rates(&b, &vec![0, 5]), None);
    assert_eq!(cycle_rates(&b, &vec![]), Some(vec![]));
}

#[test]
fn cycle_behind_start_is_returned() {
    // S -> A (0), A -> B (-10), B -> A (5): the cycle A, B, A costs -5 and S is not on it.
    let g = CostGraph::from_edges(3, &vec![(0, 1, 0), (1, 2, -10), (2, 1, 5)]).unwrap();
    let found = detect_cycle(&g, 0).expect("a cycle");
    assert!(found == vec![1, 2, 1] || found == vec![2, 1, 2]);
    let all = detect_any_cycle(&g);
    for v in 0..3 {
        assert_eq!(all[v], detect_cycle(&g, v));
    }
}

fn owned_table(table: &[(&str, Vec<(&str, f64)>)]) -> Vec<(String, Vec<(String, f64)>)> {
    table
        .iter()
        .map(|(c, rs)| (c.to_string(), rs.iter().map(|(t, r)| (t.to_string(), *r)).collect()))
        .collect()
}

fn graph_as_map(b: &GraphBuilder<f64>) -> Vec<(String, Vec<(String, f64)>)> {
    let mut out: Vec<(String, Vec<(String, f64)>)> = (0..b.vertex_count())
        .map(|u| {
            let mut row: Vec<(String, f64)> =
                b.rates_of(u).unwrap().iter().map(|&(v, r)| (b.code(v).clone(), r)).collect();
            row.sort_by(|x, y| x.0.cmp(&y.0));
            (b.code(u).clone(), row)
        })
        .collect();
    out.sort_by(|x, y| x.0.cmp(&y.0));
    out
}

#[test]
fn construct_from_table_same_graph_from_every_base() {
    let table = owned_table(&[
        ("USD", vec![("EUR", 0.9), ("GBP", 0.8)]),
        ("EUR", vec![("USD", 1.1), ("CHF", 1.05)]),
        ("GBP", vec![("EUR", 1.12), ("USD", 1.25)]),
        ("CHF", vec![("USD", 1.0), ("GBP", 0.85)]),
    ]);
    let first = graph_as_map(&construct_from_table(&table, "USD".to_string()).unwrap());
    let mut expected = table.clone();
    for e in expected.iter_mut() {
        e.1.sort_by(|x, y| x.0.cmp(&y.0));
    }
    expected.sort_by(|x, y| x.0.cmp(&y.0));
    assert_eq!(first, expected);
    for base in ["EUR", "GBP", "CHF"] {
        let b = construct_from_table(&table, base.to_string()).unwrap();
        assert_eq!(b.code(0), base);
        assert_eq!(b.next_currency(), None);
        assert_eq!(graph_as_map(&b), first);
    }
}

#[test]
fn construct_from_table_reports_missing_code() {
    let table = owned_table(&[("USD", vec![("EUR", 0.9)]), ("EUR", vec![("JPY", 120.0)])]);
    assert_eq!(construct_from_table(&table, "USD".to_string()).err(), Some("JPY".to_string()));
    assert_eq!(construct_from_table(&table, "XYZ".to_string()).err(), Some("XYZ".to_string()));
}

#[test]
fn construct_from_table_two_currencies() {
    let table = owned_table(&[("USD", vec![("EUR", 0.9)]), ("EUR", vec![("USD", 1.1)])]);
    let b = construct_from_table(&table, "USD".to_string()).unwrap();
    assert_eq!(
        graph_as_map(&b),
        vec![
            ("EUR".to_string(), vec![("USD".to_string(), 1.1)]),
            ("USD".to_string(), vec![("EUR".to_string(), 0.9)]),
        ]
    );
    assert_eq!(b.code(0), "USD");
    assert_eq!(b.code(1), "EUR");
}

#[test]
fn construct_from_table_self_loop_looked_up_once() {
    let table = owned_table(&[("USD", vec![("USD", 1.0)])]);
    let b = construct_from_table(&table, "USD".to_string()).unwrap();
    assert_eq!(b.vertex_count(), 1);
    assert_eq!(b.rates_of(0).unwrap(), &vec![(0, 1.0)]);
}
