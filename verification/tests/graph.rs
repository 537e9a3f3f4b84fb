use std::collections::HashMap;

use netex_graph::cluster;
use netex_graph::cluster::Nodes;
use netex_graph::graph;
use netex_graph::graph::Edge;
use netex_graph::graph::EdgeMap;
use netex_graph::graph::Graph;
use netex_graph::graph::Journey;
use netex_graph::graph::StopNode;
use netex_graph::graph::Timetable;
use netex_graph::graph::WalkEdge;
use netex_graph::graph::WalkOutcome;
use netex_graph::parser::NetexData;
use netex_graph::parser::UicOperatingPeriod;

fn journey(departure: u16, arrival: u16, op: usize) -> Journey {
    Journey {
        departure,
        arrival,
        transport_mode: String::from("bus"),
        operating_period: op,
        line: String::from("L"),
        controller: String::from("C"),
    }
}

fn edge_with(journeys: Vec<Journey>) -> Edge {
    Edge {
        start_node: 0,
        end_node: 1,
        timetable: Timetable { journeys, periods: Vec::new() },
        walk_seconds: 0xFFFF,
    }
}

#[test]
fn compute_minutes_cross_midnight() {
    // departure 23:55 (1435), arrival 00:10 (10): 10 + 1440 - 1435
    assert_eq!(graph::compute_minutes(1435, 10), 15);
    assert_eq!(graph::compute_minutes(480, 485), 5);
    assert_eq!(graph::compute_minutes(600, 600), 0);
}

#[test]
fn speed_filter_drops_impossible_journeys() {
    // 10 km in 1 minute: 600 km/h and not under 3 km, so dropped
    let mut edge = edge_with(vec![journey(600, 601, 0)]);
    graph::filter_journeys(&mut edge, 10_000_000);
    assert_eq!(edge.timetable.journeys.len(), 0);
    // 0.5 km in 1 minute: 30 km/h, retained
    let mut edge = edge_with(vec![journey(600, 601, 0)]);
    graph::filter_journeys(&mut edge, 500_000);
    assert_eq!(edge.timetable.journeys.len(), 1);
}

#[test]
fn speed_filter_keeps_short_hops() {
    // 2 km in 0 minutes: unbounded speed but under 3 minutes and 3 km
    let mut edge = edge_with(vec![journey(600, 600, 0)]);
    graph::filter_journeys(&mut edge, 2_000_000);
    assert_eq!(edge.timetable.journeys.len(), 1);
    // 50 km in 1 minute: under 3 minutes but not under 3 km, dropped
    let mut edge = edge_with(vec![journey(600, 601, 0)]);
    graph::filter_journeys(&mut edge, 50_000_000);
    assert_eq!(edge.timetable.journeys.len(), 0);
}

#[test]
fn speed_filter_cross_midnight_retained() {
    // 23:55 to 00:10 over 5 km: 15 minutes, 20 km/h
    let mut edge = edge_with(vec![journey(1435, 10, 0)]);
    graph::filter_journeys(&mut edge, 5_000_000);
    assert_eq!(edge.timetable.journeys.len(), 1);
}

fn two_nodes() -> Nodes {
    let mut id_map: HashMap<u64, usize> = HashMap::new();
    id_map.insert(100, 0);
    id_map.insert(200, 1);
    Nodes {
        vec: vec![
            StopNode { id: 100, short_name: String::from("A"), long: 8_000_000, lat: 50_000_000 },
            StopNode { id: 200, short_name: String::from("B"), long: 8_000_000, lat: 50_003_000 },
        ],
        ref_map: HashMap::new(),
        id_map,
    }
}

#[test]
fn walk_overlay_is_symmetric() {
    let nodes = two_nodes();
    let mut edges = EdgeMap::new();
    let walk = WalkEdge { start: 100, end: 200, duration: 120 };
    let outcome = Graph::update_walk(&walk, &nodes, &mut edges, 300_000);
    assert_eq!(outcome, WalkOutcome::Applied);
    assert_eq!(edges.edges.len(), 2);
    let fwd = edges.edges.iter().find(|e| e.start_node == 0 && e.end_node == 1).unwrap();
    let bwd = edges.edges.iter().find(|e| e.start_node == 1 && e.end_node == 0).unwrap();
    assert_eq!(fwd.walk_seconds, 120);
    assert_eq!(bwd.walk_seconds, 120);
    assert_eq!(fwd.timetable.journeys.len(), 0);
    assert_eq!(bwd.timetable.journeys.len(), 0);
}

#[test]
fn walk_overlay_gates_on_distance() {
    let nodes = two_nodes();
    let mut edges = EdgeMap::new();
    let walk = WalkEdge { start: 100, end: 200, duration: 120 };
    // 1.4 km apart: dropped
    let outcome = Graph::update_walk(&walk, &nodes, &mut edges, 1_400_000);
    assert_eq!(outcome, WalkOutcome::TooFar);
    assert_eq!(edges.edges.len(), 0);
    // 0.3 km apart: applied
    let outcome = Graph::update_walk(&walk, &nodes, &mut edges, 300_000);
    assert_eq!(outcome, WalkOutcome::Applied);
}

#[test]
fn walk_overlay_skips_unknown_endpoints() {
    let nodes = two_nodes();
    let mut edges = EdgeMap::new();
    let walk = WalkEdge { start: 999, end: 200, duration: 10 };
    let outcome = Graph::update_walk(&walk, &nodes, &mut edges, 100);
    assert_eq!(outcome, WalkOutcome::Unresolved);
    assert_eq!(edges.edges.len(), 0);
}

#[test]
fn walk_overlay_updates_existing_edge() {
    let nodes = two_nodes();
    let mut edges = EdgeMap::new();
    edges.push_journey(0, 1, journey(480, 485, 0));
    let walk = WalkEdge { start: 100, end: 200, duration: 60 };
    let outcome = Graph::update_walk(&walk, &nodes, &mut edges, 500_000);
    assert_eq!(outcome, WalkOutcome::Applied);
    let fwd = edges.edges.iter().find(|e| e.start_node == 0 && e.end_node == 1).unwrap();
    assert_eq!(fwd.walk_seconds, 60);
    assert_eq!(fwd.timetable.journeys.len(), 1);
}

fn data_with_periods(n: u8) -> Vec<NetexData> {
    let mut data = NetexData::default();
    for k in 0..n {
        data.operating_periods.push(UicOperatingPeriod {
            id: 1000 + k as u64,
            from: k as u32,
            to: 100 + k as u32,
            valid_day_bits: vec![k],
        });
    }
    vec![data]
}

#[test]
fn lookup_operating_period_walks_the_corpus() {
    let data = data_with_periods(43);
    assert_eq!(Graph::lookup_operating_period(&data, 0).unwrap().from, 0);
    assert_eq!(Graph::lookup_operating_period(&data, 42).unwrap().from, 42);
    assert!(Graph::lookup_operating_period(&data, 43).is_none());
}

#[test]
fn period_remap_is_first_seen() {
    let data = data_with_periods(43);
    let mut edge = edge_with(vec![journey(0, 10, 7), journey(0, 10, 7), journey(0, 10, 42)]);
    Graph::remap_periods(&mut edge, &data);
    assert_eq!(edge.timetable.periods.len(), 2);
    let ops: Vec<usize> =
        edge.timetable.journeys.iter().map(|j| j.operating_period).collect();
    assert_eq!(ops, vec![0, 0, 1]);
    assert_eq!(edge.timetable.periods[0].from, 7);
    assert_eq!(edge.timetable.periods[0].valid_day, vec![7]);
    assert_eq!(edge.timetable.periods[1].from, 42);
    assert_eq!(edge.timetable.periods[1].valid_day, vec![42]);
}

#[test]
fn period_remap_encodes_day_bits_as_base64() {
    let mut data = NetexData::default();
    data.operating_periods.push(UicOperatingPeriod {
        id: 1,
        from: 220613,
        to: 221210,
        valid_day_bits: vec![127, 3],
    });
    let data = vec![data];
    let mut edge = edge_with(vec![journey(0, 10, 0)]);
    Graph::remap_periods(&mut edge, &data);
    assert_eq!(edge.timetable.periods.len(), 1);
    assert_eq!(edge.timetable.periods[0].valid_day, vec![127, 3]);
    assert_eq!(edge.timetable.periods[0].valid_day_bits, "fwM=");
}

#[test]
fn cluster_id_is_permutation_invariant() {
    let a = cluster::cluster_id(vec![3, 1, 2]);
    let b = cluster::cluster_id(vec![2, 3, 1, 1, 3]);
    assert_eq!(a, b);
    assert_eq!(cluster::cluster_id(vec![5]), 5);
    assert_eq!(cluster::cluster_id(vec![1, 2]), 3);
}
