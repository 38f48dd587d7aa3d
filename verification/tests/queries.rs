use transit_isochrones::clock::parse_arrival_time;
use transit_isochrones::dijkstra::{dijkstra, QueryError};
use transit_isochrones::graph::{Edge, Graph, Node, NodeId, Snap, TransportEdge};
use transit_isochrones::graph_builder::GraphBuilder;
use transit_isochrones::isochrone::reachable_nodes;
use transit_isochrones::node_map::NodeMap;
use transit_isochrones::osm::{Element, Tag};

const A: i64 = 1;
const B: i64 = 2;

/// Great-circle distance in whole metres on a sphere of radius 6371 km.
fn haversine(a: &Node, b: &Node) -> u32 {
    let (lon1, lat1) = (a.lon as f64 * 1e-9, a.lat as f64 * 1e-9);
    let (lon2, lat2) = (b.lon as f64 * 1e-9, b.lat as f64 * 1e-9);
    let dlat = (lat2 - lat1).to_radians();
    let dlon = (lon2 - lon1).to_radians();
    let h = (dlat / 2.0).sin().powi(2)
        + lat1.to_radians().cos() * lat2.to_radians().cos() * (dlon / 2.0).sin().powi(2);
    let c = 2.0 * h.sqrt().atan2((1.0 - h).sqrt());
    (6371.0 * c * 1000.0) as u32
}

fn tag(key: &str, value: &str) -> Tag {
    Tag { key: key.to_string(), value: value.to_string() }
}

/// A at (0, 0) and B at (0.001, 0), joined by one way.
fn two_street_nodes() -> Graph {
    let elements = vec![
        Element::DenseNode { id: A, lon: 0, lat: 0 },
        Element::DenseNode { id: B, lon: 1_000_000, lat: 0 },
        Element::Way { refs: vec![A, B], tags: vec![tag("highway", "residential")] },
    ];
    GraphBuilder::new().load_osm(&elements).build()
}

/// A at (0, 0) and B at (0.01, 0), joined by nothing but a ride that leaves
/// A at 11:59:00 and is at B at 11:59:30.
fn two_stops_one_ride() -> Graph {
    let mut graph = Graph::default();
    graph.nodes.insert(NodeId::Street(A), Node { lon: 0, lat: 0 });
    graph.nodes.insert(NodeId::Street(B), Node { lon: 10_000_000, lat: 0 });
    graph.adjacency.push_to(
        NodeId::Street(A),
        Edge::Transport(TransportEdge {
            origin: NodeId::Street(A),
            destination: NodeId::Street(B),
            start_time: 11 * 3600 + 59 * 60,
            end_time: 11 * 3600 + 59 * 60 + 30,
        }),
    );
    graph
}

fn at_a() -> Snap {
    Snap { node: NodeId::Street(A), distance: 0 }
}

fn cost(costs: &NodeMap<u32>, id: i64) -> Option<u32> {
    costs.get(&NodeId::Street(id)).copied()
}

#[test]
fn walk_within_budget_reaches_both_nodes() {
    let graph = two_street_nodes();
    let noon = parse_arrival_time("12:00:00").unwrap();
    let costs = dijkstra(&graph, &at_a(), noon, 200, haversine).unwrap();
    assert_eq!(costs.len(), 2);
    assert_eq!(cost(&costs, A), Some(0));
    assert_eq!(cost(&costs, B), Some(111));
}

#[test]
fn walk_over_budget_leaves_far_node_out() {
    let graph = two_street_nodes();
    let noon = parse_arrival_time("12:00:00").unwrap();
    let costs = dijkstra(&graph, &at_a(), noon, 50, haversine).unwrap();
    assert_eq!(costs.len(), 1);
    assert_eq!(cost(&costs, A), Some(0));
    assert_eq!(cost(&costs, B), None);
}

#[test]
fn ride_puts_cost_at_its_arrival() {
    let graph = two_stops_one_ride();
    let noon = parse_arrival_time("12:00:00").unwrap();
    let costs = dijkstra(&graph, &at_a(), noon, 120, haversine).unwrap();
    // Earliest departure is 11:58:00; the ride is at B at 11:59:30.
    assert_eq!(costs.len(), 2);
    assert_eq!(cost(&costs, A), Some(0));
    assert_eq!(cost(&costs, B), Some(90));
}

#[test]
fn ride_that_has_left_is_missed() {
    let graph = two_stops_one_ride();
    let noon = parse_arrival_time("12:00:00").unwrap();
    let costs = dijkstra(&graph, &at_a(), noon, 30, haversine).unwrap();
    // Earliest departure is 11:59:30; the ride left at 11:59:00.
    assert_eq!(costs.len(), 1);
    assert_eq!(cost(&costs, A), Some(0));
    assert_eq!(cost(&costs, B), None);
}

#[test]
fn start_two_kilometres_away_is_too_far() {
    let graph = two_street_nodes();
    let far = Snap { node: NodeId::Street(A), distance: 2000 };
    for duration in [0, 50, 200, 3600] {
        let found = dijkstra(&graph, &far, 43_200, duration, haversine);
        assert_eq!(found.err(), Some(QueryError::StartTooFar));
    }
}

#[test]
fn malformed_time_ends_the_query_before_the_search() {
    let graph = two_street_nodes();
    let asked = std::cell::Cell::new(0u32);
    let counting = |a: &Node, b: &Node| {
        asked.set(asked.get() + 1);
        haversine(a, b)
    };
    let found = reachable_nodes(&graph, &at_a(), "25:00", 200, counting);
    assert_eq!(found.err(), Some(QueryError::BadTime));
    assert_eq!(asked.get(), 0);
}

#[test]
fn well_formed_time_lets_the_query_search() {
    let graph = two_street_nodes();
    let costs = reachable_nodes(&graph, &at_a(), "12:00:00", 200, haversine).unwrap();
    assert_eq!(cost(&costs, A), Some(0));
    assert_eq!(cost(&costs, B), Some(111));
}
