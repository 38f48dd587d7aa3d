use transit_isochrones::clock::{arrival_time_from, parse_arrival_time};
use transit_isochrones::dijkstra::{
    calculate_edge_cost, calculate_walking_time, dijkstra, is_valid_edge, walking_time, QueryError,
    MAX_DISTANCE, WALKING_SPEED,
};
use transit_isochrones::graph::{Edge, Graph, Node, NodeId, Snap, TransportEdge, WalkingEdge};
use transit_isochrones::isochrone::reached_points;
use transit_isochrones::node_map::NodeMap;

fn street(id: i64) -> NodeId {
    NodeId::Street(id)
}

fn walk(from: i64, to: i64, time: Option<u32>) -> Edge {
    Edge::Walking(WalkingEdge { origin: street(from), destination: street(to), traversal_time: time })
}

fn ride(from: i64, to: i64, start: u32, end: u32) -> Edge {
    Edge::Transport(TransportEdge {
        origin: street(from),
        destination: street(to),
        start_time: start,
        end_time: end,
    })
}

/// Metres between two points of a plane whose unit is the metre.
fn manhattan(a: &Node, b: &Node) -> u32 {
    ((a.lon - b.lon).abs() + (a.lat - b.lat).abs()) as u32
}

fn graph_of(nodes: &[(i64, i64, i64)], edges: Vec<Edge>) -> Graph {
    let mut graph = Graph::default();
    for (id, lon, lat) in nodes {
        graph.nodes.insert(street(*id), Node { lon: *lon, lat: *lat });
    }
    for edge in edges {
        graph.adjacency.push_to(edge.origin().clone(), edge);
    }
    graph
}

fn as_pairs(costs: &NodeMap<u32>) -> Vec<(i64, u32)> {
    let mut pairs = Vec::new();
    for i in 0..costs.len() {
        match costs.key(i) {
            NodeId::Street(id) => pairs.push((*id, *costs.value(i))),
            NodeId::Stop(_) => panic!("no stops here"),
        }
    }
    pairs.sort();
    pairs
}

/// Relaxes every edge again and again until nothing changes: the least
/// cost of any path within the budget, found without any queue.
fn brute_force(graph: &Graph, start: i64, start_cost: u32, arrival: u32, duration: u32) -> Vec<(i64, u32)> {
    let earliest = arrival as i64 - duration as i64;
    let mut best: std::collections::BTreeMap<i64, i64> = std::collections::BTreeMap::new();
    if start_cost <= duration {
        best.insert(start, start_cost as i64);
    }
    loop {
        let mut changed = false;
        let now: Vec<(i64, i64)> = best.iter().map(|(k, v)| (*k, *v)).collect();
        for (at, cur) in now {
            let edges = match graph.neighbors(&street(at)) {
                Some(edges) => edges,
                None => continue,
            };
            for edge in edges {
                let next = match edge {
                    Edge::Walking(e) => match e.traversal_time {
                        Some(time) => cur + time as i64,
                        None => {
                            let a = graph.get_node(&e.origin);
                            let b = graph.get_node(&e.destination);
                            match (a, b) {
                                (Some(a), Some(b)) => cur + manhattan(a, b) as i64,
                                _ => continue,
                            }
                        }
                    },
                    Edge::Transport(e) => {
                        if (e.start_time as i64) < earliest + cur || e.end_time < e.start_time {
                            continue;
                        }
                        e.end_time as i64 - earliest
                    }
                };
                let to = match edge.dest() {
                    NodeId::Street(id) => *id,
                    NodeId::Stop(_) => panic!("no stops here"),
                };
                if next <= duration as i64 && best.get(&to).map_or(true, |old| next < *old) {
                    best.insert(to, next);
                    changed = true;
                }
            }
        }
        if !changed {
            break;
        }
    }
    best.into_iter().map(|(k, v)| (k, v as u32)).collect()
}

fn town() -> Graph {
    graph_of(
        &[(1, 0, 0), (2, 100, 0), (3, 100, 100), (4, 0, 100), (5, 300, 0), (6, 300, 300), (7, 50, 50)],
        vec![
            walk(1, 2, None),
            walk(2, 1, None),
            walk(2, 3, None),
            walk(3, 2, None),
            walk(3, 4, Some(60)),
            walk(4, 3, Some(60)),
            walk(4, 1, None),
            walk(1, 4, None),
            walk(1, 7, Some(500)),
            walk(7, 6, Some(1)),
            ride(2, 5, 1000, 1030),
            ride(2, 5, 900, 1400),
            ride(5, 6, 1040, 1100),
            ride(5, 6, 1020, 1050),
            ride(3, 6, 1150, 1160),
            ride(6, 1, 1100, 1101),
            ride(4, 5, 1090, 1095),
            walk(5, 8, None),
            walk(6, 9, Some(10)),
            ride(1, 9, 700, 650),
        ],
    )
}

#[test]
fn search_agrees_with_brute_force_on_a_small_town() {
    let graph = town();
    for arrival in [1000u32, 1100, 1200, 1300, 1500] {
        for duration in [0u32, 50, 99, 100, 101, 200, 260, 300, 400, 600, 1500, 5000] {
            for distance in [0u32, 10, 120] {
                let start = Snap { node: street(1), distance };
                let found = dijkstra(&graph, &start, arrival, duration, manhattan).unwrap();
                let expected = brute_force(&graph, 1, distance, arrival, duration);
                assert_eq!(as_pairs(&found), expected, "{} {} {}", arrival, duration, distance);
            }
        }
    }
}

#[test]
fn search_stays_within_the_budget() {
    let graph = town();
    for duration in [0u32, 1, 150, 310, 1000] {
        let start = Snap { node: street(1), distance: 0 };
        let found = dijkstra(&graph, &start, 1300, duration, manhattan).unwrap();
        for (_, cost) in as_pairs(&found) {
            assert!(cost <= duration);
        }
    }
}

#[test]
fn search_reaches_exact_costs() {
    let graph = town();
    let start = Snap { node: street(1), distance: 20 };
    let found = dijkstra(&graph, &start, 1300, 400, manhattan).unwrap();
    // Earliest departure is 900. Node 2 is reached on foot at 120, which is
    // 1020 on the clock: the ride at 1000 has left, the one at 900 too. The
    // ride from 4 at 1090 is caught and is at 5 at 1095.
    assert_eq!(
        as_pairs(&found),
        vec![(1, 20), (2, 120), (3, 180), (4, 120), (5, 195), (6, 260), (9, 270)]
    );
}

#[test]
fn walking_only_search_is_shortest_paths() {
    let graph = graph_of(
        &[],
        vec![
            walk(1, 2, Some(7)),
            walk(1, 3, Some(9)),
            walk(1, 6, Some(14)),
            walk(2, 3, Some(10)),
            walk(2, 4, Some(15)),
            walk(3, 4, Some(11)),
            walk(3, 6, Some(2)),
            walk(4, 5, Some(6)),
            walk(6, 5, Some(9)),
            walk(5, 1, Some(0)),
            walk(7, 1, Some(1)),
        ],
    );
    let start = Snap { node: street(1), distance: 0 };
    let found = dijkstra(&graph, &start, 0, 1000, manhattan).unwrap();
    assert_eq!(as_pairs(&found), vec![(1, 0), (2, 7), (3, 9), (4, 20), (5, 20), (6, 11)]);
    let found = dijkstra(&graph, &start, 0, 11, manhattan).unwrap();
    assert_eq!(as_pairs(&found), vec![(1, 0), (2, 7), (3, 9), (6, 11)]);
}

#[test]
fn start_over_budget_reaches_nothing() {
    let graph = town();
    let start = Snap { node: street(1), distance: 30 };
    let found = dijkstra(&graph, &start, 1300, 29, manhattan).unwrap();
    assert_eq!(found.len(), 0);
    let found = dijkstra(&graph, &start, 1300, 30, manhattan).unwrap();
    assert_eq!(as_pairs(&found), vec![(1, 30)]);
}

#[test]
fn isolated_start_reaches_itself_alone() {
    let graph = graph_of(&[(1, 0, 0)], vec![]);
    let start = Snap { node: street(1), distance: 0 };
    let found = dijkstra(&graph, &start, 100, 50, manhattan).unwrap();
    assert_eq!(as_pairs(&found), vec![(1, 0)]);
}

#[test]
fn budget_longer_than_the_day_so_far_is_no_trouble() {
    let graph = graph_of(&[], vec![walk(1, 2, Some(5)), ride(2, 3, 0, 10)]);
    let start = Snap { node: street(1), distance: 0 };
    // Earliest departure is 20 seconds before midnight.
    let found = dijkstra(&graph, &start, 10, 30, manhattan).unwrap();
    assert_eq!(as_pairs(&found), vec![(1, 0), (2, 5), (3, 30)]);
    let found = dijkstra(&graph, &start, 10, u32::MAX, manhattan).unwrap();
    assert_eq!(as_pairs(&found), vec![(1, 0), (2, 5), (3, u32::MAX)]);
    let found = dijkstra(&graph, &start, 9, u32::MAX, manhattan).unwrap();
    assert_eq!(as_pairs(&found), vec![(1, 0), (2, 5)]);
}

#[test]
fn start_at_the_limit_is_near_enough() {
    let graph = town();
    assert_eq!(MAX_DISTANCE, 500);
    let start = Snap { node: street(1), distance: 500 };
    let found = dijkstra(&graph, &start, 1300, 500, manhattan).unwrap();
    assert_eq!(found.get(&street(1)), Some(&500));
    let start = Snap { node: street(1), distance: 501 };
    let found = dijkstra(&graph, &start, 1300, 500, manhattan);
    assert_eq!(found.err(), Some(QueryError::StartTooFar));
}

#[test]
fn ride_is_valid_until_the_moment_it_leaves() {
    let bus = ride(1, 2, 1000, 1100);
    assert!(is_valid_edge(&bus, 900, 99));
    assert!(is_valid_edge(&bus, 900, 100));
    assert!(!is_valid_edge(&bus, 900, 101));
    assert!(is_valid_edge(&bus, -50, 1050));
    assert!(!is_valid_edge(&bus, -50, 1051));
    assert!(!is_valid_edge(&bus, 1001, 0));
    assert!(is_valid_edge(&walk(1, 2, None), 1_000_000, u32::MAX));
    assert!(is_valid_edge(&walk(1, 2, Some(3)), i64::MIN, 0));
}

#[test]
fn ride_is_not_taken_once_the_budget_is_too_short_to_wait_for_it() {
    let graph = graph_of(&[], vec![ride(1, 2, 1000, 1010)]);
    let start = Snap { node: street(1), distance: 0 };
    for (duration, reached) in [(200u32, Some(110u32)), (100, Some(10)), (99, None), (10, None)] {
        let found = dijkstra(&graph, &start, 1100, duration, manhattan).unwrap();
        assert_eq!(found.get(&street(2)).copied(), reached, "{}", duration);
    }
}

#[test]
fn edge_costs_follow_their_kind() {
    let graph = graph_of(&[(1, 0, 0), (2, 30, 40)], vec![]);
    assert_eq!(calculate_edge_cost(&walk(1, 2, Some(12)), 5, &graph, 0, &manhattan), Some(17));
    assert_eq!(calculate_edge_cost(&walk(1, 2, None), 5, &graph, 0, &manhattan), Some(75));
    assert_eq!(calculate_edge_cost(&walk(1, 3, None), 5, &graph, 0, &manhattan), None);
    assert_eq!(calculate_edge_cost(&walk(3, 1, None), 5, &graph, 0, &manhattan), None);
    assert_eq!(calculate_edge_cost(&walk(3, 4, Some(1)), u32::MAX, &graph, 0, &manhattan), Some(1 << 32));
    assert_eq!(calculate_edge_cost(&ride(1, 2, 1000, 1100), 50, &graph, 900, &manhattan), Some(200));
    assert_eq!(calculate_edge_cost(&ride(1, 2, 1000, 1100), 100, &graph, 900, &manhattan), Some(200));
    assert_eq!(calculate_edge_cost(&ride(1, 2, 1000, 1100), 101, &graph, 900, &manhattan), None);
    assert_eq!(calculate_edge_cost(&ride(1, 2, 1000, 999), 0, &graph, 900, &manhattan), None);
    assert_eq!(calculate_edge_cost(&ride(1, 2, 10, 20), 0, &graph, -30, &manhattan), Some(50));
}

#[test]
fn walking_time_is_distance_at_walking_speed() {
    assert_eq!(WALKING_SPEED, 1);
    assert_eq!(walking_time(0), 0);
    assert_eq!(walking_time(111), 111);
    assert_eq!(walking_time(u32::MAX), u32::MAX);
    let graph = graph_of(&[(1, 0, 0), (2, 30, 40)], vec![]);
    assert_eq!(calculate_walking_time(&graph, &street(1), &street(2), &manhattan), Some(70));
    assert_eq!(calculate_walking_time(&graph, &street(2), &street(1), &manhattan), Some(70));
    assert_eq!(calculate_walking_time(&graph, &street(1), &street(1), &manhattan), Some(0));
    assert_eq!(calculate_walking_time(&graph, &street(1), &street(9), &manhattan), None);
}

#[test]
fn times_of_day_are_read_as_seconds() {
    assert_eq!(parse_arrival_time("00:00:00"), Ok(0));
    assert_eq!(parse_arrival_time("23:59:59"), Ok(86_399));
    assert_eq!(parse_arrival_time("11:58:00"), Ok(43_080));
    assert_eq!(parse_arrival_time("24:00:00"), Err(QueryError::BadTime));
    assert_eq!(parse_arrival_time("12:60:00"), Err(QueryError::BadTime));
    assert_eq!(parse_arrival_time("noon"), Err(QueryError::BadTime));
    assert_eq!(parse_arrival_time(""), Err(QueryError::BadTime));
    assert_eq!(arrival_time_from(Some(5)), Ok(5));
    assert_eq!(arrival_time_from(None), Err(QueryError::BadTime));
}

#[test]
fn query_errors_say_what_went_wrong() {
    assert_eq!(QueryError::BadTime.message(), "Invalid arrival time");
    assert_eq!(QueryError::StartTooFar.message(), "Start node is too far away");
}

#[test]
fn reached_points_pair_positions_with_costs() {
    let graph = graph_of(&[(1, 0, 0), (2, 100, 0), (4, 0, 100)], vec![
        walk(1, 2, None),
        walk(1, 3, Some(5)),
        walk(3, 4, Some(5)),
    ]);
    let start = Snap { node: street(1), distance: 0 };
    let found = dijkstra(&graph, &start, 1000, 1000, manhattan).unwrap();
    assert_eq!(as_pairs(&found), vec![(1, 0), (2, 100), (3, 5), (4, 10)]);
    let mut points = reached_points(&graph, &found);
    points.sort_by_key(|(_, cost)| *cost);
    assert_eq!(
        points,
        vec![
            (Node { lon: 0, lat: 0 }, 0),
            (Node { lon: 0, lat: 100 }, 10),
            (Node { lon: 100, lat: 0 }, 100),
        ]
    );
}
