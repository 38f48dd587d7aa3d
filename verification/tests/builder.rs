use transit_isochrones::graph::{Edge, Graph, Node, NodeId, Snap};
use transit_isochrones::graph_builder::{GraphBuilder, IngestError};
use transit_isochrones::gtfs::{Feed, Pathway, PathwayDirection, Stop, StopTime, Trip};
use transit_isochrones::osm::{Element, Tag};

fn tag(key: &str, value: &str) -> Tag {
    Tag { key: key.to_string(), value: value.to_string() }
}

fn street(id: i64) -> NodeId {
    NodeId::Street(id)
}

fn stop_id(id: &str) -> NodeId {
    NodeId::Stop(id.to_string())
}

fn way(refs: &[i64], tags: Vec<Tag>) -> Element {
    Element::Way { refs: refs.to_vec(), tags }
}

fn dense(id: i64) -> Element {
    Element::DenseNode { id, lon: id * 1000, lat: -id * 1000 }
}

fn stop(id: &str, nearest: i64, distance: u32) -> Stop {
    Stop {
        id: id.to_string(),
        longitude: Some(7),
        latitude: Some(8),
        nearest: Some(Snap { node: street(nearest), distance }),
        pathways: vec![],
    }
}

fn call(stop: &str, arrival: Option<u32>, departure: Option<u32>) -> StopTime {
    StopTime { stop_id: stop.to_string(), arrival_time: arrival, departure_time: departure }
}

/// Each edge as (origin, destination, traversal time) or, for a ride,
/// (origin, destination, start, end).
#[derive(Debug, PartialEq)]
enum Seen {
    Walk(NodeId, NodeId, Option<u32>),
    Ride(NodeId, NodeId, u32, u32),
}

fn seen(edge: &Edge) -> Seen {
    match edge {
        Edge::Walking(e) => Seen::Walk(e.origin.clone(), e.destination.clone(), e.traversal_time),
        Edge::Transport(e) => {
            Seen::Ride(e.origin.clone(), e.destination.clone(), e.start_time, e.end_time)
        }
    }
}

fn edges_from(graph: &Graph, id: &NodeId) -> Vec<Seen> {
    match graph.neighbors(id) {
        Some(edges) => edges.iter().map(seen).collect(),
        None => vec![],
    }
}

fn streets() -> GraphBuilder {
    GraphBuilder::new().load_osm(&[
        dense(1),
        dense(2),
        dense(3),
        way(&[1, 2, 3], vec![tag("highway", "residential")]),
    ])
}

#[test]
fn empty_builder_builds_empty_graph() {
    let graph = GraphBuilder::new().build();
    assert_eq!(graph.nodes.len(), 0);
    assert_eq!(graph.adjacency.len(), 0);
    let graph = GraphBuilder::default().build();
    assert_eq!(graph.nodes.len(), 0);
}

#[test]
fn way_gives_a_walk_each_way_between_consecutive_nodes() {
    let graph = streets().build();
    assert_eq!(edges_from(&graph, &street(1)), vec![Seen::Walk(street(1), street(2), None)]);
    assert_eq!(
        edges_from(&graph, &street(2)),
        vec![Seen::Walk(street(2), street(1), None), Seen::Walk(street(2), street(3), None)]
    );
    assert_eq!(edges_from(&graph, &street(3)), vec![Seen::Walk(street(3), street(2), None)]);
    assert_eq!(graph.get_node(&street(2)), Some(&Node { lon: 2000, lat: -2000 }));
}

#[test]
fn every_walk_from_a_way_has_its_way_back() {
    let graph = GraphBuilder::new()
        .load_osm(&[
            dense(1),
            dense(2),
            dense(3),
            dense(4),
            way(&[1, 2, 3], vec![tag("highway", "residential")]),
            way(&[3, 4, 1], vec![tag("highway", "path")]),
        ])
        .build();
    let mut walks = 0;
    for i in 0..graph.adjacency.len() {
        for edge in graph.adjacency.value(i) {
            match seen(edge) {
                Seen::Walk(origin, destination, time) => {
                    walks += 1;
                    assert_eq!(&origin, graph.adjacency.key(i));
                    let back = Seen::Walk(destination.clone(), origin, time);
                    assert!(edges_from(&graph, &destination).contains(&back));
                }
                Seen::Ride(..) => panic!("a street network has no rides"),
            }
        }
    }
    assert_eq!(walks, 8);
}

#[test]
fn nodes_without_edges_are_dropped() {
    let graph = GraphBuilder::new()
        .load_osm(&[
            dense(1),
            dense(2),
            dense(3),
            Element::Node { id: 4, lon: 0, lat: 0, tags: vec![] },
            way(&[1, 2], vec![tag("highway", "residential")]),
            way(&[3, 4], vec![tag("highway", "construction")]),
            Element::Relation,
        ])
        .build();
    assert_eq!(graph.nodes.len(), 2);
    assert!(graph.get_node(&street(1)).is_some());
    assert!(graph.get_node(&street(2)).is_some());
    assert!(graph.get_node(&street(3)).is_none());
    assert!(graph.get_node(&street(4)).is_none());
    for i in 0..graph.nodes.len() {
        let edges = graph.neighbors(graph.nodes.key(i)).expect("a node without edges");
        assert!(!edges.is_empty());
    }
}

#[test]
fn node_closed_to_feet_is_not_taken() {
    let graph = GraphBuilder::new()
        .load_osm(&[
            Element::Node { id: 1, lon: 5, lat: 6, tags: vec![tag("foot", "no")] },
            Element::Node { id: 2, lon: 7, lat: 8, tags: vec![tag("foot", "yes")] },
            way(&[1, 2], vec![tag("highway", "residential")]),
        ])
        .build();
    assert!(graph.get_node(&street(1)).is_none());
    assert_eq!(graph.get_node(&street(2)), Some(&Node { lon: 7, lat: 8 }));
    assert_eq!(edges_from(&graph, &street(1)), vec![Seen::Walk(street(1), street(2), None)]);
}

#[test]
fn short_ways_add_nothing() {
    let graph = GraphBuilder::new()
        .load_osm(&[
            dense(1),
            way(&[], vec![tag("highway", "residential")]),
            way(&[1], vec![tag("highway", "residential")]),
        ])
        .build();
    assert_eq!(graph.nodes.len(), 0);
    assert_eq!(graph.adjacency.len(), 0);
}

#[test]
fn stop_is_tied_to_its_nearest_street_node() {
    let feed = Feed { stops: vec![stop("s", 2, 35)], trips: vec![] };
    let graph = streets().load_gtfs(&feed).unwrap().build();
    assert_eq!(graph.get_node(&stop_id("s")), Some(&Node { lon: 7, lat: 8 }));
    assert_eq!(edges_from(&graph, &stop_id("s")), vec![Seen::Walk(stop_id("s"), street(2), Some(35))]);
    assert_eq!(
        edges_from(&graph, &street(2)),
        vec![
            Seen::Walk(street(2), street(1), None),
            Seen::Walk(street(2), street(3), None),
            Seen::Walk(street(2), stop_id("s"), Some(35)),
        ]
    );
}

#[test]
fn pathways_go_one_way_or_both() {
    let mut from = stop("a", 1, 10);
    from.pathways = vec![
        Pathway {
            to_stop_id: "b".to_string(),
            direction: PathwayDirection::Unidirectional,
            traversal_time: Some(20),
        },
        Pathway {
            to_stop_id: "c".to_string(),
            direction: PathwayDirection::Bidirectional,
            traversal_time: None,
        },
    ];
    let feed = Feed { stops: vec![from], trips: vec![] };
    let graph = streets().load_gtfs(&feed).unwrap().build();
    assert_eq!(
        edges_from(&graph, &stop_id("a")),
        vec![
            Seen::Walk(stop_id("a"), street(1), Some(10)),
            Seen::Walk(stop_id("a"), stop_id("b"), Some(20)),
            Seen::Walk(stop_id("a"), stop_id("c"), None),
        ]
    );
    assert_eq!(edges_from(&graph, &stop_id("b")), vec![]);
    assert_eq!(edges_from(&graph, &stop_id("c")), vec![Seen::Walk(stop_id("c"), stop_id("a"), None)]);
}

#[test]
fn trip_gives_a_ride_for_each_leg() {
    let feed = Feed {
        stops: vec![stop("a", 1, 0), stop("b", 2, 0), stop("c", 3, 0)],
        trips: vec![Trip {
            stop_times: vec![
                call("a", Some(100), Some(110)),
                call("b", Some(200), Some(210)),
                call("c", Some(300), None),
            ],
        }],
    };
    let graph = streets().load_gtfs(&feed).unwrap().build();
    assert_eq!(
        edges_from(&graph, &stop_id("a")),
        vec![
            Seen::Walk(stop_id("a"), street(1), Some(0)),
            Seen::Ride(stop_id("a"), stop_id("b"), 110, 200),
        ]
    );
    assert_eq!(
        edges_from(&graph, &stop_id("b")),
        vec![
            Seen::Walk(stop_id("b"), street(2), Some(0)),
            Seen::Ride(stop_id("b"), stop_id("c"), 210, 300),
        ]
    );
    assert_eq!(edges_from(&graph, &stop_id("c")), vec![Seen::Walk(stop_id("c"), street(3), Some(0))]);
}

#[test]
fn rides_of_an_ordered_timetable_do_not_arrive_before_they_leave() {
    let feed = Feed {
        stops: vec![stop("a", 1, 3), stop("b", 2, 4)],
        trips: vec![
            Trip { stop_times: vec![call("a", None, Some(50)), call("b", Some(50), None)] },
            Trip { stop_times: vec![call("b", None, Some(70)), call("a", Some(95), None)] },
        ],
    };
    let graph = streets().load_gtfs(&feed).unwrap().build();
    let mut rides = 0;
    for i in 0..graph.adjacency.len() {
        for edge in graph.adjacency.value(i) {
            if let Edge::Transport(e) = edge {
                rides += 1;
                assert!(e.start_time <= e.end_time);
            }
        }
    }
    assert_eq!(rides, 2);
    for i in 0..graph.nodes.len() {
        assert!(graph.neighbors(graph.nodes.key(i)).is_some());
    }
}

#[test]
fn stop_without_coordinates_is_an_error() {
    let mut no_lon = stop("a", 1, 0);
    no_lon.longitude = None;
    let feed = Feed { stops: vec![stop("b", 1, 0), no_lon], trips: vec![] };
    assert_eq!(streets().load_gtfs(&feed).err(), Some(IngestError::MissingCoordinates));
    let mut no_lat = stop("a", 1, 0);
    no_lat.latitude = None;
    let feed = Feed { stops: vec![no_lat], trips: vec![] };
    assert_eq!(streets().load_gtfs(&feed).err(), Some(IngestError::MissingCoordinates));
}

#[test]
fn stop_without_nearest_node_is_an_error() {
    let mut lost = stop("a", 1, 0);
    lost.nearest = None;
    let feed = Feed { stops: vec![lost], trips: vec![] };
    assert_eq!(GraphBuilder::new().load_gtfs(&feed).err(), Some(IngestError::NoGraphNodes));
}

#[test]
fn leg_without_departure_time_is_an_error() {
    let feed = Feed {
        stops: vec![],
        trips: vec![Trip { stop_times: vec![call("a", Some(1), None), call("b", None, Some(9))] }],
    };
    assert_eq!(streets().load_gtfs(&feed).err(), Some(IngestError::MissingDepartureTime));
}

#[test]
fn leg_without_arrival_time_is_an_error() {
    let feed = Feed {
        stops: vec![],
        trips: vec![
            Trip { stop_times: vec![call("a", None, None)] },
            Trip { stop_times: vec![call("a", None, Some(1)), call("b", None, Some(9))] },
        ],
    };
    assert_eq!(streets().load_gtfs(&feed).err(), Some(IngestError::MissingArrivalTime));
}

#[test]
fn first_failure_is_the_one_reported() {
    let mut no_lon = stop("a", 1, 0);
    no_lon.longitude = None;
    let feed = Feed {
        stops: vec![no_lon],
        trips: vec![Trip { stop_times: vec![call("a", None, None), call("b", None, None)] }],
    };
    assert_eq!(streets().load_gtfs(&feed).err(), Some(IngestError::MissingCoordinates));
}

#[test]
fn errors_say_what_went_wrong() {
    assert_eq!(IngestError::MissingCoordinates.message(), "All stops must have coordinates");
    assert_eq!(IngestError::MissingDepartureTime.message(), "All stops must have a departure time");
    assert_eq!(IngestError::MissingArrivalTime.message(), "All stops must have an arrival time");
    assert_eq!(IngestError::NoGraphNodes.message(), "There is no node to tie a stop to");
}

#[test]
fn builder_shows_what_it_holds() {
    let builder = streets();
    assert_eq!(builder.graph().nodes.len(), 3);
    assert_eq!(builder.graph().adjacency.len(), 3);
    assert_eq!(builder.graph().nodes.key(0), &street(1));
    let graph = builder.build();
    assert_eq!(graph.nodes.len(), 3);
}

#[test]
fn streets_can_be_taken_in_after_transit() {
    let feed = Feed {
        stops: vec![stop("a", 1, 12)],
        trips: vec![Trip { stop_times: vec![call("a", None, Some(5)), call("b", Some(9), None)] }],
    };
    let graph = streets()
        .load_gtfs(&feed)
        .unwrap()
        .load_osm(&[dense(4), dense(5), way(&[3, 4], vec![tag("highway", "steps")])])
        .build();
    assert_eq!(graph.nodes.len(), 5);
    assert!(graph.get_node(&street(5)).is_none());
    assert_eq!(
        edges_from(&graph, &stop_id("a")),
        vec![
            Seen::Walk(stop_id("a"), street(1), Some(12)),
            Seen::Ride(stop_id("a"), stop_id("b"), 5, 9),
        ]
    );
    assert_eq!(
        edges_from(&graph, &street(3)),
        vec![Seen::Walk(street(3), street(2), None), Seen::Walk(street(3), street(4), None)]
    );
}

#[test]
fn stop_walk_takes_its_distance_at_walking_speed() {
    let feed = Feed { stops: vec![stop("far", 3, 499), stop("near", 3, 0)], trips: vec![] };
    let graph = streets().load_gtfs(&feed).unwrap().build();
    assert_eq!(
        edges_from(&graph, &stop_id("far")),
        vec![Seen::Walk(stop_id("far"), street(3), Some(499))]
    );
    assert_eq!(
        edges_from(&graph, &street(3)),
        vec![
            Seen::Walk(street(3), street(2), None),
            Seen::Walk(street(3), stop_id("far"), Some(499)),
            Seen::Walk(street(3), stop_id("near"), Some(0)),
        ]
    );
}
