//! What taking in a street network or a transit archive keeps of a graph.

use crate::dijkstra::walking_seconds;
use crate::graph::{EdgeView, GraphView, Node, NodeKey};
use crate::graph_builder::{calls_in_order, trip_in_order, trips_in_order, IngestError};
use crate::graph_laws::{lemma_with_edge, lemma_with_edge_keeps, lemma_with_walk_pair};
use crate::gtfs::{Feed, Pathway, Stop, StopTime, Trip};
use crate::osm::Element;
use vstd::prelude::*;

verus! {

/// What a way keeps of the graph it is added to.
pub proof fn lemma_with_way(g: GraphView, refs: Seq<i64>)
    ensures
        g.with_way(refs).nodes == g.nodes,
        g.no_empty_list() ==> g.with_way(refs).no_empty_list(),
        g.timetable_ordered() ==> g.with_way(refs).timetable_ordered(),
        g.walks_paired() ==> g.with_way(refs).walks_paired(),
    decreases refs.len(),
{
    if refs.len() >= 2 {
        let before = g.with_way(refs.drop_last());
        let a = NodeKey::Street(refs[refs.len() - 2]);
        let b = NodeKey::Street(refs[refs.len() - 1]);
        lemma_with_way(g, refs.drop_last());
        lemma_with_walk_pair(before, a, b, None);
    }
}

/// What the elements of a street network keep of the graph they are added
/// to.
pub proof fn lemma_with_elements(g: GraphView, elements: Seq<Element>)
    ensures
        g.no_empty_list() ==> g.with_elements(elements).no_empty_list(),
        g.timetable_ordered() ==> g.with_elements(elements).timetable_ordered(),
        g.walks_paired() ==> g.with_elements(elements).walks_paired(),
    decreases elements.len(),
{
    if elements.len() > 0 {
        let before = g.with_elements(elements.drop_last());
        lemma_with_elements(g, elements.drop_last());
        match elements.last() {
            Element::Way { refs, tags } => {
                lemma_with_way(before, refs@);
            },
            _ => {},
        }
    }
}

/// A street network leaves every walk of the graph with its way back, none
/// of its rides out of order and, once its edgeless nodes are dropped, none
/// of its nodes without an outgoing edge.
pub proof fn lemma_street_ingest(g: GraphView, elements: Seq<Element>)
    ensures
        g.no_empty_list() ==> g.street_ingest(elements).no_empty_list() && g.street_ingest(
            elements,
        ).every_node_has_an_edge(),
        g.timetable_ordered() ==> g.street_ingest(elements).timetable_ordered(),
        g.walks_paired() ==> g.street_ingest(elements).walks_paired(),
{
    lemma_with_elements(g, elements);
    let full = g.with_elements(elements);
    let h = full.pruned();
    assert(h.adjacency == full.adjacency);
    if full.walks_paired() {
        assert forall|key: NodeKey, i: int|
            h.adjacency.contains_key(key) && 0 <= i < h.adjacency[key].len()
                && #[trigger] h.adjacency[key][i] is Walking implies h.has_edge(
            h.adjacency[key][i].reversed(),
        ) by {
            let e = full.adjacency[key][i];
            assert(full.has_edge(e.reversed()));
            assert(h.edges_from(e.reversed().origin()) == full.edges_from(e.reversed().origin()));
        }
    }
}

/// What the pathways of a stop keep of the graph they are added to.
pub proof fn lemma_with_pathways(g: GraphView, from: NodeKey, pathways: Seq<Pathway>)
    ensures
        g.with_pathways(from, pathways).nodes == g.nodes,
        g.no_empty_list() ==> g.with_pathways(from, pathways).no_empty_list(),
        g.every_node_has_an_edge() ==> g.with_pathways(from, pathways).every_node_has_an_edge(),
        g.timetable_ordered() ==> g.with_pathways(from, pathways).timetable_ordered(),
    decreases pathways.len(),
{
    if pathways.len() > 0 {
        let before = g.with_pathways(from, pathways.drop_last());
        lemma_with_pathways(g, from, pathways.drop_last());
        let pathway = pathways.last();
        let there = EdgeView::Walking {
            origin: from,
            destination: NodeKey::Stop(pathway.to_stop_id@),
            traversal_time: pathway.traversal_time,
        };
        lemma_with_edge_keeps(before, there);
        lemma_with_edge_keeps(before.with_edge(there), there.reversed());
    }
}

/// What a stop keeps of the graph it is added to.
pub proof fn lemma_with_stop(g: GraphView, stop: Stop)
    ensures
        g.with_stop(stop) matches Ok(h) ==> {
            &&& g.no_empty_list() ==> h.no_empty_list()
            &&& g.every_node_has_an_edge() ==> h.every_node_has_an_edge()
            &&& g.timetable_ordered() ==> h.timetable_ordered()
        },
{
    if g.with_stop(stop) is Ok {
        let id = NodeKey::Stop(stop.id@);
        let snap = stop.nearest->0;
        let node = Node { lon: stop.longitude->0, lat: stop.latitude->0 };
        let placed = g.with_node(id, node);
        let time = Some(walking_seconds(snap.distance));
        let tied = placed.with_walk_pair(id, snap.node@, time);
        lemma_with_walk_pair(placed, id, snap.node@, time);
        lemma_with_pathways(tied, id, stop.pathways@);
        assert(placed.timetable_ordered() == g.timetable_ordered());
        assert(placed.no_empty_list() == g.no_empty_list());
        if g.every_node_has_an_edge() {
            let there = EdgeView::Walking {
                origin: id,
                destination: snap.node@,
                traversal_time: time,
            };
            lemma_with_edge(placed, there);
            lemma_with_edge(placed.with_edge(there), there.reversed());
            assert forall|key: NodeKey| #[trigger]
                tied.nodes.contains_key(key) implies tied.adjacency.contains_key(key)
                && tied.adjacency[key].len() > 0 by {
                if key != id {
                    assert(g.nodes.contains_key(key));
                }
            }
        }
    }
}

/// What the stops keep of the graph they are added to.
pub proof fn lemma_with_stops(g: GraphView, stops: Seq<Stop>)
    ensures
        g.with_stops(stops) matches Ok(h) ==> {
            &&& g.no_empty_list() ==> h.no_empty_list()
            &&& g.every_node_has_an_edge() ==> h.every_node_has_an_edge()
            &&& g.timetable_ordered() ==> h.timetable_ordered()
        },
    decreases stops.len(),
{
    if stops.len() > 0 {
        lemma_with_stops(g, stops.drop_last());
        if let Ok(before) = g.with_stops(stops.drop_last()) {
            lemma_with_stop(before, stops.last());
        }
    }
}

/// What a trip keeps of the graph it is added to.
pub proof fn lemma_with_trip(g: GraphView, calls: Seq<StopTime>)
    ensures
        g.with_trip(calls) matches Ok(h) ==> {
            &&& h.nodes == g.nodes
            &&& g.no_empty_list() ==> h.no_empty_list()
            &&& g.every_node_has_an_edge() ==> h.every_node_has_an_edge()
            &&& g.timetable_ordered() && trip_in_order(calls) ==> h.timetable_ordered()
        },
    decreases calls.len(),
{
    if calls.len() >= 2 {
        lemma_with_trip(g, calls.drop_last());
        if let Ok(before) = g.with_trip(calls.drop_last()) {
            let from = calls[calls.len() - 2];
            let to = calls[calls.len() - 1];
            if from.departure_time is Some && to.arrival_time is Some {
                let ride = EdgeView::Transport {
                    origin: NodeKey::Stop(from.stop_id@),
                    destination: NodeKey::Stop(to.stop_id@),
                    start_time: from.departure_time->0,
                    end_time: to.arrival_time->0,
                };
                lemma_with_edge_keeps(before, ride);
                if trip_in_order(calls) {
                    assert(calls_in_order(calls[calls.len() - 2], calls[calls.len() - 2 + 1]));
                    assert forall|i: int| 0 <= i < calls.drop_last().len() - 1 implies calls_in_order(
                        #[trigger] calls.drop_last()[i],
                        calls.drop_last()[i + 1],
                    ) by {
                        assert(calls_in_order(calls[i], calls[i + 1]));
                    }
                }
            }
        }
    }
}

/// What the trips keep of the graph they are added to.
pub proof fn lemma_with_trips(g: GraphView, trips: Seq<Trip>)
    ensures
        g.with_trips(trips) matches Ok(h) ==> {
            &&& g.no_empty_list() ==> h.no_empty_list()
            &&& g.every_node_has_an_edge() ==> h.every_node_has_an_edge()
            &&& g.timetable_ordered() && trips_in_order(trips) ==> h.timetable_ordered()
        },
    decreases trips.len(),
{
    if trips.len() > 0 {
        lemma_with_trips(g, trips.drop_last());
        if let Ok(before) = g.with_trips(trips.drop_last()) {
            lemma_with_trip(before, trips.last().stop_times@);
            if trips_in_order(trips) {
                assert(trip_in_order(trips[trips.len() - 1].stop_times@));
                assert forall|i: int| 0 <= i < trips.drop_last().len() implies trip_in_order(
                    (#[trigger] trips.drop_last()[i]).stop_times@,
                ) by {
                    assert(trip_in_order(trips[i].stop_times@));
                }
            }
        }
    }
}

/// A transit archive that is taken leaves no node of the graph without an
/// outgoing edge and, if none of its trips reaches a call before it left the
/// call before, none of the rides of the graph out of order.
pub proof fn lemma_transit_ingest(g: GraphView, feed: Feed)
    ensures
        g.transit_ingest(feed) matches Ok(h) ==> {
            &&& g.no_empty_list() ==> h.no_empty_list()
            &&& g.every_node_has_an_edge() ==> h.every_node_has_an_edge()
            &&& g.timetable_ordered() && trips_in_order(feed.trips@) ==> h.timetable_ordered()
        },
{
    lemma_with_stops(g, feed.stops@);
    if let Ok(stopped) = g.with_stops(feed.stops@) {
        lemma_with_trips(stopped, feed.trips@);
    }
}

/// Stops of which the first `n` cannot be taken cannot be taken as a whole,
/// and for the same reason.
pub proof fn lemma_stops_fail_for_good(g: GraphView, stops: Seq<Stop>, n: int)
    requires
        0 <= n <= stops.len(),
    ensures
        g.with_stops(stops.take(n)) matches Err(e) ==> g.with_stops(stops) == Err::<
            GraphView,
            IngestError,
        >(e),
    decreases stops.len() - n,
{
    if n < stops.len() {
        assert(stops.take(n + 1).drop_last() =~= stops.take(n));
        lemma_stops_fail_for_good(g, stops, n + 1);
    } else {
        assert(stops.take(n) =~= stops);
    }
}

/// A trip whose first `n` calls cannot be taken cannot be taken as a whole,
/// and for the same reason.
pub proof fn lemma_trip_fails_for_good(g: GraphView, calls: Seq<StopTime>, n: int)
    requires
        0 <= n <= calls.len(),
    ensures
        g.with_trip(calls.take(n)) matches Err(e) ==> g.with_trip(calls) == Err::<
            GraphView,
            IngestError,
        >(e),
    decreases calls.len() - n,
{
    if n < calls.len() {
        assert(calls.take(n + 1).drop_last() =~= calls.take(n));
        lemma_trip_fails_for_good(g, calls, n + 1);
    } else {
        assert(calls.take(n) =~= calls);
    }
}

/// Trips of which the first `n` cannot be taken cannot be taken as a whole,
/// and for the same reason.
pub proof fn lemma_trips_fail_for_good(g: GraphView, trips: Seq<Trip>, n: int)
    requires
        0 <= n <= trips.len(),
    ensures
        g.with_trips(trips.take(n)) matches Err(e) ==> g.with_trips(trips) == Err::<
            GraphView,
            IngestError,
        >(e),
    decreases trips.len() - n,
{
    if n < trips.len() {
        assert(trips.take(n + 1).drop_last() =~= trips.take(n));
        lemma_trips_fail_for_good(g, trips, n + 1);
    } else {
        assert(trips.take(n) =~= trips);
    }
}

} // verus!
