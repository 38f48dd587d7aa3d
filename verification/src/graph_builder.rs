//! Building the graph: street network first, transit on top of it.

use crate::dijkstra::{walking_seconds, walking_time};
use crate::graph::{adjacency_view, edge_views, TransportEdge};
use crate::graph::{Edge, EdgeView, Graph, GraphView, Node, NodeId, NodeKey, WalkingEdge};
use crate::gtfs::{Feed, Pathway, PathwayDirection, Stop, StopTime, Trip};
use crate::ingest_laws::{lemma_stops_fail_for_good, lemma_street_ingest, lemma_transit_ingest};
use crate::ingest_laws::{lemma_trip_fails_for_good, lemma_trips_fail_for_good};
use crate::node_map::NodeMap;
use crate::osm::{is_walkable_node, is_walkable_way, node_is_walkable, way_is_walkable, Element};
use vstd::prelude::*;

verus! {

/// Why a transit archive was turned down.
#[derive(Clone, Copy, Debug, PartialEq, Eq, Structural)]
pub enum IngestError {
    /// A stop lacks its longitude or its latitude.
    MissingCoordinates,
    /// A stop was given no nearest node: the spatial index was empty.
    NoGraphNodes,
    /// A call that a trip leaves from has no departure time.
    MissingDepartureTime,
    /// A call that a trip arrives at has no arrival time.
    MissingArrivalTime,
}

impl IngestError {
    /// The words of [`IngestError::message`].
    pub open spec fn text(self) -> Seq<char> {
        match self {
            IngestError::MissingCoordinates => "All stops must have coordinates"@,
            IngestError::NoGraphNodes => "There is no node to tie a stop to"@,
            IngestError::MissingDepartureTime => "All stops must have a departure time"@,
            IngestError::MissingArrivalTime => "All stops must have an arrival time"@,
        }
    }

    /// What to tell whoever asked.
    pub fn message(&self) -> (text: String)
        ensures
            text@ == self.text(),
    {
        match self {
            IngestError::MissingCoordinates => "All stops must have coordinates".to_owned(),
            IngestError::NoGraphNodes => "There is no node to tie a stop to".to_owned(),
            IngestError::MissingDepartureTime => "All stops must have a departure time".to_owned(),
            IngestError::MissingArrivalTime => "All stops must have an arrival time".to_owned(),
        }
    }
}

impl GraphView {
    /// The graph after a way: a walk there and back, of unknown traversal
    /// time, between every two consecutive nodes of `refs`.
    pub open spec fn with_way(self, refs: Seq<i64>) -> GraphView
        decreases refs.len(),
    {
        if refs.len() < 2 {
            self
        } else {
            self.with_way(refs.drop_last()).with_walk_pair(
                NodeKey::Street(refs[refs.len() - 2]),
                NodeKey::Street(refs[refs.len() - 1]),
                None,
            )
        }
    }

    /// The graph after one element of the street network.
    pub open spec fn with_element(self, element: Element) -> GraphView {
        match element {
            Element::Node { id, lon, lat, tags } => if node_is_walkable(tags@) {
                self.with_node(NodeKey::Street(id), Node { lon, lat })
            } else {
                self
            },
            Element::DenseNode { id, lon, lat } => self.with_node(
                NodeKey::Street(id),
                Node { lon, lat },
            ),
            Element::Way { refs, tags } => if way_is_walkable(tags@) {
                self.with_way(refs@)
            } else {
                self
            },
            Element::Relation => self,
        }
    }

    /// The graph after the elements in their order.
    pub open spec fn with_elements(self, elements: Seq<Element>) -> GraphView
        decreases elements.len(),
    {
        if elements.len() == 0 {
            self
        } else {
            self.with_elements(elements.drop_last()).with_element(elements.last())
        }
    }

    /// The graph after a street network: all its elements in their order,
    /// then every node that no edge leaves dropped.
    pub open spec fn street_ingest(self, elements: Seq<Element>) -> GraphView {
        self.with_elements(elements).pruned()
    }
}

/// Adds `edge` after the edges that already leave its origin.
fn add_edge(graph: &mut Graph, edge: Edge)
    ensures
        final(graph)@ == old(graph)@.with_edge(edge@),
{
    let origin = edge.origin().clone();
    let ghost e = edge@;
    let ghost list = if graph.adjacency@.contains_key(origin@) {
        graph.adjacency@[origin@]@
    } else {
        Seq::empty()
    };
    graph.adjacency.push_to(origin, edge);
    proof {
        assert(edge_views(list.push(edge)) =~= edge_views(list).push(e));
        assert(edge_views(Seq::<Edge>::empty()) =~= Seq::<EdgeView>::empty());
        assert(edge_views(list) == old(graph)@.edges_from(e.origin()));
        assert(graph@.adjacency =~= old(graph)@.with_edge(e).adjacency);
    }
}

/// Puts the node `index` at longitude `x` and latitude `y`.
fn add_node(graph: &mut Graph, index: NodeId, x: i64, y: i64)
    ensures
        final(graph)@ == old(graph)@.with_node(index@, Node { lon: x, lat: y }),
{
    graph.nodes.insert(index, Node { lon: x, lat: y });
}

/// Adds a walk from `a` to `b` and the same walk back.
fn add_walk_pair(graph: &mut Graph, a: &NodeId, b: &NodeId, traversal_time: Option<u32>)
    ensures
        final(graph)@ == old(graph)@.with_walk_pair(a@, b@, traversal_time),
{
    add_edge(
        graph,
        Edge::Walking(WalkingEdge { origin: a.clone(), destination: b.clone(), traversal_time }),
    );
    add_edge(
        graph,
        Edge::Walking(WalkingEdge { origin: b.clone(), destination: a.clone(), traversal_time }),
    );
}

/// Adds a walk each way between every two consecutive nodes of a way.
fn add_way(graph: &mut Graph, refs: &Vec<i64>)
    ensures
        final(graph)@ == old(graph)@.with_way(refs@),
{
    if refs.len() < 2 {
        return ;
    }
    let mut i: usize = 1;
    while i < refs.len()
        invariant
            1 <= i <= refs.len(),
            graph@ == old(graph)@.with_way(refs@.take(i as int)),
        decreases refs.len() - i,
    {
        let first = NodeId::Street(refs[i - 1]);
        let second = NodeId::Street(refs[i]);
        add_walk_pair(graph, &first, &second, None);
        proof {
            assert(refs@.take(i + 1).drop_last() =~= refs@.take(i as int));
        }
        i += 1;
    }
    proof {
        assert(refs@.take(i as int) =~= refs@);
    }
}

/// Takes one element of a street network, if a pedestrian may use it.
fn add_element(graph: &mut Graph, element: &Element)
    ensures
        final(graph)@ == old(graph)@.with_element(*element),
{
    match element {
        Element::Node { id, lon, lat, tags } => {
            if is_walkable_node(tags) {
                add_node(graph, NodeId::Street(*id), *lon, *lat);
            }
        },
        Element::DenseNode { id, lon, lat } => {
            add_node(graph, NodeId::Street(*id), *lon, *lat);
        },
        Element::Way { refs, tags } => {
            if is_walkable_way(tags) {
                add_way(graph, refs);
            }
        },
        Element::Relation => {},
    }
}

/// Drops every node that no edge leaves; the others keep their order.
fn clear_edgeless_nodes(graph: &mut Graph)
    ensures
        final(graph)@ == old(graph)@.pruned(),
{
    let mut kept: NodeMap<Node> = NodeMap::new();
    let n = graph.nodes.len();
    let mut i: usize = 0;
    while i < n
        invariant
            i <= n,
            n == graph.nodes.order().len(),
            forall|key: NodeKey| graph.nodes.order().contains(key) <==> graph.nodes@.contains_key(key),
            kept@ =~= Map::new(
                |key: NodeKey|
                    graph.adjacency@.contains_key(key) && graph.nodes.order().take(
                        i as int,
                    ).contains(key),
                |key: NodeKey| graph.nodes@[key],
            ),
        decreases n - i,
    {
        let id = graph.nodes.key(i);
        let ghost order = graph.nodes.order();
        proof {
            assert(order.take(i + 1) =~= order.take(i as int).push(order[i as int]));
            assert forall|key: NodeKey|
                order.take(i + 1).contains(key) <==> order.take(i as int).contains(key) || key
                    == order[i as int] by {
                if order.take(i as int).contains(key) {
                    let j = choose|j: int|
                        0 <= j < order.take(i as int).len() && order.take(i as int)[j] == key;
                    assert(order.take(i + 1)[j] == key);
                }
                if key == order[i as int] {
                    assert(order.take(i + 1)[i as int] == key);
                }
            }
        }
        if graph.adjacency.contains_key(id) {
            let node = *graph.nodes.value(i);
            kept.insert(id.clone(), node);
        }
        i += 1;
    }
    proof {
        let order = graph.nodes.order();
        assert(order.take(n as int) =~= order);
        assert(kept@ =~= graph.nodes@.restrict(adjacency_view(graph.adjacency@).dom()));
    }
    graph.nodes = kept;
}

/// Whether a trip that leaves the call `from` can arrive at the call `to` no
/// earlier than it left.
pub open spec fn calls_in_order(from: StopTime, to: StopTime) -> bool {
    from.departure_time matches Some(leaves) ==> (to.arrival_time matches Some(arrives)
        ==> leaves <= arrives)
}

/// No call of the trip is reached before the call before it is left.
pub open spec fn trip_in_order(calls: Seq<StopTime>) -> bool {
    forall|i: int| 0 <= i < calls.len() - 1 ==> calls_in_order(#[trigger] calls[i], calls[i + 1])
}

/// Every trip is in order.
pub open spec fn trips_in_order(trips: Seq<Trip>) -> bool {
    forall|i: int| 0 <= i < trips.len() ==> trip_in_order((#[trigger] trips[i]).stop_times@)
}

impl GraphView {
    /// The graph after a pathway declared by the stop `from`: a walk to the
    /// stop it names, and the walk back where it can be used both ways.
    pub open spec fn with_pathway(self, from: NodeKey, pathway: Pathway) -> GraphView {
        let there = EdgeView::Walking {
            origin: from,
            destination: NodeKey::Stop(pathway.to_stop_id@),
            traversal_time: pathway.traversal_time,
        };
        match pathway.direction {
            PathwayDirection::Unidirectional => self.with_edge(there),
            PathwayDirection::Bidirectional => self.with_edge(there).with_edge(there.reversed()),
        }
    }

    /// The graph after the pathways of the stop `from` in their order.
    pub open spec fn with_pathways(self, from: NodeKey, pathways: Seq<Pathway>) -> GraphView
        decreases pathways.len(),
    {
        if pathways.len() == 0 {
            self
        } else {
            self.with_pathways(from, pathways.drop_last()).with_pathway(from, pathways.last())
        }
    }

    /// The graph after a stop: its node, a walk to the street node nearest
    /// to it and back that takes the distance between them at walking speed,
    /// and its pathways.
    pub open spec fn with_stop(self, stop: Stop) -> Result<GraphView, IngestError> {
        if stop.longitude is None || stop.latitude is None {
            Err(IngestError::MissingCoordinates)
        } else if stop.nearest is None {
            Err(IngestError::NoGraphNodes)
        } else {
            let id = NodeKey::Stop(stop.id@);
            let snap = stop.nearest->0;
            Ok(
                self.with_node(
                    id,
                    Node { lon: stop.longitude->0, lat: stop.latitude->0 },
                ).with_walk_pair(id, snap.node@, Some(walking_seconds(snap.distance))).with_pathways(
                    id,
                    stop.pathways@,
                ),
            )
        }
    }

    /// The graph after the stops in their order, or what was wrong with the
    /// first stop that could not be taken.
    pub open spec fn with_stops(self, stops: Seq<Stop>) -> Result<GraphView, IngestError>
        decreases stops.len(),
    {
        if stops.len() == 0 {
            Ok(self)
        } else {
            match self.with_stops(stops.drop_last()) {
                Ok(g) => g.with_stop(stops.last()),
                Err(e) => Err(e),
            }
        }
    }

    /// The graph after a trip: a ride between every two consecutive calls,
    /// from the departure at the first to the arrival at the second.
    pub open spec fn with_trip(self, calls: Seq<StopTime>) -> Result<GraphView, IngestError>
        decreases calls.len(),
    {
        if calls.len() < 2 {
            Ok(self)
        } else {
            match self.with_trip(calls.drop_last()) {
                Ok(g) => {
                    let from = calls[calls.len() - 2];
                    let to = calls[calls.len() - 1];
                    if from.departure_time is None {
                        Err(IngestError::MissingDepartureTime)
                    } else if to.arrival_time is None {
                        Err(IngestError::MissingArrivalTime)
                    } else {
                        Ok(
                            g.with_edge(
                                EdgeView::Transport {
                                    origin: NodeKey::Stop(from.stop_id@),
                                    destination: NodeKey::Stop(to.stop_id@),
                                    start_time: from.departure_time->0,
                                    end_time: to.arrival_time->0,
                                },
                            ),
                        )
                    }
                },
                Err(e) => Err(e),
            }
        }
    }

    /// The graph after the trips in their order, or what was wrong with the
    /// first leg that could not be taken.
    pub open spec fn with_trips(self, trips: Seq<Trip>) -> Result<GraphView, IngestError>
        decreases trips.len(),
    {
        if trips.len() == 0 {
            Ok(self)
        } else {
            match self.with_trips(trips.drop_last()) {
                Ok(g) => g.with_trip(trips.last().stop_times@),
                Err(e) => Err(e),
            }
        }
    }

    /// The graph after a transit archive: its stops, then its trips.
    pub open spec fn transit_ingest(self, feed: Feed) -> Result<GraphView, IngestError> {
        match self.with_stops(feed.stops@) {
            Ok(g) => g.with_trips(feed.trips@),
            Err(e) => Err(e),
        }
    }
}

/// Adds the walks along the pathways that the stop `from` declares.
fn add_pathways(graph: &mut Graph, from: &NodeId, pathways: &Vec<Pathway>)
    ensures
        final(graph)@ == old(graph)@.with_pathways(from@, pathways@),
{
    let mut i: usize = 0;
    while i < pathways.len()
        invariant
            i <= pathways.len(),
            graph@ == old(graph)@.with_pathways(from@, pathways@.take(i as int)),
        decreases pathways.len() - i,
    {
        let path = &pathways[i];
        let to_id = NodeId::Stop(path.to_stop_id.clone());
        match path.direction {
            PathwayDirection::Unidirectional => {
                add_edge(
                    graph,
                    Edge::Walking(
                        WalkingEdge {
                            origin: from.clone(),
                            destination: to_id,
                            traversal_time: path.traversal_time,
                        },
                    ),
                );
            },
            PathwayDirection::Bidirectional => {
                add_walk_pair(graph, from, &to_id, path.traversal_time);
            },
        }
        proof {
            assert(pathways@.take(i + 1).drop_last() =~= pathways@.take(i as int));
        }
        i += 1;
    }
    proof {
        assert(pathways@.take(i as int) =~= pathways@);
    }
}

/// Takes one stop: its node, the walk to its nearest node and back, and
/// its pathways.
fn add_stop(graph: &mut Graph, stop: &Stop) -> (done: Result<(), IngestError>)
    ensures
        match done {
            Ok(_) => old(graph)@.with_stop(*stop) == Ok::<GraphView, IngestError>(final(graph)@),
            Err(e) => old(graph)@.with_stop(*stop) == Err::<GraphView, IngestError>(e),
        },
{
    let lon = match stop.longitude {
        Some(lon) => lon,
        None => { return Err(IngestError::MissingCoordinates); },
    };
    let lat = match stop.latitude {
        Some(lat) => lat,
        None => { return Err(IngestError::MissingCoordinates); },
    };
    let snap = match &stop.nearest {
        Some(snap) => snap,
        None => { return Err(IngestError::NoGraphNodes); },
    };
    let stop_id = NodeId::Stop(stop.id.clone());
    add_node(graph, stop_id.clone(), lon, lat);
    let traversal_time = walking_time(snap.distance);
    add_walk_pair(graph, &stop_id, &snap.node, Some(traversal_time));
    add_pathways(graph, &stop_id, &stop.pathways);
    Ok(())
}

/// Adds a ride for every leg of a trip.
fn add_trip(graph: &mut Graph, calls: &Vec<StopTime>) -> (done: Result<(), IngestError>)
    ensures
        match done {
            Ok(_) => old(graph)@.with_trip(calls@) == Ok::<GraphView, IngestError>(final(graph)@),
            Err(e) => old(graph)@.with_trip(calls@) == Err::<GraphView, IngestError>(e),
        },
{
    if calls.len() < 2 {
        return Ok(());
    }
    let mut i: usize = 1;
    while i < calls.len()
        invariant
            1 <= i <= calls.len(),
            old(graph)@.with_trip(calls@.take(i as int)) == Ok::<GraphView, IngestError>(graph@),
        decreases calls.len() - i,
    {
        proof {
            assert(calls@.take(i + 1).drop_last() =~= calls@.take(i as int));
            lemma_trip_fails_for_good(old(graph)@, calls@, i + 1);
        }
        let start_time = match calls[i - 1].departure_time {
            Some(time) => time,
            None => { return Err(IngestError::MissingDepartureTime); },
        };
        let end_time = match calls[i].arrival_time {
            Some(time) => time,
            None => { return Err(IngestError::MissingArrivalTime); },
        };
        let origin = NodeId::Stop(calls[i - 1].stop_id.clone());
        let destination = NodeId::Stop(calls[i].stop_id.clone());
        add_edge(graph, Edge::Transport(TransportEdge { origin, destination, start_time, end_time }));
        i += 1;
    }
    proof {
        assert(calls@.take(i as int) =~= calls@);
    }
    Ok(())
}

/// Collects a street network and a transit archive into a [`Graph`]. At
/// every moment each node it holds has at least one outgoing edge.
pub struct GraphBuilder {
    graph: Graph,
}

impl View for GraphBuilder {
    type V = GraphView;

    closed spec fn view(&self) -> GraphView {
        self.graph@
    }
}

impl Default for GraphBuilder {
    fn default() -> (builder: Self)
        ensures
            builder@ == GraphView::empty(),
    {
        GraphBuilder { graph: Graph::default() }
    }
}

impl GraphBuilder {
    #[verifier::type_invariant]
    spec fn inv(self) -> bool {
        self.graph@.no_empty_list() && self.graph@.every_node_has_an_edge()
    }

    /// A builder that holds nothing yet.
    pub fn new() -> (builder: Self)
        ensures
            builder@ == GraphView::empty(),
    {
        GraphBuilder { graph: Graph::default() }
    }

    /// Takes a street network: the nodes that a pedestrian may use, and a
    /// walk there and back along every way that one may use. Then drops each
    /// node that no edge leaves.
    pub fn load_osm(self, elements: &[Element]) -> (builder: Self)
        ensures
            builder@ == self@.street_ingest(elements@),
            builder@.every_node_has_an_edge(),
            self@.walks_paired() ==> builder@.walks_paired(),
            self@.timetable_ordered() ==> builder@.timetable_ordered(),
    {
        proof {
            use_type_invariant(&self);
        }
        let ghost start = self@;
        let mut graph = self.graph;
        let mut i: usize = 0;
        while i < elements.len()
            invariant
                i <= elements.len(),
                graph@ == start.with_elements(elements@.take(i as int)),
            decreases elements.len() - i,
        {
            add_element(&mut graph, &elements[i]);
            proof {
                assert(elements@.take(i + 1).drop_last() =~= elements@.take(i as int));
            }
            i += 1;
        }
        clear_edgeless_nodes(&mut graph);
        proof {
            assert(elements@.take(i as int) =~= elements@);
            lemma_street_ingest(start, elements@);
        }
        GraphBuilder { graph }
    }

    /// Takes a transit archive on top of what is there: each stop tied to
    /// the street node nearest to it, the pathways between stops, and a ride
    /// for every leg of every trip. Fails on the first stop without
    /// coordinates or without a nearest node, and on the first leg without
    /// its departure or arrival time.
    pub fn load_gtfs(self, feed: &Feed) -> (built: Result<Self, IngestError>)
        ensures
            match built {
                Ok(builder) => self@.transit_ingest(*feed) == Ok::<GraphView, IngestError>(
                    builder@,
                ),
                Err(e) => self@.transit_ingest(*feed) == Err::<GraphView, IngestError>(e),
            },
            built matches Ok(builder) ==> builder@.every_node_has_an_edge(),
            built matches Ok(builder) ==> (self@.timetable_ordered() && trips_in_order(feed.trips@)
                ==> builder@.timetable_ordered()),
    {
        proof {
            use_type_invariant(&self);
        }
        let ghost start = self@;
        let mut graph = self.graph;
        let mut i: usize = 0;
        while i < feed.stops.len()
            invariant
                i <= feed.stops.len(),
                start == self@,
                start.with_stops(feed.stops@.take(i as int)) == Ok::<GraphView, IngestError>(graph@),
            decreases feed.stops.len() - i,
        {
            proof {
                assert(feed.stops@.take(i + 1).drop_last() =~= feed.stops@.take(i as int));
                assert(feed.stops@.take(i + 1).last() == feed.stops@[i as int]);
                lemma_stops_fail_for_good(start, feed.stops@, i + 1);
            }
            match add_stop(&mut graph, &feed.stops[i]) {
                Ok(_) => {},
                Err(e) => { return Err(e); },
            }
            i += 1;
        }
        proof {
            assert(feed.stops@.take(i as int) =~= feed.stops@);
        }
        let ghost stopped = graph@;
        let mut j: usize = 0;
        while j < feed.trips.len()
            invariant
                j <= feed.trips.len(),
                self@.with_stops(feed.stops@) == Ok::<GraphView, IngestError>(stopped),
                stopped.with_trips(feed.trips@.take(j as int)) == Ok::<GraphView, IngestError>(
                    graph@,
                ),
            decreases feed.trips.len() - j,
        {
            proof {
                assert(feed.trips@.take(j + 1).drop_last() =~= feed.trips@.take(j as int));
                assert(feed.trips@.take(j + 1).last() == feed.trips@[j as int]);
                lemma_trips_fail_for_good(stopped, feed.trips@, j + 1);
            }
            match add_trip(&mut graph, &feed.trips[j].stop_times) {
                Ok(_) => {},
                Err(e) => { return Err(e); },
            }
            j += 1;
        }
        proof {
            assert(feed.trips@.take(j as int) =~= feed.trips@);
            lemma_transit_ingest(start, *feed);
        }
        Ok(GraphBuilder { graph })
    }

    /// What has been collected so far.
    pub fn graph(&self) -> (graph: &Graph)
        ensures
            graph@ == self@,
            graph@.every_node_has_an_edge(),
    {
        proof {
            use_type_invariant(self);
        }
        &self.graph
    }

    /// The graph that was collected.
    pub fn build(self) -> (graph: Graph)
        ensures
            graph@ == self@,
            graph@.every_node_has_an_edge(),
    {
        proof {
            use_type_invariant(&self);
        }
        self.graph
    }
}

} // verus!
