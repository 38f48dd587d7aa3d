//! Nodes, edges and the graph that holds them.

use crate::node_map::NodeMap;
use vstd::prelude::*;

verus! {

/// What a [`NodeId`] stands for in contracts.
pub enum NodeKey {
    Street(i64),
    Stop(Seq<char>),
}

/// Identifier of a node: either a node of the street network or a transit
/// stop. The two namespaces never collide.
#[derive(Debug, PartialEq, Eq, Hash, PartialOrd, Ord)]
pub enum NodeId {
    Street(i64),
    Stop(String),
}

impl View for NodeId {
    type V = NodeKey;

    open spec fn view(&self) -> NodeKey {
        match self {
            NodeId::Street(n) => NodeKey::Street(*n),
            NodeId::Stop(s) => NodeKey::Stop(s@),
        }
    }
}

impl Clone for NodeId {
    fn clone(&self) -> (copy: Self)
        ensures
            copy == *self,
    {
        match self {
            NodeId::Street(n) => NodeId::Street(*n),
            NodeId::Stop(s) => NodeId::Stop(s.clone()),
        }
    }
}

impl NodeId {
    /// Whether two identifiers name the same node.
    pub fn same(&self, other: &NodeId) -> (eq: bool)
        ensures
            eq == (self@ == other@),
    {
        match self {
            NodeId::Street(a) => match other {
                NodeId::Street(b) => *a == *b,
                NodeId::Stop(_) => false,
            },
            NodeId::Stop(a) => match other {
                NodeId::Street(_) => false,
                NodeId::Stop(b) => *a == *b,
            },
        }
    }
}

/// A point on the Earth's surface, in nanodegrees (WGS-84).
#[derive(Clone, Copy, Debug, PartialEq, Eq)]
pub struct Node {
    pub lon: i64,
    pub lat: i64,
}

/// The node nearest to some point, and the geodesic distance between the two
/// in whole metres.
#[derive(Debug)]
pub struct Snap {
    pub node: NodeId,
    pub distance: u32,
}

/// One scheduled segment of one trip: boards at `origin` at `start_time` and
/// arrives at `destination` at `end_time`, both in seconds past midnight.
#[derive(Debug)]
pub struct TransportEdge {
    pub origin: NodeId,
    pub destination: NodeId,
    pub start_time: u32,
    pub end_time: u32,
}

/// A walk that can be taken at any time. Without a `traversal_time` the walk
/// costs the geodesic distance between its ends at walking speed.
#[derive(Debug)]
pub struct WalkingEdge {
    pub origin: NodeId,
    pub destination: NodeId,
    pub traversal_time: Option<u32>,
}

/// A way from one node to another: on foot, or on a ride.
#[derive(Debug)]
pub enum Edge {
    Walking(WalkingEdge),
    Transport(TransportEdge),
}

/// What an [`Edge`] stands for in contracts.
pub enum EdgeView {
    Walking { origin: NodeKey, destination: NodeKey, traversal_time: Option<u32> },
    Transport { origin: NodeKey, destination: NodeKey, start_time: u32, end_time: u32 },
}

impl EdgeView {
    /// The node the edge leaves from.
    pub open spec fn origin(self) -> NodeKey {
        match self {
            EdgeView::Walking { origin, .. } => origin,
            EdgeView::Transport { origin, .. } => origin,
        }
    }

    /// The node the edge leads to.
    pub open spec fn destination(self) -> NodeKey {
        match self {
            EdgeView::Walking { destination, .. } => destination,
            EdgeView::Transport { destination, .. } => destination,
        }
    }
}

impl View for Edge {
    type V = EdgeView;

    open spec fn view(&self) -> EdgeView {
        match self {
            Edge::Walking(e) => EdgeView::Walking {
                origin: e.origin@,
                destination: e.destination@,
                traversal_time: e.traversal_time,
            },
            Edge::Transport(e) => EdgeView::Transport {
                origin: e.origin@,
                destination: e.destination@,
                start_time: e.start_time,
                end_time: e.end_time,
            },
        }
    }
}

impl Edge {
    /// The node this edge leads to.
    pub fn dest(&self) -> (id: &NodeId)
        ensures
            id@ == self@.destination(),
    {
        match self {
            Edge::Walking(e) => &e.destination,
            Edge::Transport(e) => &e.destination,
        }
    }

    /// The node this edge leaves from.
    pub fn origin(&self) -> (id: &NodeId)
        ensures
            id@ == self@.origin(),
    {
        match self {
            Edge::Walking(e) => &e.origin,
            Edge::Transport(e) => &e.origin,
        }
    }
}

/// The nodes with their positions and, for each node, the edges that leave
/// it, in the order in which they were added.
pub struct Graph {
    pub nodes: NodeMap<Node>,
    pub adjacency: NodeMap<Vec<Edge>>,
}

/// What a [`Graph`] stands for in contracts.
#[verifier::ext_equal]
pub struct GraphView {
    pub nodes: Map<NodeKey, Node>,
    pub adjacency: Map<NodeKey, Seq<EdgeView>>,
}

/// What a list of edges stands for in contracts.
pub open spec fn edge_views(list: Seq<Edge>) -> Seq<EdgeView> {
    list.map_values(|e: Edge| e@)
}

/// What the lists of outgoing edges stand for in contracts.
pub open spec fn adjacency_view(lists: Map<NodeKey, Vec<Edge>>) -> Map<NodeKey, Seq<EdgeView>> {
    Map::new(|key: NodeKey| lists.contains_key(key), |key: NodeKey| edge_views(lists[key]@))
}

impl View for Graph {
    type V = GraphView;

    open spec fn view(&self) -> GraphView {
        GraphView { nodes: self.nodes@, adjacency: adjacency_view(self.adjacency@) }
    }
}

impl EdgeView {
    /// The same walk in the other direction; a ride has no reverse.
    pub open spec fn reversed(self) -> EdgeView {
        match self {
            EdgeView::Walking { origin, destination, traversal_time } => EdgeView::Walking {
                origin: destination,
                destination: origin,
                traversal_time,
            },
            EdgeView::Transport { .. } => self,
        }
    }
}

impl GraphView {
    /// The graph without nodes or edges.
    pub open spec fn empty() -> GraphView {
        GraphView { nodes: Map::empty(), adjacency: Map::empty() }
    }

    /// The edges that leave `key`; none where the graph lists none.
    pub open spec fn edges_from(self, key: NodeKey) -> Seq<EdgeView> {
        if self.adjacency.contains_key(key) {
            self.adjacency[key]
        } else {
            Seq::empty()
        }
    }

    /// Whether `edge` is among the edges that leave its origin.
    pub open spec fn has_edge(self, edge: EdgeView) -> bool {
        self.edges_from(edge.origin()).contains(edge)
    }

    /// The graph with the node `key` put at `node`.
    pub open spec fn with_node(self, key: NodeKey, node: Node) -> GraphView {
        GraphView { nodes: self.nodes.insert(key, node), adjacency: self.adjacency }
    }

    /// The graph with `edge` added after the edges that already leave its
    /// origin.
    pub open spec fn with_edge(self, edge: EdgeView) -> GraphView {
        GraphView {
            nodes: self.nodes,
            adjacency: self.adjacency.insert(
                edge.origin(),
                self.edges_from(edge.origin()).push(edge),
            ),
        }
    }

    /// The graph with a walk from `a` to `b` and the same walk back.
    pub open spec fn with_walk_pair(
        self,
        a: NodeKey,
        b: NodeKey,
        traversal_time: Option<u32>,
    ) -> GraphView {
        let there = EdgeView::Walking { origin: a, destination: b, traversal_time };
        self.with_edge(there).with_edge(there.reversed())
    }

    /// The graph without the nodes that no edge leaves.
    pub open spec fn pruned(self) -> GraphView {
        GraphView {
            nodes: self.nodes.restrict(self.adjacency.dom()),
            adjacency: self.adjacency,
        }
    }

    /// Every node of the node map has at least one outgoing edge.
    pub open spec fn every_node_has_an_edge(self) -> bool {
        forall|key: NodeKey| #[trigger]
            self.nodes.contains_key(key) ==> self.adjacency.contains_key(key)
                && self.adjacency[key].len() > 0
    }

    /// No list of outgoing edges is empty.
    pub open spec fn no_empty_list(self) -> bool {
        forall|key: NodeKey| #[trigger]
            self.adjacency.contains_key(key) ==> self.adjacency[key].len() > 0
    }

    /// No ride arrives before it leaves.
    pub open spec fn timetable_ordered(self) -> bool {
        forall|key: NodeKey, i: int|
            self.adjacency.contains_key(key) && 0 <= i < self.adjacency[key].len()
                && #[trigger] self.adjacency[key][i] is Transport
                ==> self.adjacency[key][i]->start_time <= self.adjacency[key][i]->end_time
    }

    /// Every walk of the graph is matched by the same walk back: the ends
    /// transposed, the traversal time the same, absent or present.
    pub open spec fn walks_paired(self) -> bool {
        forall|key: NodeKey, i: int|
            self.adjacency.contains_key(key) && 0 <= i < self.adjacency[key].len()
                && #[trigger] self.adjacency[key][i] is Walking ==> self.has_edge(
                self.adjacency[key][i].reversed(),
            )
    }
}

impl Default for Graph {
    fn default() -> (graph: Self)
        ensures
            graph@ == GraphView::empty(),
    {
        let graph = Graph { nodes: NodeMap::new(), adjacency: NodeMap::new() };
        assert(graph@ =~= GraphView::empty());
        graph
    }
}

impl Graph {
    /// The edges that leave `index`, if the graph lists any.
    pub fn neighbors(&self, index: &NodeId) -> (edges: Option<&Vec<Edge>>)
        ensures
            match edges {
                Some(list) => self@.adjacency.contains_key(index@) && edge_views(list@)
                    == self@.adjacency[index@],
                None => !self@.adjacency.contains_key(index@),
            },
    {
        self.adjacency.get(index)
    }

    /// The position of `index`, if the graph knows it.
    pub fn get_node(&self, index: &NodeId) -> (node: Option<&Node>)
        ensures
            match node {
                Some(n) => self@.nodes.contains_key(index@) && *n == self@.nodes[index@],
                None => !self@.nodes.contains_key(index@),
            },
    {
        self.nodes.get(index)
    }
}

} // verus!
