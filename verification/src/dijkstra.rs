//! The search for the nodes from which the arrival point can still be
//! reached in time.
//!
//! Costs are seconds elapsed since the earliest departure, which is the
//! arrival time less the travel budget. A walk adds its traversal time to
//! the cost. A ride can be boarded only if it has not left yet, and puts the
//! cost at the moment of its arrival, however long the wait for it was.

use crate::graph::{edge_views, Edge, EdgeView, Graph, GraphView, Node, NodeId, NodeKey, Snap};
use crate::node_map::NodeMap;
use crate::queue::MinQueue;
use crate::search_laws::lemma_path_cost_bounds;
use crate::search_state::{all_settled, labelled, queued, relaxed, settled, started};
use crate::search_state::{lemma_closed_answers, lemma_improve, lemma_relaxed_stays};
use crate::search_state::{lemma_settled_stays, lemma_skip, lemma_visit};
use vstd::prelude::*;

verus! {

/// Metres walked per second.
pub const WALKING_SPEED: u32 = 1;

/// The farthest, in metres, that the nearest node may lie from the point a
/// search starts at.
pub const MAX_DISTANCE: u32 = 500;

/// Why a query was turned down.
#[derive(Clone, Copy, Debug, PartialEq, Eq, Structural)]
pub enum QueryError {
    /// The arrival time is no time of day written as `HH:MM:SS`.
    BadTime,
    /// The nearest node lies more than [`MAX_DISTANCE`] metres away.
    StartTooFar,
}

impl QueryError {
    /// The words of [`QueryError::message`].
    pub open spec fn text(self) -> Seq<char> {
        match self {
            QueryError::BadTime => "Invalid arrival time"@,
            QueryError::StartTooFar => "Start node is too far away"@,
        }
    }

    /// What to tell whoever asked.
    pub fn message(&self) -> (text: String)
        ensures
            text@ == self.text(),
    {
        match self {
            QueryError::BadTime => "Invalid arrival time".to_owned(),
            QueryError::StartTooFar => "Start node is too far away".to_owned(),
        }
    }
}

/// The seconds it takes to walk `distance` metres.
pub open spec fn walking_seconds(distance: u32) -> u32 {
    distance / WALKING_SPEED
}

/// The seconds it takes to walk `distance` metres.
pub fn walking_time(distance: u32) -> (seconds: u32)
    ensures
        seconds == walking_seconds(distance),
{
    distance / WALKING_SPEED
}

/// Whether `distance` can be asked about any two points and gives one answer
/// for the same two points, whenever it is asked.
pub open spec fn is_measure<F: Fn(&Node, &Node) -> u32>(distance: F) -> bool {
    &&& forall|a: Node, b: Node| #[trigger] call_requires(distance, (&a, &b))
    &&& forall|a: Node, b: Node, d1: u32, d2: u32|
        #![trigger call_ensures(distance, (&a, &b), d1), call_ensures(distance, (&a, &b), d2)]
        call_ensures(distance, (&a, &b), d1) && call_ensures(distance, (&a, &b), d2) ==> d1 == d2
}

/// The answer that `distance` gives for `a` and `b`.
pub open spec fn measured<F: Fn(&Node, &Node) -> u32>(distance: F, a: Node, b: Node) -> u32 {
    choose|d: u32| call_ensures(distance, (&a, &b), d)
}

/// What a search is asked: the graph, the metres between any two points,
/// the node it starts at and the cost there, the earliest departure in
/// seconds past midnight, and the travel budget in seconds.
pub struct Search {
    pub graph: GraphView,
    pub metres: spec_fn(Node, Node) -> u32,
    pub start: NodeKey,
    pub start_cost: int,
    pub start_time: int,
    pub duration: int,
}

/// A walk can always be taken. A ride can be taken if it leaves no earlier
/// than the rider, who set out at `start_time` and has spent `current_cost`
/// seconds since, is there to board it.
pub open spec fn edge_is_valid(edge: EdgeView, start_time: int, current_cost: int) -> bool {
    match edge {
        EdgeView::Walking { .. } => true,
        EdgeView::Transport { start_time: leaves, .. } => leaves >= start_time + current_cost,
    }
}

/// The seconds that the walk from `origin` to `destination` takes: its
/// traversal time, or else the time to walk the metres between the two
/// nodes. Unknown where the graph lacks the position of either.
pub open spec fn walk_time(
    graph: GraphView,
    metres: spec_fn(Node, Node) -> u32,
    origin: NodeKey,
    destination: NodeKey,
    traversal_time: Option<u32>,
) -> Option<int> {
    match traversal_time {
        Some(time) => Some(time as int),
        None => if graph.nodes.contains_key(origin) && graph.nodes.contains_key(destination) {
            Some(walking_seconds(metres(graph.nodes[origin], graph.nodes[destination])) as int)
        } else {
            None
        },
    }
}

/// The cost at the far end of `edge` for a rider who set out at
/// `start_time` and is at its origin at `current_cost`, where the edge can
/// be taken. A walk of unknown time cannot, nor can a ride that arrives
/// before it leaves.
pub open spec fn edge_cost(
    graph: GraphView,
    metres: spec_fn(Node, Node) -> u32,
    edge: EdgeView,
    current_cost: int,
    start_time: int,
) -> Option<int> {
    if !edge_is_valid(edge, start_time, current_cost) {
        None
    } else {
        match edge {
            EdgeView::Walking { origin, destination, traversal_time } => match walk_time(
                graph,
                metres,
                origin,
                destination,
                traversal_time,
            ) {
                Some(time) => Some(current_cost + time),
                None => None,
            },
            EdgeView::Transport { start_time: leaves, end_time: arrives, .. } => if leaves
                <= arrives {
                Some(arrives - start_time)
            } else {
                None
            },
        }
    }
}

/// The metres that `distance` gives, as a function of two points.
pub open spec fn metres_of<F: Fn(&Node, &Node) -> u32>(distance: F) -> spec_fn(Node, Node) -> u32 {
    |a: Node, b: Node| measured(distance, a, b)
}

impl Search {
    /// The cost at the far end of `edge` for a rider who is at its origin at
    /// `current_cost`, where the edge can be taken.
    pub open spec fn step(self, edge: EdgeView, current_cost: int) -> Option<int> {
        edge_cost(self.graph, self.metres, edge, current_cost, self.start_time)
    }

    /// The node at which `path` ends.
    pub open spec fn path_end(self, path: Seq<EdgeView>) -> NodeKey {
        if path.len() == 0 {
            self.start
        } else {
            path.last().destination()
        }
    }

    /// The cost at the end of `path`, which leaves the start at the start
    /// cost and takes, at each node it comes to, one of the edges that the
    /// graph lists for that node. There is none if one of its edges cannot
    /// be taken or if the cost goes over the budget anywhere on the way.
    pub open spec fn path_cost(self, path: Seq<EdgeView>) -> Option<int>
        decreases path.len(),
    {
        if path.len() == 0 {
            if self.start_cost <= self.duration {
                Some(self.start_cost)
            } else {
                None
            }
        } else {
            match self.path_cost(path.drop_last()) {
                Some(cost) => {
                    if self.graph.edges_from(self.path_end(path.drop_last())).contains(
                        path.last(),
                    ) {
                        match self.step(path.last(), cost) {
                            Some(next) => if next <= self.duration {
                                Some(next)
                            } else {
                                None
                            },
                            None => None,
                        }
                    } else {
                        None
                    }
                },
                None => None,
            }
        }
    }

    /// Whether `costs` holds, for exactly the nodes that some path reaches
    /// within the budget, the least cost at which a path reaches each.
    pub open spec fn answered_by(self, costs: Map<NodeKey, u32>) -> bool {
        &&& forall|node: NodeKey| #[trigger]
            costs.contains_key(node) ==> exists|path: Seq<EdgeView>|
                self.path_end(path) == node && #[trigger] self.path_cost(path) == Some(
                    costs[node] as int,
                )
        &&& forall|path: Seq<EdgeView>| #[trigger]
            self.path_cost(path) is Some ==> costs.contains_key(self.path_end(path))
                && costs[self.path_end(path)] <= self.path_cost(path)->0
    }
}

/// Whether a rider who set out at `start_time` and has spent `current_cost`
/// seconds since can take `edge`.
pub fn is_valid_edge(edge: &Edge, start_time: i64, current_cost: u32) -> (valid: bool)
    ensures
        valid == edge_is_valid(edge@, start_time as int, current_cost as int),
{
    match edge {
        Edge::Walking(_) => true,
        Edge::Transport(e) => e.start_time as i64 - current_cost as i64 >= start_time,
    }
}

/// The seconds it takes to walk between two nodes of the graph the
/// distance that `distance` gives for them.
pub fn calculate_walking_time<F: Fn(&Node, &Node) -> u32>(
    graph: &Graph,
    start_node: &NodeId,
    end_node: &NodeId,
    distance: &F,
) -> (seconds: Option<u32>)
    requires
        is_measure(*distance),
    ensures
        match seconds {
            Some(time) => walk_time(graph@, metres_of(*distance), start_node@, end_node@, None)
                == Some(time as int),
            None => walk_time(graph@, metres_of(*distance), start_node@, end_node@, None) is None,
        },
{
    let start_node = match graph.get_node(start_node) {
        Some(node) => node,
        None => { return None; },
    };
    let end_node = match graph.get_node(end_node) {
        Some(node) => node,
        None => { return None; },
    };
    let metres = distance(start_node, end_node);
    Some(walking_time(metres))
}

/// The cost at the far end of `edge` for a rider who set out at
/// `start_time` and is at its origin at `current_cost`; none where the edge
/// cannot be taken.
pub fn calculate_edge_cost<F: Fn(&Node, &Node) -> u32>(
    edge: &Edge,
    current_cost: u32,
    graph: &Graph,
    start_time: i64,
    distance: &F,
) -> (cost: Option<u64>)
    requires
        is_measure(*distance),
    ensures
        match cost {
            Some(c) => edge_cost(
                graph@,
                metres_of(*distance),
                edge@,
                current_cost as int,
                start_time as int,
            ) == Some(c as int),
            None => edge_cost(
                graph@,
                metres_of(*distance),
                edge@,
                current_cost as int,
                start_time as int,
            ) is None,
        },
{
    if !is_valid_edge(edge, start_time, current_cost) {
        return None;
    }
    match edge {
        Edge::Walking(e) => {
            let time: u32 = match e.traversal_time {
                Some(time) => time,
                None => match calculate_walking_time(graph, edge.origin(), edge.dest(), distance) {
                    Some(time) => time,
                    None => { return None; },
                },
            };
            Some(current_cost as u64 + time as u64)
        },
        Edge::Transport(e) => {
            if e.start_time <= e.end_time {
                Some((e.end_time as i128 - start_time as i128) as u64)
            } else {
                None
            }
        },
    }
}

/// What a search from the node `start` snaps to is asked, for an arrival at
/// `arrival_time` seconds past midnight and a budget of `duration` seconds.
pub open spec fn search_of<F: Fn(&Node, &Node) -> u32>(
    graph: GraphView,
    distance: F,
    start: Snap,
    arrival_time: u32,
    duration: u32,
) -> Search {
    Search {
        graph,
        metres: metres_of(distance),
        start: start.node@,
        start_cost: walking_seconds(start.distance) as int,
        start_time: arrival_time - duration,
        duration: duration as int,
    }
}

/// Relaxes every edge that leaves `position`, which has just been settled
/// at `current_cost`.
fn settle<F: Fn(&Node, &Node) -> u32>(
    graph: &Graph,
    position: &NodeId,
    current_cost: u32,
    start_time: i64,
    duration: u32,
    distance: &F,
    distances: &mut NodeMap<u32>,
    queue: &mut MinQueue,
    Ghost(ctx): Ghost<Search>,
    Ghost(done): Ghost<Set<NodeKey>>,
    Ghost(paths): Ghost<Map<NodeKey, Seq<EdgeView>>>,
) -> (found: Ghost<Map<NodeKey, Seq<EdgeView>>>)
    requires
        is_measure(*distance),
        ctx.graph == graph@,
        ctx.metres == metres_of(*distance),
        ctx.start_time == start_time,
        ctx.duration == duration,
        done.contains(position@),
        old(distances)@.contains_key(position@),
        old(distances)@[position@] == current_cost,
        labelled(ctx, old(distances)@, paths),
        queued(old(distances)@, done, old(queue)@),
        started(ctx, old(distances)@),
        all_settled(ctx, old(distances)@, done.remove(position@)),
        forall|u: NodeKey| #[trigger] done.contains(u) ==> old(distances)@[u] <= current_cost,
    ensures
        labelled(ctx, final(distances)@, found@),
        queued(final(distances)@, done, final(queue)@),
        started(ctx, final(distances)@),
        all_settled(ctx, final(distances)@, done),
        !graph@.adjacency.contains_key(position@) ==> final(queue)@ == old(queue)@,
{
    let ghost at = position@;
    let ghost mut paths = paths;
    let edges = match graph.neighbors(position) {
        Some(edges) => edges,
        None => {
            proof {
                assert(ctx.graph.edges_from(at).len() == 0);
                assert forall|u: NodeKey| #[trigger] done.contains(u) implies settled(
                    ctx,
                    distances@,
                    u,
                ) by {
                    if u != at {
                        assert(done.remove(at).contains(u));
                    }
                }
            }
            return Ghost(paths);
        },
    };
    let mut j: usize = 0;
    while j < edges.len()
        invariant
            j <= edges.len(),
            is_measure(*distance),
            ctx.graph == graph@,
            ctx.metres == metres_of(*distance),
            ctx.start_time == start_time,
            ctx.duration == duration,
            at == position@,
            edge_views(edges@) == ctx.graph.edges_from(at),
            done.contains(at),
            distances@.contains_key(at),
            distances@[at] == current_cost,
            labelled(ctx, distances@, paths),
            queued(distances@, done, queue@),
            started(ctx, distances@),
            all_settled(ctx, distances@, done.remove(at)),
            forall|u: NodeKey| #[trigger] done.contains(u) ==> distances@[u] <= current_cost,
            forall|i: int|
                0 <= i < j ==> relaxed(
                    ctx,
                    distances@,
                    current_cost as int,
                    #[trigger] ctx.graph.edges_from(at)[i],
                ),
        decreases edges.len() - j,
    {
        let edge = &edges[j];
        let ghost e = edge@;
        proof {
            assert(ctx.graph.edges_from(at)[j as int] == e);
        }
        let new_cost = calculate_edge_cost(edge, current_cost, graph, start_time, distance);
        let within: Option<u32> = match new_cost {
            Some(cost) => if cost <= duration as u64 {
                Some(cost as u32)
            } else {
                None
            },
            None => None,
        };
        match within {
            Some(cost) => {
                let better = match distances.get(edge.dest()) {
                    Some(old_cost) => *old_cost > cost,
                    None => true,
                };
                if better {
                    let ghost before = distances@;
                    proof {
                        assert(ctx.graph.edges_from(at).contains(e));
                        lemma_improve(ctx, before, done, queue@, paths, at, e, cost);
                        paths = paths.insert(e.destination(), paths[at].push(e));
                    }
                    distances.insert(edge.dest().clone(), cost);
                    queue.push(cost, edge.dest().clone());
                    proof {
                        let after = distances@;
                        assert forall|u: NodeKey| #[trigger]
                            done.remove(at).contains(u) implies settled(ctx, after, u) by {
                            assert(done.contains(u));
                            assert(settled(ctx, before, u));
                            lemma_settled_stays(ctx, before, after, u);
                        }
                        assert forall|i: int| 0 <= i < j implies relaxed(
                            ctx,
                            after,
                            current_cost as int,
                            #[trigger] ctx.graph.edges_from(at)[i],
                        ) by {
                            lemma_relaxed_stays(
                                ctx,
                                before,
                                after,
                                current_cost as int,
                                ctx.graph.edges_from(at)[i],
                            );
                        }
                        assert forall|u: NodeKey| #[trigger] done.contains(u) implies after[u]
                            <= current_cost by {
                            assert(before[u] <= current_cost);
                        }
                    }
                }
            },
            None => {},
        }
        j += 1;
    }
    proof {
        assert forall|u: NodeKey| #[trigger] done.contains(u) implies settled(ctx, distances@, u) by {
            if u != at {
                assert(done.remove(at).contains(u));
            }
        }
    }
    Ghost(paths)
}

/// Finds every node from which a rider can still reach the point that
/// `start` snaps to by `arrival_time`, having set out no earlier than
/// `duration` seconds before, and the least cost at which each is reached.
/// The cost at the start is the walk over the distance to it. Fails with
/// `StartTooFar`, and only so, where that distance is over [`MAX_DISTANCE`].
///
/// `distance` gives the metres between two points; it is asked for the ends
/// of each walk whose traversal time the graph does not know.
pub fn dijkstra<F: Fn(&Node, &Node) -> u32>(
    graph: &Graph,
    start: &Snap,
    arrival_time: u32,
    duration: u32,
    distance: F,
) -> (found: Result<NodeMap<u32>, QueryError>)
    requires
        is_measure(distance),
    ensures
        match found {
            Ok(costs) => {
                &&& start.distance <= MAX_DISTANCE
                &&& search_of(graph@, distance, *start, arrival_time, duration).answered_by(costs@)
                &&& forall|node: NodeKey| #[trigger]
                    costs@.contains_key(node) ==> costs@[node] <= duration
            },
            Err(e) => e == QueryError::StartTooFar && start.distance > MAX_DISTANCE,
        },
{
    if start.distance > MAX_DISTANCE {
        return Err(QueryError::StartTooFar);
    }
    let start_time: i64 = arrival_time as i64 - duration as i64;
    let start_cost = walking_time(start.distance);
    let ghost ctx = search_of(graph@, distance, *start, arrival_time, duration);

    let mut distances: NodeMap<u32> = NodeMap::new();
    let mut visited: NodeMap<bool> = NodeMap::new();
    let mut queue = MinQueue::new();
    let ghost mut paths: Map<NodeKey, Seq<EdgeView>> = Map::empty();
    if start_cost <= duration {
        distances.insert(start.node.clone(), start_cost);
        queue.push(start_cost, start.node.clone());
        proof {
            paths = paths.insert(ctx.start, Seq::empty());
            assert(ctx.path_cost(Seq::empty()) == Some(start_cost as int));
        }
    }
    // The graph lists edges for finitely many nodes, which bounds the search.
    let _listed = graph.adjacency.len();
    proof {
        assert(queued(distances@, visited@.dom(), queue@));
    }
    loop
        invariant
            is_measure(distance),
            ctx == search_of(graph@, distance, *start, arrival_time, duration),
            start_time == arrival_time - duration,
            graph.adjacency@.dom().finite(),
            labelled(ctx, distances@, paths),
            queued(distances@, visited@.dom(), queue@),
            started(ctx, distances@),
            all_settled(ctx, distances@, visited@.dom()),
        ensures
            queue@.len() == 0,
        decreases graph.adjacency@.dom().difference(visited@.dom()).len(), queue@.len(),
    {
        let ghost done = visited@.dom();
        let ghost waiting = queue@;
        let (current_cost, position) = match queue.pop() {
            Some(least) => least,
            None => { break ; },
        };
        let ghost x = (current_cost, position@);
        if visited.contains_key(&position) {
            proof {
                lemma_skip(distances@, done, waiting, x);
            }
        } else {
            proof {
                lemma_visit(distances@, done, waiting, x);
            }
            visited.insert(position.clone(), true);
            proof {
                assert(visited@.dom() =~= done.insert(position@));
                assert(visited@.dom().remove(position@) =~= done);
            }
            let ghost rest = queue@;
            let found = settle(
                graph,
                &position,
                current_cost,
                start_time,
                duration,
                &distance,
                &mut distances,
                &mut queue,
                Ghost(ctx),
                Ghost(visited@.dom()),
                Ghost(paths),
            );
            proof {
                paths = found@;
                let unsettled = graph.adjacency@.dom().difference(done);
                let left = graph.adjacency@.dom().difference(visited@.dom());
                if graph.adjacency@.contains_key(position@) {
                    assert(unsettled.contains(position@));
                    assert(left =~= unsettled.remove(position@));
                } else {
                    assert(!graph@.adjacency.contains_key(position@));
                    assert(left =~= unsettled);
                    assert(queue@ == rest);
                }
            }
        }
    }
    proof {
        assert forall|u: NodeKey| #[trigger] distances@.contains_key(u) implies settled(
            ctx,
            distances@,
            u,
        ) by {
            if !visited@.dom().contains(u) {
                assert(queue@.count((distances@[u], u)) > 0);
            }
            assert(visited@.dom().contains(u));
        }
        lemma_closed_answers(ctx, distances@, paths);
        assert forall|node: NodeKey| #[trigger] distances@.contains_key(node) implies distances@[node]
            <= duration by {
            lemma_path_cost_bounds(ctx, paths[node]);
        }
    }
    Ok(distances)
}

} // verus!
