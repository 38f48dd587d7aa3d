//! From a query to the points that the isoline is drawn around.

use crate::clock::{arrival_time_of, parse_arrival_time, parsed_time};
use crate::dijkstra::{dijkstra, is_measure, search_of, QueryError, MAX_DISTANCE};
use crate::graph::{Graph, GraphView, Node, NodeKey, Snap};
use crate::node_map::NodeMap;
use vstd::prelude::*;

verus! {

/// Answers a query whose arrival time is still text: reads the time, then
/// searches. A time that cannot be read ends the query before any search.
pub fn reachable_nodes<F: Fn(&Node, &Node) -> u32>(
    graph: &Graph,
    start: &Snap,
    arrival_time: &str,
    duration: u32,
    distance: F,
) -> (found: Result<NodeMap<u32>, QueryError>)
    requires
        is_measure(distance),
    ensures
        match arrival_time_of(parsed_time(arrival_time@, "%H:%M:%S"@)) {
            Err(e) => found == Err::<NodeMap<u32>, QueryError>(e),
            Ok(time) => match found {
                Ok(costs) => {
                    &&& start.distance <= MAX_DISTANCE
                    &&& search_of(graph@, distance, *start, time, duration).answered_by(costs@)
                    &&& forall|node: NodeKey| #[trigger]
                        costs@.contains_key(node) ==> costs@[node] <= duration
                },
                Err(e) => e == QueryError::StartTooFar && start.distance > MAX_DISTANCE,
            },
        },
{
    let time = match parse_arrival_time(arrival_time) {
        Ok(time) => time,
        Err(e) => { return Err(e); },
    };
    dijkstra(graph, start, time, duration, distance)
}

/// The position and the cost of a reached node, where the graph knows the
/// position.
pub open spec fn reached_point(graph: GraphView, costs: Map<NodeKey, u32>, node: NodeKey) -> Option<
    (Node, u32),
> {
    if graph.nodes.contains_key(node) {
        Some((graph.nodes[node], costs[node]))
    } else {
        None
    }
}

/// The positions of the reached nodes, each with the cost at which it was
/// reached, in the order in which the nodes were first reached. A node
/// whose position the graph lacks is left out.
pub fn reached_points(graph: &Graph, costs: &NodeMap<u32>) -> (points: Vec<(Node, u32)>)
    ensures
        points@ == costs.order().filter_map(
            |node: NodeKey| reached_point(graph@, costs@, node),
        ),
{
    let mut points: Vec<(Node, u32)> = Vec::new();
    let n = costs.len();
    let mut i: usize = 0;
    while i < n
        invariant
            i <= n,
            n == costs.order().len(),
            points@ == costs.order().take(i as int).filter_map(
                |node: NodeKey| reached_point(graph@, costs@, node),
            ),
        decreases n - i,
    {
        let id = costs.key(i);
        let cost = *costs.value(i);
        proof {
            assert(costs.order().take(i + 1).drop_last() =~= costs.order().take(i as int));
            assert(costs.order().take(i + 1).last() == costs.order()[i as int]);
        }
        match graph.get_node(id) {
            Some(node) => {
                points.push((*node, cost));
            },
            None => {},
        }
        i += 1;
    }
    proof {
        assert(costs.order().take(n as int) =~= costs.order());
    }
    points
}

} // verus!
