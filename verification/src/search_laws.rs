//! What holds of the costs of edges and paths, whatever the graph.

use crate::dijkstra::{edge_cost, edge_is_valid, Search};
use crate::graph::{EdgeView, GraphView, Node, NodeKey};
use vstd::prelude::*;

verus! {

/// An edge that can be taken never lowers the cost.
pub proof fn lemma_edge_cost_grows(
    graph: GraphView,
    metres: spec_fn(Node, Node) -> u32,
    edge: EdgeView,
    current_cost: int,
    start_time: int,
)
    ensures
        edge_cost(graph, metres, edge, current_cost, start_time) matches Some(cost) ==> cost
            >= current_cost,
{
}

/// Whoever is at the origin of an edge earlier can take it if the later one
/// can, and is at its far end no later.
pub proof fn lemma_edge_cost_monotone(
    graph: GraphView,
    metres: spec_fn(Node, Node) -> u32,
    edge: EdgeView,
    earlier: int,
    later: int,
    start_time: int,
)
    requires
        earlier <= later,
        edge_cost(graph, metres, edge, later, start_time) is Some,
    ensures
        edge_cost(graph, metres, edge, earlier, start_time) is Some,
        edge_cost(graph, metres, edge, earlier, start_time)->0 <= edge_cost(
            graph,
            metres,
            edge,
            later,
            start_time,
        )->0,
{
}

/// No path costs more than the budget, nor less than the start.
pub proof fn lemma_path_cost_bounds(ctx: Search, path: Seq<EdgeView>)
    ensures
        ctx.path_cost(path) matches Some(cost) ==> ctx.start_cost <= cost <= ctx.duration,
    decreases path.len(),
{
    if path.len() > 0 {
        lemma_path_cost_bounds(ctx, path.drop_last());
        if let Some(cost) = ctx.path_cost(path.drop_last()) {
            lemma_edge_cost_grows(ctx.graph, ctx.metres, path.last(), cost, ctx.start_time);
        }
    }
}

impl Search {
    /// The cost at the end of `path` for a rider without a budget: there is
    /// none only if the path leaves the graph or takes an edge that cannot
    /// be taken.
    pub open spec fn free_cost(self, path: Seq<EdgeView>) -> Option<int>
        decreases path.len(),
    {
        if path.len() == 0 {
            Some(self.start_cost)
        } else {
            match self.free_cost(path.drop_last()) {
                Some(cost) => if self.graph.edges_from(self.path_end(path.drop_last())).contains(
                    path.last(),
                ) {
                    self.step(path.last(), cost)
                } else {
                    None
                },
                None => None,
            }
        }
    }
}

/// Without a budget, the cost never falls along a path.
pub proof fn lemma_free_cost_grows(ctx: Search, path: Seq<EdgeView>)
    ensures
        ctx.free_cost(path) matches Some(cost) ==> ctx.start_cost <= cost,
        path.len() > 0 ==> (ctx.free_cost(path) matches Some(cost) ==> ctx.free_cost(
            path.drop_last(),
        ) is Some && ctx.free_cost(path.drop_last())->0 <= cost),
    decreases path.len(),
{
    if path.len() > 0 {
        lemma_free_cost_grows(ctx, path.drop_last());
        if let Some(cost) = ctx.free_cost(path.drop_last()) {
            lemma_edge_cost_grows(ctx.graph, ctx.metres, path.last(), cost, ctx.start_time);
        }
    }
}

/// The budget matters only at the end of a path: a path is within the
/// budget all the way if its cost without a budget is within it.
pub proof fn lemma_budget_matters_at_the_end(ctx: Search, path: Seq<EdgeView>)
    ensures
        ctx.path_cost(path) == match ctx.free_cost(path) {
            Some(cost) => if cost <= ctx.duration {
                Some(cost)
            } else {
                None
            },
            None => None,
        },
    decreases path.len(),
{
    if path.len() > 0 {
        lemma_budget_matters_at_the_end(ctx, path.drop_last());
        lemma_free_cost_grows(ctx, path);
    }
}

/// No two maps of costs answer the same search.
pub proof fn lemma_answer_is_unique(ctx: Search, one: Map<NodeKey, u32>, other: Map<NodeKey, u32>)
    requires
        ctx.answered_by(one),
        ctx.answered_by(other),
    ensures
        one == other,
{
    assert forall|node: NodeKey| one.contains_key(node) implies other.contains_key(node)
        && other[node] <= one[node] by {
        lemma_answers_agree(ctx, one, other, node);
    }
    assert forall|node: NodeKey| other.contains_key(node) implies one.contains_key(node)
        && one[node] <= other[node] by {
        lemma_answers_agree(ctx, other, one, node);
    }
    assert(one =~= other);
}

/// A node that one answer reaches, the other reaches no later.
proof fn lemma_answers_agree(
    ctx: Search,
    one: Map<NodeKey, u32>,
    other: Map<NodeKey, u32>,
    node: NodeKey,
)
    requires
        ctx.answered_by(one),
        ctx.answered_by(other),
        one.contains_key(node),
    ensures
        other.contains_key(node),
        other[node] <= one[node],
{
    let path = choose|path: Seq<EdgeView>|
        ctx.path_end(path) == node && #[trigger] ctx.path_cost(path) == Some(one[node] as int);
    assert(ctx.path_cost(path) is Some);
}

/// A start within the budget is reached at the start cost; a start over
/// the budget leaves nothing reached.
pub proof fn lemma_start_is_answered(ctx: Search, costs: Map<NodeKey, u32>)
    requires
        ctx.answered_by(costs),
    ensures
        ctx.start_cost <= ctx.duration ==> costs.contains_key(ctx.start) && costs[ctx.start]
            == ctx.start_cost,
        ctx.start_cost > ctx.duration ==> costs == Map::<NodeKey, u32>::empty(),
{
    if ctx.start_cost <= ctx.duration {
        assert(ctx.path_cost(Seq::empty()) == Some(ctx.start_cost));
        assert(ctx.path_end(Seq::empty()) == ctx.start);
        let path = choose|path: Seq<EdgeView>|
            ctx.path_end(path) == ctx.start && #[trigger] ctx.path_cost(path) == Some(
                costs[ctx.start] as int,
            );
        lemma_path_cost_bounds(ctx, path);
    } else {
        assert forall|node: NodeKey| !costs.contains_key(node) by {
            if costs.contains_key(node) {
                let path = choose|path: Seq<EdgeView>|
                    ctx.path_end(path) == node && #[trigger] ctx.path_cost(path) == Some(
                        costs[node] as int,
                    );
                lemma_path_cost_bounds(ctx, path);
            }
        }
        assert(costs =~= Map::<NodeKey, u32>::empty());
    }
}

/// No path gets away from a start that no edge leaves.
proof fn lemma_isolated_start_has_no_path(ctx: Search, path: Seq<EdgeView>)
    requires
        ctx.graph.edges_from(ctx.start).len() == 0,
        path.len() > 0,
    ensures
        ctx.path_cost(path) is None,
    decreases path.len(),
{
    if path.len() > 1 {
        lemma_isolated_start_has_no_path(ctx, path.drop_last());
    } else {
        assert(path.drop_last().len() == 0);
    }
}

/// From a start that no edge leaves, nothing but the start is reached.
pub proof fn lemma_isolated_start_reaches_itself_alone(ctx: Search, costs: Map<NodeKey, u32>)
    requires
        ctx.answered_by(costs),
        ctx.graph.edges_from(ctx.start).len() == 0,
    ensures
        forall|node: NodeKey| costs.contains_key(node) ==> node == ctx.start,
{
    assert forall|node: NodeKey| costs.contains_key(node) implies node == ctx.start by {
        let path = choose|path: Seq<EdgeView>|
            ctx.path_end(path) == node && #[trigger] ctx.path_cost(path) == Some(
                costs[node] as int,
            );
        if path.len() > 0 {
            lemma_isolated_start_has_no_path(ctx, path);
        }
    }
}

/// A ride that leaves before the rider can be at its origin is not taken:
/// it gives no cost to its far end.
pub proof fn lemma_missed_ride_is_not_taken(
    graph: GraphView,
    metres: spec_fn(Node, Node) -> u32,
    edge: EdgeView,
    current_cost: int,
    start_time: int,
)
    requires
        edge is Transport,
        start_time + current_cost > edge->start_time,
    ensures
        !edge_is_valid(edge, start_time, current_cost),
        edge_cost(graph, metres, edge, current_cost, start_time) is None,
{
}

/// Every edge of the graph is a walk of known traversal time.
pub open spec fn only_timed_walks(graph: GraphView) -> bool {
    forall|key: NodeKey, i: int|
        graph.adjacency.contains_key(key) && 0 <= i < graph.adjacency[key].len() ==> (
        #[trigger] graph.adjacency[key][i]) matches EdgeView::Walking {
            traversal_time: Some(_),
            ..
        }
}

/// The traversal time of a walk that has one.
pub open spec fn weight(edge: EdgeView) -> int {
    match edge {
        EdgeView::Walking { traversal_time: Some(time), .. } => time as int,
        _ => 0,
    }
}

/// The sum of the weights along `path`.
pub open spec fn length(path: Seq<EdgeView>) -> int
    decreases path.len(),
{
    if path.len() == 0 {
        0
    } else {
        length(path.drop_last()) + weight(path.last())
    }
}

impl Search {
    /// Whether `path` leaves the start and goes from node to node along
    /// edges of the graph.
    pub open spec fn follows(self, path: Seq<EdgeView>) -> bool
        decreases path.len(),
    {
        path.len() == 0 || (self.follows(path.drop_last()) && self.graph.edges_from(
            self.path_end(path.drop_last()),
        ).contains(path.last()))
    }

    /// Whether `costs` holds the single-source shortest paths of the graph
    /// under the weights of its edges: for exactly the nodes within the
    /// budget, the start cost and the length of a shortest path to each.
    pub open spec fn shortest_paths(self, costs: Map<NodeKey, u32>) -> bool {
        &&& forall|node: NodeKey| #[trigger]
            costs.contains_key(node) ==> exists|path: Seq<EdgeView>| #[trigger]
                self.follows(path) && self.path_end(path) == node && self.start_cost + length(
                    path,
                ) == costs[node]
        &&& forall|path: Seq<EdgeView>| #[trigger]
            self.follows(path) && self.start_cost + length(path) <= self.duration
                ==> costs.contains_key(self.path_end(path)) && costs[self.path_end(path)]
                <= self.start_cost + length(path)
    }
}

/// No path has a negative length.
pub proof fn lemma_length_is_not_negative(path: Seq<EdgeView>)
    ensures
        length(path) >= 0,
    decreases path.len(),
{
    if path.len() > 0 {
        lemma_length_is_not_negative(path.drop_last());
    }
}

/// On a graph of walks of known traversal times, the cost of a path is the
/// start cost and its length, as long as that stays within the budget.
pub proof fn lemma_walks_cost_their_length(ctx: Search, path: Seq<EdgeView>)
    requires
        only_timed_walks(ctx.graph),
    ensures
        ctx.path_cost(path) == if ctx.follows(path) && ctx.start_cost + length(path)
            <= ctx.duration {
            Some(ctx.start_cost + length(path))
        } else {
            None
        },
    decreases path.len(),
{
    if path.len() > 0 {
        let before = path.drop_last();
        let edge = path.last();
        lemma_walks_cost_their_length(ctx, before);
        lemma_length_is_not_negative(before);
        let at = ctx.path_end(before);
        if ctx.graph.edges_from(at).contains(edge) {
            let i = choose|i: int|
                0 <= i < ctx.graph.edges_from(at).len() && ctx.graph.edges_from(at)[i] == edge;
            assert(ctx.graph.adjacency[at][i] == edge);
        }
    }
}

/// On a graph of walks of known traversal times, what answers the search
/// is the single-source shortest paths under those times.
pub proof fn lemma_walking_only_is_shortest_paths(ctx: Search, costs: Map<NodeKey, u32>)
    requires
        only_timed_walks(ctx.graph),
        ctx.answered_by(costs),
    ensures
        ctx.shortest_paths(costs),
{
    assert forall|node: NodeKey| #[trigger] costs.contains_key(node) implies exists|
        path: Seq<EdgeView>,
    | #[trigger]
        ctx.follows(path) && ctx.path_end(path) == node && ctx.start_cost + length(path)
            == costs[node] by {
        let path = choose|path: Seq<EdgeView>|
            ctx.path_end(path) == node && #[trigger] ctx.path_cost(path) == Some(
                costs[node] as int,
            );
        lemma_walks_cost_their_length(ctx, path);
        assert(ctx.follows(path));
    }
    assert forall|path: Seq<EdgeView>| #[trigger]
        ctx.follows(path) && ctx.start_cost + length(path)
            <= ctx.duration implies costs.contains_key(ctx.path_end(path)) && costs[ctx.path_end(
        path,
    )] <= ctx.start_cost + length(path) by {
        lemma_walks_cost_their_length(ctx, path);
        assert(ctx.path_cost(path) is Some);
    }
}

} // verus!
