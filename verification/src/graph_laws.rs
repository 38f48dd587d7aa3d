//! What adding edges does to a graph, and what it keeps.

use crate::graph::{EdgeView, GraphView, NodeKey};
use vstd::prelude::*;

verus! {

/// What `with_edge` does to the lists of edges.
pub proof fn lemma_with_edge(g: GraphView, edge: EdgeView)
    ensures
        g.with_edge(edge).nodes == g.nodes,
        g.with_edge(edge).adjacency.dom() == g.adjacency.dom().insert(edge.origin()),
        g.with_edge(edge).edges_from(edge.origin()) == g.edges_from(edge.origin()).push(edge),
        forall|key: NodeKey|
            key != edge.origin() ==> #[trigger] g.with_edge(edge).edges_from(key) == g.edges_from(
                key,
            ),
        forall|other: EdgeView| #[trigger]
            g.with_edge(edge).has_edge(other) <==> g.has_edge(other) || other == edge,
{
    let h = g.with_edge(edge);
    assert(h.adjacency.dom() =~= g.adjacency.dom().insert(edge.origin()));
    assert forall|other: EdgeView| #[trigger]
        h.has_edge(other) <==> g.has_edge(other) || other == edge by {
        let before = g.edges_from(edge.origin());
        let after = before.push(edge);
        if other.origin() == edge.origin() {
            assert(h.edges_from(other.origin()) == after);
            if g.has_edge(other) {
                let i = choose|i: int| 0 <= i < before.len() && before[i] == other;
                assert(after[i] == other);
            }
            if other == edge {
                assert(after[before.len() as int] == edge);
            }
            if h.has_edge(other) {
                let i = choose|i: int| 0 <= i < after.len() && after[i] == other;
                if i < before.len() {
                    assert(before[i] == other);
                }
            }
        } else {
            assert(h.edges_from(other.origin()) == g.edges_from(other.origin()));
        }
    }
}

/// Where an edge of `g.with_edge(edge)` comes from: it is `edge`, or it
/// stood at the same place in `g`.
pub proof fn lemma_with_edge_at(g: GraphView, edge: EdgeView, key: NodeKey, i: int)
    requires
        g.with_edge(edge).adjacency.contains_key(key),
        0 <= i < g.with_edge(edge).adjacency[key].len(),
    ensures
        g.with_edge(edge).adjacency[key][i] == edge || (g.adjacency.contains_key(key) && i
            < g.adjacency[key].len() && g.adjacency[key][i] == g.with_edge(edge).adjacency[key][i]),
{
    lemma_with_edge(g, edge);
    let h = g.with_edge(edge);
    if key != edge.origin() {
        assert(h.edges_from(key) == g.edges_from(key));
    }
}

/// What one more edge keeps of the graph it is added to.
pub proof fn lemma_with_edge_keeps(g: GraphView, edge: EdgeView)
    ensures
        g.with_edge(edge).nodes == g.nodes,
        g.with_edge(edge).adjacency.contains_key(edge.origin()),
        g.no_empty_list() ==> g.with_edge(edge).no_empty_list(),
        g.every_node_has_an_edge() ==> g.with_edge(edge).every_node_has_an_edge(),
        g.timetable_ordered() && (edge is Transport ==> edge->start_time <= edge->end_time)
            ==> g.with_edge(edge).timetable_ordered(),
{
    let h = g.with_edge(edge);
    lemma_with_edge(g, edge);
    if g.no_empty_list() {
        assert forall|key: NodeKey| #[trigger]
            h.adjacency.contains_key(key) implies h.adjacency[key].len() > 0 by {
            if key != edge.origin() {
                assert(h.edges_from(key) == g.edges_from(key));
            }
        }
    }
    if g.every_node_has_an_edge() {
        assert forall|key: NodeKey| #[trigger]
            h.nodes.contains_key(key) implies h.adjacency.contains_key(key)
            && h.adjacency[key].len() > 0 by {
            assert(g.nodes.contains_key(key));
            if key != edge.origin() {
                assert(h.edges_from(key) == g.edges_from(key));
            }
        }
    }
    if g.timetable_ordered() && (edge is Transport ==> edge->start_time <= edge->end_time) {
        assert forall|key: NodeKey, i: int|
            h.adjacency.contains_key(key) && 0 <= i < h.adjacency[key].len()
                && #[trigger] h.adjacency[key][i] is Transport implies h.adjacency[key][i]->start_time
            <= h.adjacency[key][i]->end_time by {
            lemma_with_edge_at(g, edge, key, i);
        }
    }
}

/// What a walk there and back keeps of the graph it is added to. Above all
/// it keeps the walks paired: the two walks it adds are each the other's
/// way back.
pub proof fn lemma_with_walk_pair(
    g: GraphView,
    a: NodeKey,
    b: NodeKey,
    traversal_time: Option<u32>,
)
    ensures
        g.with_walk_pair(a, b, traversal_time).nodes == g.nodes,
        g.with_walk_pair(a, b, traversal_time).adjacency.contains_key(a),
        g.with_walk_pair(a, b, traversal_time).adjacency.contains_key(b),
        g.no_empty_list() ==> g.with_walk_pair(a, b, traversal_time).no_empty_list(),
        g.every_node_has_an_edge() ==> g.with_walk_pair(
            a,
            b,
            traversal_time,
        ).every_node_has_an_edge(),
        g.timetable_ordered() ==> g.with_walk_pair(a, b, traversal_time).timetable_ordered(),
        g.walks_paired() ==> g.with_walk_pair(a, b, traversal_time).walks_paired(),
{
    let there = EdgeView::Walking { origin: a, destination: b, traversal_time };
    let back = there.reversed();
    let mid = g.with_edge(there);
    let h = mid.with_edge(back);
    lemma_with_edge(g, there);
    lemma_with_edge(mid, back);
    lemma_with_edge_keeps(g, there);
    lemma_with_edge_keeps(mid, back);
    if g.walks_paired() {
        assert(back.reversed() == there);
        assert forall|key: NodeKey, i: int|
            h.adjacency.contains_key(key) && 0 <= i < h.adjacency[key].len()
                && #[trigger] h.adjacency[key][i] is Walking implies h.has_edge(
            h.adjacency[key][i].reversed(),
        ) by {
            let e = h.adjacency[key][i];
            lemma_with_edge_at(mid, back, key, i);
            if e != back {
                lemma_with_edge_at(g, there, key, i);
            }
            let r = e.reversed();
            assert(mid.has_edge(r) <==> g.has_edge(r) || r == there);
            assert(h.has_edge(r) <==> mid.has_edge(r) || r == back);
            if e != back && e != there {
                assert(g.adjacency[key][i] == e);
                assert(g.has_edge(r));
            }
        }
    }
}

} // verus!
