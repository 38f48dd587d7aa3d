//! What holds while a search runs, and why what it ends with answers it.

use crate::dijkstra::Search;
use crate::graph::{EdgeView, NodeKey};
use crate::search_laws::{lemma_edge_cost_grows, lemma_edge_cost_monotone};
use vstd::multiset::Multiset;
use vstd::prelude::*;

verus! {

/// Each labelled node has a path that ends at it and costs its label.
pub(crate) open spec fn labelled(
    ctx: Search,
    dist: Map<NodeKey, u32>,
    paths: Map<NodeKey, Seq<EdgeView>>,
) -> bool {
    forall|v: NodeKey| #[trigger]
        dist.contains_key(v) ==> ctx.path_end(paths[v]) == v && ctx.path_cost(paths[v]) == Some(
            dist[v] as int,
        )
}

/// How labels, settled nodes and the queue hang together.
pub(crate) open spec fn queued(
    dist: Map<NodeKey, u32>,
    done: Set<NodeKey>,
    queue: Multiset<(u32, NodeKey)>,
) -> bool {
    &&& forall|v: NodeKey|
        dist.contains_key(v) && !done.contains(v) ==> queue.count((#[trigger] dist[v], v)) > 0
    &&& forall|x: (u32, NodeKey)| #[trigger]
        queue.count(x) > 0 ==> dist.contains_key(x.1) && dist[x.1] <= x.0
    &&& forall|u: NodeKey| #[trigger] done.contains(u) ==> dist.contains_key(u)
    &&& forall|u: NodeKey, x: (u32, NodeKey)|
        #![trigger done.contains(u), queue.count(x)]
        done.contains(u) && queue.count(x) > 0 ==> dist[u] <= x.0
}

/// The label of the far end of `edge` is no worse than what the edge gives
/// to a rider who is at its origin at `cur`.
pub(crate) open spec fn relaxed(
    ctx: Search,
    dist: Map<NodeKey, u32>,
    cur: int,
    edge: EdgeView,
) -> bool {
    ctx.step(edge, cur) matches Some(cost) ==> (cost <= ctx.duration ==> dist.contains_key(
        edge.destination(),
    ) && dist[edge.destination()] <= cost)
}

/// All edges that leave `u` are relaxed from the label of `u`.
pub(crate) open spec fn settled(ctx: Search, dist: Map<NodeKey, u32>, u: NodeKey) -> bool {
    forall|i: int|
        0 <= i < ctx.graph.edges_from(u).len() ==> relaxed(
            ctx,
            dist,
            dist[u] as int,
            #[trigger] ctx.graph.edges_from(u)[i],
        )
}

/// Every settled node is settled indeed.
pub(crate) open spec fn all_settled(
    ctx: Search,
    dist: Map<NodeKey, u32>,
    done: Set<NodeKey>,
) -> bool {
    forall|u: NodeKey| #[trigger] done.contains(u) ==> settled(ctx, dist, u)
}

/// A start within the budget is labelled, and no worse than the start cost.
pub(crate) open spec fn started(ctx: Search, dist: Map<NodeKey, u32>) -> bool {
    ctx.start_cost <= ctx.duration ==> dist.contains_key(ctx.start) && dist[ctx.start]
        <= ctx.start_cost
}

/// `after` labels every node that `before` labels, and no worse.
pub(crate) open spec fn improves(before: Map<NodeKey, u32>, after: Map<NodeKey, u32>) -> bool {
    forall|v: NodeKey| #[trigger]
        before.contains_key(v) ==> after.contains_key(v) && after[v] <= before[v]
}

pub(crate) proof fn lemma_relaxed_stays(
    ctx: Search,
    before: Map<NodeKey, u32>,
    after: Map<NodeKey, u32>,
    cur: int,
    edge: EdgeView,
)
    requires
        improves(before, after),
        relaxed(ctx, before, cur, edge),
    ensures
        relaxed(ctx, after, cur, edge),
{
    if ctx.step(edge, cur) is Some && ctx.step(edge, cur)->0 <= ctx.duration {
        assert(before.contains_key(edge.destination()));
    }
}

pub(crate) proof fn lemma_settled_stays(
    ctx: Search,
    before: Map<NodeKey, u32>,
    after: Map<NodeKey, u32>,
    u: NodeKey,
)
    requires
        improves(before, after),
        settled(ctx, before, u),
        before.contains_key(u),
        after[u] == before[u],
    ensures
        settled(ctx, after, u),
{
    assert forall|i: int| 0 <= i < ctx.graph.edges_from(u).len() implies relaxed(
        ctx,
        after,
        after[u] as int,
        #[trigger] ctx.graph.edges_from(u)[i],
    ) by {
        lemma_relaxed_stays(ctx, before, after, before[u] as int, ctx.graph.edges_from(u)[i]);
    }
}

/// Where every labelled node is settled, no path does better than the
/// label of the node it ends at.
pub(crate) proof fn lemma_path_bound(ctx: Search, dist: Map<NodeKey, u32>, path: Seq<EdgeView>)
    requires
        started(ctx, dist),
        forall|u: NodeKey| #[trigger] dist.contains_key(u) ==> settled(ctx, dist, u),
    ensures
        ctx.path_cost(path) matches Some(cost) ==> dist.contains_key(ctx.path_end(path))
            && dist[ctx.path_end(path)] <= cost,
    decreases path.len(),
{
    if path.len() > 0 && ctx.path_cost(path) is Some {
        let before = path.drop_last();
        let edge = path.last();
        lemma_path_bound(ctx, dist, before);
        let at = ctx.path_end(before);
        let cost = ctx.path_cost(before)->0;
        assert(dist.contains_key(at) && dist[at] <= cost);
        assert(settled(ctx, dist, at));
        let i = choose|i: int|
            0 <= i < ctx.graph.edges_from(at).len() && ctx.graph.edges_from(at)[i] == edge;
        assert(relaxed(ctx, dist, dist[at] as int, ctx.graph.edges_from(at)[i]));
        lemma_edge_cost_monotone(
            ctx.graph,
            ctx.metres,
            edge,
            dist[at] as int,
            cost,
            ctx.start_time,
        );
    }
}

/// Labels that paths attain and that no edge can improve answer the search.
pub(crate) proof fn lemma_closed_answers(
    ctx: Search,
    dist: Map<NodeKey, u32>,
    paths: Map<NodeKey, Seq<EdgeView>>,
)
    requires
        labelled(ctx, dist, paths),
        started(ctx, dist),
        forall|u: NodeKey| #[trigger] dist.contains_key(u) ==> settled(ctx, dist, u),
    ensures
        ctx.answered_by(dist),
{
    assert forall|node: NodeKey| #[trigger] dist.contains_key(node) implies exists|
        path: Seq<EdgeView>,
    |
        ctx.path_end(path) == node && #[trigger] ctx.path_cost(path) == Some(
            dist[node] as int,
        ) by {
        assert(ctx.path_end(paths[node]) == node && ctx.path_cost(paths[node]) == Some(
            dist[node] as int,
        ));
    }
    assert forall|path: Seq<EdgeView>| #[trigger] ctx.path_cost(path) is Some implies dist.contains_key(
        ctx.path_end(path),
    ) && dist[ctx.path_end(path)] <= ctx.path_cost(path)->0 by {
        lemma_path_bound(ctx, dist, path);
    }
}

/// Taking out an entry whose node is settled keeps the queue in step.
pub(crate) proof fn lemma_skip(
    dist: Map<NodeKey, u32>,
    done: Set<NodeKey>,
    queue: Multiset<(u32, NodeKey)>,
    x: (u32, NodeKey),
)
    requires
        queued(dist, done, queue),
        queue.count(x) > 0,
        done.contains(x.1),
    ensures
        queued(dist, done, queue.remove(x)),
{
    let rest = queue.remove(x);
    assert forall|v: NodeKey| dist.contains_key(v) && !done.contains(v) implies rest.count(
        (#[trigger] dist[v], v),
    ) > 0 by {
        assert(queue.count((dist[v], v)) > 0);
    }
    assert forall|y: (u32, NodeKey)| #[trigger] rest.count(y) > 0 implies dist.contains_key(y.1)
        && dist[y.1] <= y.0 by {
        assert(queue.count(y) > 0);
    }
    assert forall|u: NodeKey, y: (u32, NodeKey)|
        #![trigger done.contains(u), rest.count(y)]
        done.contains(u) && rest.count(y) > 0 implies dist[u] <= y.0 by {
        assert(queue.count(y) > 0);
    }
}

/// A cheapest entry whose node is not settled yet carries the label of its
/// node, and settling that node keeps the queue in step.
pub(crate) proof fn lemma_visit(
    dist: Map<NodeKey, u32>,
    done: Set<NodeKey>,
    queue: Multiset<(u32, NodeKey)>,
    x: (u32, NodeKey),
)
    requires
        queued(dist, done, queue),
        queue.count(x) > 0,
        !done.contains(x.1),
        forall|y: (u32, NodeKey)| #[trigger] queue.count(y) > 0 ==> x.0 <= y.0,
    ensures
        dist.contains_key(x.1),
        dist[x.1] == x.0,
        queued(dist, done.insert(x.1), queue.remove(x)),
        forall|u: NodeKey| #[trigger] done.insert(x.1).contains(u) ==> dist[u] <= x.0,
{
    let rest = queue.remove(x);
    let more = done.insert(x.1);
    assert(dist.contains_key(x.1) && dist[x.1] <= x.0);
    assert(queue.count((dist[x.1], x.1)) > 0);
    assert forall|v: NodeKey| dist.contains_key(v) && !more.contains(v) implies rest.count(
        (#[trigger] dist[v], v),
    ) > 0 by {
        assert(queue.count((dist[v], v)) > 0);
    }
    assert forall|y: (u32, NodeKey)| #[trigger] rest.count(y) > 0 implies dist.contains_key(y.1)
        && dist[y.1] <= y.0 by {
        assert(queue.count(y) > 0);
    }
    assert forall|u: NodeKey, y: (u32, NodeKey)|
        #![trigger more.contains(u), rest.count(y)]
        more.contains(u) && rest.count(y) > 0 implies dist[u] <= y.0 by {
        assert(queue.count(y) > 0);
        if u != x.1 {
            assert(done.contains(u));
        }
    }
    assert forall|u: NodeKey| #[trigger] more.contains(u) implies dist[u] <= x.0 by {
        if u != x.1 {
            assert(done.contains(u));
        }
    }
}

/// Giving the far end of an edge a better label, and queueing it, keeps
/// labels, queue and settled nodes in step.
pub(crate) proof fn lemma_improve(
    ctx: Search,
    dist: Map<NodeKey, u32>,
    done: Set<NodeKey>,
    queue: Multiset<(u32, NodeKey)>,
    paths: Map<NodeKey, Seq<EdgeView>>,
    v: NodeKey,
    edge: EdgeView,
    cost: u32,
)
    requires
        labelled(ctx, dist, paths),
        queued(dist, done, queue),
        started(ctx, dist),
        done.contains(v),
        forall|u: NodeKey| #[trigger] done.contains(u) ==> dist[u] <= dist[v],
        ctx.graph.edges_from(v).contains(edge),
        ctx.step(edge, dist[v] as int) == Some(cost as int),
        cost <= ctx.duration,
        !dist.contains_key(edge.destination()) || cost < dist[edge.destination()],
    ensures
        !done.contains(edge.destination()),
        labelled(
            ctx,
            dist.insert(edge.destination(), cost),
            paths.insert(edge.destination(), paths[v].push(edge)),
        ),
        queued(
            dist.insert(edge.destination(), cost),
            done,
            queue.insert((cost, edge.destination())),
        ),
        started(ctx, dist.insert(edge.destination(), cost)),
        improves(dist, dist.insert(edge.destination(), cost)),
{
    let to = edge.destination();
    let dist2 = dist.insert(to, cost);
    let queue2 = queue.insert((cost, to));
    let path = paths[v].push(edge);
    let paths2 = paths.insert(to, path);
    lemma_edge_cost_grows(ctx.graph, ctx.metres, edge, dist[v] as int, ctx.start_time);
    if done.contains(to) {
        assert(dist[to] <= dist[v]);
    }
    assert(dist.contains_key(v));
    assert(path.drop_last() =~= paths[v]);
    assert(path.last() == edge);
    assert(ctx.path_cost(path) == Some(cost as int));
    assert forall|w: NodeKey| #[trigger] dist2.contains_key(w) implies ctx.path_end(paths2[w]) == w
        && ctx.path_cost(paths2[w]) == Some(dist2[w] as int) by {
        if w != to {
            assert(dist.contains_key(w));
        }
    }
    assert forall|w: NodeKey| dist2.contains_key(w) && !done.contains(w) implies queue2.count(
        (#[trigger] dist2[w], w),
    ) > 0 by {
        if w != to {
            assert(queue.count((dist[w], w)) > 0);
        }
    }
    assert forall|y: (u32, NodeKey)| #[trigger] queue2.count(y) > 0 implies dist2.contains_key(y.1)
        && dist2[y.1] <= y.0 by {
        if y != (cost, to) {
            assert(queue.count(y) > 0);
        }
    }
    assert forall|u: NodeKey| #[trigger] done.contains(u) implies dist2.contains_key(u) by {
        assert(dist.contains_key(u));
    }
    assert forall|u: NodeKey, y: (u32, NodeKey)|
        #![trigger done.contains(u), queue2.count(y)]
        done.contains(u) && queue2.count(y) > 0 implies dist2[u] <= y.0 by {
        assert(dist[u] <= dist[v]);
        if y != (cost, to) {
            assert(queue.count(y) > 0);
        }
    }
}

} // verus!
