use vstd::prelude::*;
use crate::graph::{
    pops_before, predecessor_of, result_of, walk_back, Edge, NodeId, QueueNode, StateView,
};
use crate::pipeline::start_of;
use crate::queue::{lemma_push_entries, lemma_push_sorted, queue_sorted};
use crate::search::{
    exhaust, extend, is_stale, lemma_step_progress, mark_visited, relax_arc, relax_arcs, state_fits,
    step, steps, unvisited, visit, Search,
};

verus! {

/// Popping to exhaustion after some pops ends where popping to exhaustion at once
/// ends.
pub proof fn lemma_exhaust_absorbs_steps(adj: Seq<Seq<Edge>>, s: Search, count: nat)
    ensures
        exhaust(adj, steps(adj, s, count)) == exhaust(adj, s),
    decreases count,
{
    if count > 0 {
        lemma_exhaust_absorbs_steps(adj, s, (count - 1) as nat);
        let before = steps(adj, s, (count - 1) as nat);
        if before.queue.len() == 0 {
            assert(step(adj, before) == before);
        }
    }
}

/// Every recorded predecessor is a visited node of the graph.
pub open spec fn predecessors_visited(state: StateView) -> bool {
    forall|v: int|
        0 <= v < state.predecessors.len() ==> match #[trigger] state.predecessors[v] {
            Some(p) => p.0 < state.visited.len() && state.visited[p.0 as int],
            None => true,
        }
}

/// The search is in order: the queue is sorted, no entry is nearer than the
/// distance recorded for its node, no visited node is farther than any entry, and
/// predecessors are visited nodes.
pub open spec fn in_order(adj: Seq<Seq<Edge>>, s: Search) -> bool {
    &&& state_fits(s.state, adj.len())
    &&& queue_sorted(s.queue)
    &&& forall|e: QueueNode| #[trigger]
        s.queue.contains(e) ==> e.node.0 < adj.len() && s.state.distances[e.node.0 as int]
            <= e.distance
    &&& forall|u: int, e: QueueNode|
        0 <= u < adj.len() && #[trigger] s.state.visited[u] && #[trigger] s.queue.contains(e)
            ==> s.state.distances[u] <= e.distance
    &&& predecessors_visited(s.state)
}

/// The search in the middle of the visit of `node`, popped at `distance`: as
/// `in_order`, with `node` visited at exactly `distance`, which no visited node
/// exceeds and no entry falls short of.
pub open spec fn relaxing(adj: Seq<Seq<Edge>>, s: Search, node: NodeId, distance: u32) -> bool {
    &&& state_fits(s.state, adj.len())
    &&& queue_sorted(s.queue)
    &&& forall|e: QueueNode| #[trigger]
        s.queue.contains(e) ==> e.node.0 < adj.len() && s.state.distances[e.node.0 as int]
            <= e.distance && distance <= e.distance
    &&& forall|u: int|
        0 <= u < adj.len() && #[trigger] s.state.visited[u] ==> s.state.distances[u] <= distance
    &&& predecessors_visited(s.state)
    &&& node.0 < adj.len()
    &&& s.state.visited[node.0 as int]
    &&& s.state.distances[node.0 as int] == distance
}

/// What is visited in `before` is visited in `after`, at the same distance and with
/// the same predecessor.
pub open spec fn keeps_visited(before: StateView, after: StateView) -> bool {
    &&& after.distances.len() == before.distances.len()
    &&& after.predecessors.len() == before.predecessors.len()
    &&& after.visited.len() == before.visited.len()
    &&& forall|v: int|
        0 <= v < before.visited.len() && #[trigger] before.visited[v] ==> after.visited[v]
            && after.distances[v] == before.distances[v] && after.predecessors[v]
            == before.predecessors[v]
}

/// Relaxing one arc in the middle of a visit keeps the search in order and leaves
/// the visited nodes alone.
pub proof fn lemma_relax_arc_in_order(
    adj: Seq<Seq<Edge>>,
    s: Search,
    node: NodeId,
    distance: u32,
    arc: Edge,
)
    requires
        relaxing(adj, s, node, distance),
    ensures
        relaxing(adj, relax_arc(s, node, distance, arc), node, distance),
        keeps_visited(s.state, relax_arc(s, node, distance, arc).state),
{
    let after = relax_arc(s, node, distance, arc);
    if after != s {
        let reached = extend(distance, arc.weight);
        let entry = QueueNode { node: arc.to, distance: reached };
        lemma_push_entries(s.queue, entry);
        lemma_push_sorted(s.queue, entry);
        let to = arc.to.0 as int;
        assert(!s.state.visited[to]);
        assert forall|e: QueueNode| #[trigger] after.queue.contains(e) implies e.node.0
            < adj.len() && after.state.distances[e.node.0 as int] <= e.distance && distance
            <= e.distance by {
            if e != entry {
                assert(s.queue.contains(e));
            }
        }
        assert forall|v: int| 0 <= v < after.state.predecessors.len() implies match #[trigger] after
            .state.predecessors[v] {
            Some(p) => p.0 < after.state.visited.len() && after.state.visited[p.0 as int],
            None => true,
        } by {
            if v != to {
                assert(after.state.predecessors[v] == s.state.predecessors[v]);
            }
        }
    }
}

/// Relaxing arcs in the middle of a visit keeps the search in order and leaves the
/// visited nodes alone.
pub proof fn lemma_relax_arcs_in_order(
    adj: Seq<Seq<Edge>>,
    s: Search,
    node: NodeId,
    distance: u32,
    arcs: Seq<Edge>,
)
    requires
        relaxing(adj, s, node, distance),
    ensures
        relaxing(adj, relax_arcs(s, node, distance, arcs), node, distance),
        keeps_visited(s.state, relax_arcs(s, node, distance, arcs).state),
    decreases arcs.len(),
{
    if arcs.len() > 0 {
        lemma_relax_arcs_in_order(adj, s, node, distance, arcs.drop_last());
        let before = relax_arcs(s, node, distance, arcs.drop_last());
        lemma_relax_arc_in_order(adj, before, node, distance, arcs.last());
    }
}

/// The queue without its last entry holds what the queue held, but for entries
/// equal to the last; and in a sorted queue nothing left is nearer than the last.
pub proof fn lemma_rest_of_queue(q: Seq<QueueNode>)
    requires
        q.len() > 0,
        queue_sorted(q),
    ensures
        queue_sorted(q.drop_last()),
        q.contains(q.last()),
        forall|e: QueueNode| #[trigger] q.drop_last().contains(e) ==> q.contains(e) && q.last().distance
            <= e.distance,
{
    let rest = q.drop_last();
    assert(q[q.len() - 1] == q.last());
    assert forall|e: QueueNode| #[trigger] rest.contains(e) implies q.contains(e)
        && q.last().distance <= e.distance by {
        let i = choose|i: int| 0 <= i < rest.len() && rest[i] == e;
        assert(q[i] == e);
        assert(pops_before(q[q.len() - 1], q[i]));
    }
    assert forall|i: int, j: int| 0 <= i < j < rest.len() implies pops_before(rest[j], rest[i]) by {
        assert(pops_before(q[j], q[i]));
    }
}

/// The search with the last entry popped and its node marked, where the entry is
/// not stale, is in the middle of the visit of that node.
pub proof fn lemma_marked_is_relaxing(adj: Seq<Seq<Edge>>, s: Search)
    requires
        in_order(adj, s),
        s.queue.len() > 0,
        !is_stale(s.state, s.queue.last()),
    ensures
        relaxing(
            adj,
            Search { state: mark_visited(s.state, s.queue.last().node), queue: s.queue.drop_last() },
            s.queue.last().node,
            s.queue.last().distance,
        ),
        keeps_visited(s.state, mark_visited(s.state, s.queue.last().node)),
{
    let e = s.queue.last();
    lemma_rest_of_queue(s.queue);
    let marked = Search { state: mark_visited(s.state, e.node), queue: s.queue.drop_last() };
    assert forall|u: int|
        0 <= u < adj.len() && #[trigger] marked.state.visited[u] implies marked.state.distances[u]
        <= e.distance by {
        if u != e.node.0 {
            assert(s.state.visited[u]);
        }
    }
    assert forall|v: int| 0 <= v < marked.state.predecessors.len() implies match #[trigger] marked
        .state.predecessors[v] {
        Some(p) => p.0 < marked.state.visited.len() && marked.state.visited[p.0 as int],
        None => true,
    } by {
        assert(marked.state.predecessors[v] == s.state.predecessors[v]);
    }
}

/// A search in the middle of a visit is in order.
proof fn lemma_relaxing_is_in_order(adj: Seq<Seq<Edge>>, s: Search, node: NodeId, distance: u32)
    requires
        relaxing(adj, s, node, distance),
    ensures
        in_order(adj, s),
{
}

/// A pop keeps the search in order and leaves the visited nodes alone.
pub proof fn lemma_step_in_order(adj: Seq<Seq<Edge>>, s: Search)
    requires
        in_order(adj, s),
    ensures
        in_order(adj, step(adj, s)),
        keeps_visited(s.state, step(adj, s).state),
{
    if s.queue.len() > 0 {
        let e = s.queue.last();
        lemma_rest_of_queue(s.queue);
        if !(is_stale(s.state, e) || e.node.0 >= adj.len()) {
            let marked = Search { state: mark_visited(s.state, e.node), queue: s.queue.drop_last() };
            lemma_marked_is_relaxing(adj, s);
            lemma_relax_arcs_in_order(adj, marked, e.node, e.distance, adj[e.node.0 as int]);
            lemma_relaxing_is_in_order(adj, step(adj, s), e.node, e.distance);
        }
    }
}

/// The start of a search is in order.
pub proof fn lemma_start_in_order(adj: Seq<Seq<Edge>>, source: NodeId)
    requires
        source.0 < adj.len(),
    ensures
        in_order(adj, start_of(adj.len(), source)),
{
    let s = start_of(adj.len(), source);
    assert forall|e: QueueNode| #[trigger] s.queue.contains(e) implies e.node.0 < adj.len()
        && s.state.distances[e.node.0 as int] <= e.distance by {
        let i = choose|i: int| 0 <= i < s.queue.len() && s.queue[i] == e;
        assert(e == s.queue[0]);
    }
}

/// Popping to exhaustion keeps the search in order and leaves the visited nodes
/// alone.
pub proof fn lemma_exhaust_in_order(adj: Seq<Seq<Edge>>, s: Search)
    requires
        in_order(adj, s),
    ensures
        in_order(adj, exhaust(adj, s)),
        keeps_visited(s.state, exhaust(adj, s).state),
    decreases unvisited(s.state.visited), s.queue.len(),
{
    if s.queue.len() > 0 {
        lemma_step_progress(adj, s);
        lemma_step_in_order(adj, s);
        lemma_exhaust_in_order(adj, step(adj, s));
    }
}

/// The walk back from a visited node meets visited nodes only, so it is the same
/// in every later state.
proof fn lemma_walk_back_is_final(
    before: StateView,
    after: StateView,
    source: NodeId,
    current: NodeId,
    fuel: nat,
)
    requires
        predecessors_visited(before),
        keeps_visited(before, after),
        before.visited.len() == before.predecessors.len(),
        current.0 < before.visited.len(),
        before.visited[current.0 as int],
    ensures
        walk_back(after.predecessors, source, current, fuel) == walk_back(
            before.predecessors,
            source,
            current,
            fuel,
        ),
    decreases fuel,
{
    if current != source && fuel > 0 {
        assert(predecessor_of(after.predecessors, current) == predecessor_of(
            before.predecessors,
            current,
        ));
        match predecessor_of(before.predecessors, current) {
            Some(p) => {
                assert(before.predecessors[current.0 as int] == Some(p));
                lemma_walk_back_is_final(before, after, source, p, (fuel - 1) as nat);
            },
            None => {},
        }
    }
}

/// The result for a visited target is final: every later state gives the same
/// distance and the same path.
pub proof fn lemma_visited_result_is_final(
    before: StateView,
    after: StateView,
    source: NodeId,
    target: NodeId,
)
    requires
        predecessors_visited(before),
        keeps_visited(before, after),
        before.visited.len() == before.predecessors.len(),
        before.visited.len() == before.distances.len(),
        target.0 < before.visited.len(),
        before.visited[target.0 as int],
    ensures
        result_of(after, source, target) == result_of(before, source, target),
{
    lemma_walk_back_is_final(before, after, source, target, before.predecessors.len());
}

} // verus!
