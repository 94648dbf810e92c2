use vstd::prelude::*;
use crate::invariants::{
    in_order, lemma_marked_is_relaxing, lemma_relax_arc_in_order, lemma_rest_of_queue,
    lemma_start_in_order, relaxing,
};
use crate::graph::{no_result, Edge, NodeId, QueueNode, StateView, INFINITE};
use crate::invariants::{lemma_exhaust_absorbs_steps, lemma_step_in_order};
use crate::pipeline::{exhaustive_result, start_of, stepwise_result};
use crate::queue::lemma_push_entries;
use crate::search::{
    exhaust, extend, is_stale, lemma_step_progress, mark_visited, relax_arc, relax_arcs, state_fits,
    step, steps, unvisited, Search,
};

verus! {

/// A way through the graph: the nodes passed, and for each but the last the number
/// of the arc taken from it.
pub struct Route {
    pub nodes: Seq<NodeId>,
    pub picks: Seq<int>,
}

/// The arc picked at `i` leaves the node at `i` and ends at the next one.
pub open spec fn takes(adj: Seq<Seq<Edge>>, route: Route, i: int) -> bool {
    &&& 0 <= route.picks[i] < adj[route.nodes[i].0 as int].len()
    &&& adj[route.nodes[i].0 as int][route.picks[i]].to == route.nodes[i + 1]
}

/// The route is one of the graph.
pub open spec fn is_route(adj: Seq<Seq<Edge>>, route: Route) -> bool {
    &&& route.nodes.len() == route.picks.len() + 1
    &&& forall|i: int| 0 <= i < route.nodes.len() ==> (#[trigger] route.nodes[i]).0 < adj.len()
    &&& forall|i: int| 0 <= i < route.picks.len() ==> #[trigger] takes(adj, route, i)
}

/// The route without its last arc.
pub open spec fn shortened(route: Route) -> Route {
    Route { nodes: route.nodes.drop_last(), picks: route.picks.drop_last() }
}

/// The sum of the weights of the arcs taken.
pub open spec fn route_weight(adj: Seq<Seq<Edge>>, route: Route) -> int
    decreases route.picks.len(),
{
    if route.picks.len() == 0 {
        0
    } else {
        let last = route.picks.len() - 1;
        route_weight(adj, shortened(route)) + adj[route.nodes[last].0 as int][route.picks[last]].weight
    }
}

/// The route leads from `from` to `to`.
pub open spec fn leads(adj: Seq<Seq<Edge>>, route: Route, from: NodeId, to: NodeId) -> bool {
    is_route(adj, route) && route.nodes.first() == from && route.nodes.last() == to
}

/// A weight as a distance: held at `INFINITE` where it reaches it.
pub open spec fn capped(weight: int) -> u32 {
    if weight >= INFINITE {
        INFINITE
    } else if weight < 0 {
        0
    } else {
        weight as u32
    }
}

/// The arc `j` of `u` is relaxed: its end is no farther than `u` and the arc.
pub open spec fn arc_relaxed(adj: Seq<Seq<Edge>>, state: StateView, u: int, j: int) -> bool {
    adj[u][j].to.0 < adj.len() ==> state.distances[adj[u][j].to.0 as int] <= extend(
        state.distances[u],
        adj[u][j].weight,
    )
}

/// The arcs of the visited nodes are relaxed; of `node`, those before `count`.
pub open spec fn arcs_relaxed(adj: Seq<Seq<Edge>>, state: StateView, node: int, count: int) -> bool {
    forall|u: int, j: int|
        0 <= u < adj.len() && state.visited[u] && 0 <= j < adj[u].len() && (u != node || j < count)
            ==> #[trigger] arc_relaxed(adj, state, u, j)
}

/// Each finite distance is the weight of a route from the source.
pub open spec fn distances_are_weights(adj: Seq<Seq<Edge>>, source: NodeId, state: StateView) -> bool {
    forall|v: NodeId|
        v.0 < adj.len() && #[trigger] state.distances[v.0 as int] != INFINITE ==> exists|r: Route|
            #[trigger] leads(adj, r, source, v) && route_weight(adj, r)
                == state.distances[v.0 as int]
}

/// Each node with a finite distance that is not visited is queued at that distance.
pub open spec fn reached_are_queued(adj: Seq<Seq<Edge>>, s: Search) -> bool {
    forall|v: NodeId|
        v.0 < adj.len() && #[trigger] s.state.distances[v.0 as int] != INFINITE
            && !s.state.visited[v.0 as int] ==> s.queue.contains(
            QueueNode { node: v, distance: s.state.distances[v.0 as int] },
        )
}

/// What holds of the search besides its order: the source is at distance 0,
/// distances are weights of routes, reached nodes are queued.
pub open spec fn grounded(adj: Seq<Seq<Edge>>, source: NodeId, s: Search) -> bool {
    &&& source.0 < adj.len()
    &&& s.state.distances[source.0 as int] == 0
    &&& distances_are_weights(adj, source, s.state)
    &&& reached_are_queued(adj, s)
}

/// The search between two pops, with all it is known to keep.
pub open spec fn exact(adj: Seq<Seq<Edge>>, source: NodeId, s: Search) -> bool {
    &&& in_order(adj, s)
    &&& grounded(adj, source, s)
    &&& arcs_relaxed(adj, s.state, -1, 0)
}

/// A route leads from `from` to `to`.
pub open spec fn connected(adj: Seq<Seq<Edge>>, from: NodeId, to: NodeId) -> bool {
    exists|route: Route| #[trigger] leads(adj, route, from, to)
}

/// A route that leads to `node` goes on along the arc `j` of `node`.
pub proof fn lemma_route_extends(adj: Seq<Seq<Edge>>, route: Route, source: NodeId, node: NodeId, j: int)
    requires
        leads(adj, route, source, node),
        0 <= j < adj[node.0 as int].len(),
        adj[node.0 as int][j].to.0 < adj.len(),
    ensures
        leads(
            adj,
            Route { nodes: route.nodes.push(adj[node.0 as int][j].to), picks: route.picks.push(j) },
            source,
            adj[node.0 as int][j].to,
        ),
        route_weight(
            adj,
            Route { nodes: route.nodes.push(adj[node.0 as int][j].to), picks: route.picks.push(j) },
        ) == route_weight(adj, route) + adj[node.0 as int][j].weight,
{
    let to = adj[node.0 as int][j].to;
    let longer = Route { nodes: route.nodes.push(to), picks: route.picks.push(j) };
    assert(shortened(longer).nodes =~= route.nodes);
    assert(shortened(longer).picks =~= route.picks);
    assert(shortened(longer) == route);
    assert forall|i: int| 0 <= i < longer.picks.len() implies #[trigger] takes(adj, longer, i) by {
        if i < route.picks.len() {
            assert(takes(adj, route, i));
            assert(longer.nodes[i] == route.nodes[i]);
            assert(longer.nodes[i + 1] == route.nodes[i + 1]);
        } else {
            assert(longer.nodes[i] == node);
        }
    }
    assert forall|i: int| 0 <= i < longer.nodes.len() implies (#[trigger] longer.nodes[i]).0
        < adj.len() by {
        if i < route.nodes.len() {
            assert(longer.nodes[i] == route.nodes[i]);
        }
    }
    let last = longer.picks.len() - 1;
    assert(longer.nodes[last] == node);
}

/// Relaxing the arc `count` of the node being visited keeps what is known, and
/// leaves that arc relaxed.
proof fn lemma_relax_arc_exact(
    adj: Seq<Seq<Edge>>,
    source: NodeId,
    s: Search,
    node: NodeId,
    distance: u32,
    count: int,
)
    requires
        relaxing(adj, s, node, distance),
        grounded(adj, source, s),
        arcs_relaxed(adj, s.state, node.0 as int, count),
        0 <= count < adj[node.0 as int].len(),
    ensures
        grounded(adj, source, relax_arc(s, node, distance, adj[node.0 as int][count])),
        arcs_relaxed(
            adj,
            relax_arc(s, node, distance, adj[node.0 as int][count]).state,
            node.0 as int,
            count + 1,
        ),
{
    let arc = adj[node.0 as int][count];
    let after = relax_arc(s, node, distance, arc);
    lemma_relax_arc_in_order(adj, s, node, distance, arc);
    let n = node.0 as int;
    if after != s {
        let to = arc.to.0 as int;
        let reached = extend(distance, arc.weight);
        let entry = QueueNode { node: arc.to, distance: reached };
        lemma_push_entries(s.queue, entry);
        assert(!s.state.visited[to]);
        assert(reached == distance + arc.weight);
        assert(s.state.distances[n] != INFINITE);
        let route = choose|r: Route|
            #[trigger] leads(adj, r, source, node) && route_weight(adj, r) == s.state.distances[n];
        lemma_route_extends(adj, route, source, node, count);
        let longer = Route { nodes: route.nodes.push(arc.to), picks: route.picks.push(count) };
        assert forall|v: NodeId|
            v.0 < adj.len() && #[trigger] after.state.distances[v.0 as int] != INFINITE implies exists|
            r: Route,
        |
            #[trigger] leads(adj, r, source, v) && route_weight(adj, r)
                == after.state.distances[v.0 as int] by {
            if v == arc.to {
                assert(leads(adj, longer, source, v));
            } else {
                assert(s.state.distances[v.0 as int] == after.state.distances[v.0 as int]);
            }
        }
        assert forall|v: NodeId|
            v.0 < adj.len() && #[trigger] after.state.distances[v.0 as int] != INFINITE
                && !after.state.visited[v.0 as int] implies after.queue.contains(
            QueueNode { node: v, distance: after.state.distances[v.0 as int] },
        ) by {
            if v == arc.to {
            } else {
                assert(s.state.distances[v.0 as int] == after.state.distances[v.0 as int]);
                assert(s.queue.contains(
                    QueueNode { node: v, distance: s.state.distances[v.0 as int] },
                ));
            }
        }
        assert forall|u: int, j: int|
            0 <= u < adj.len() && after.state.visited[u] && 0 <= j < adj[u].len() && (u != n || j
                < count + 1) implies #[trigger] arc_relaxed(adj, after.state, u, j) by {
            assert(after.state.distances[u] == s.state.distances[u]);
            if u != n || j < count {
                assert(arc_relaxed(adj, s.state, u, j));
            }
        }
    } else {
        assert forall|u: int, j: int|
            0 <= u < adj.len() && after.state.visited[u] && 0 <= j < adj[u].len() && (u != n || j
                < count + 1) implies #[trigger] arc_relaxed(adj, after.state, u, j) by {
            if u != n || j < count {
                assert(arc_relaxed(adj, s.state, u, j));
            }
        }
    }
}

/// Relaxing the first `count` arcs of the node being visited keeps what is known,
/// and leaves those arcs relaxed.
proof fn lemma_relax_arcs_exact(
    adj: Seq<Seq<Edge>>,
    source: NodeId,
    s: Search,
    node: NodeId,
    distance: u32,
    count: int,
)
    requires
        relaxing(adj, s, node, distance),
        grounded(adj, source, s),
        arcs_relaxed(adj, s.state, node.0 as int, 0),
        0 <= count <= adj[node.0 as int].len(),
    ensures
        relaxing(adj, relax_arcs(s, node, distance, adj[node.0 as int].take(count)), node, distance),
        grounded(adj, source, relax_arcs(s, node, distance, adj[node.0 as int].take(count))),
        arcs_relaxed(
            adj,
            relax_arcs(s, node, distance, adj[node.0 as int].take(count)).state,
            node.0 as int,
            count,
        ),
    decreases count,
{
    let arcs = adj[node.0 as int].take(count);
    if count > 0 {
        lemma_relax_arcs_exact(adj, source, s, node, distance, count - 1);
        assert(arcs.drop_last() =~= adj[node.0 as int].take(count - 1));
        assert(arcs.last() == adj[node.0 as int][count - 1]);
        let before = relax_arcs(s, node, distance, arcs.drop_last());
        lemma_relax_arc_in_order(adj, before, node, distance, arcs.last());
        lemma_relax_arc_exact(adj, source, before, node, distance, count - 1);
    } else {
        assert(arcs.len() == 0);
    }
}

/// A pop keeps what is known of the search.
pub proof fn lemma_step_exact(adj: Seq<Seq<Edge>>, source: NodeId, s: Search)
    requires
        exact(adj, source, s),
    ensures
        exact(adj, source, step(adj, s)),
{
    if s.queue.len() > 0 {
        let e = s.queue.last();
        let rest = Search { state: s.state, queue: s.queue.drop_last() };
        lemma_rest_of_queue(s.queue);
        lemma_step_in_order(adj, s);
        assert forall|x: QueueNode| s.queue.contains(x) && x != e implies #[trigger] rest.queue.contains(
            x,
        ) by {
            let i = choose|i: int| 0 <= i < s.queue.len() && s.queue[i] == x;
            assert(rest.queue[i] == x);
        }
        if is_stale(s.state, e) || e.node.0 >= adj.len() {
            assert forall|v: NodeId|
                v.0 < adj.len() && #[trigger] rest.state.distances[v.0 as int] != INFINITE
                    && !rest.state.visited[v.0 as int] implies rest.queue.contains(
                QueueNode { node: v, distance: rest.state.distances[v.0 as int] },
            ) by {
                let x = QueueNode { node: v, distance: s.state.distances[v.0 as int] };
                assert(s.queue.contains(x));
            }
        } else {
            let node = e.node;
            let marked = Search { state: mark_visited(s.state, node), queue: rest.queue };
            lemma_marked_is_relaxing(adj, s);
            assert(grounded(adj, source, marked)) by {
                assert forall|v: NodeId|
                    v.0 < adj.len() && #[trigger] marked.state.distances[v.0 as int] != INFINITE
                        && !marked.state.visited[v.0 as int] implies marked.queue.contains(
                    QueueNode { node: v, distance: marked.state.distances[v.0 as int] },
                ) by {
                    let x = QueueNode { node: v, distance: s.state.distances[v.0 as int] };
                    assert(s.queue.contains(x));
                }
                assert forall|v: NodeId|
                    v.0 < adj.len() && #[trigger] marked.state.distances[v.0 as int]
                        != INFINITE implies exists|r: Route|
                    #[trigger] leads(adj, r, source, v) && route_weight(adj, r)
                        == marked.state.distances[v.0 as int] by {
                    assert(s.state.distances[v.0 as int] == marked.state.distances[v.0 as int]);
                }
            }
            assert(arcs_relaxed(adj, marked.state, node.0 as int, 0)) by {
                assert forall|u: int, j: int|
                    0 <= u < adj.len() && marked.state.visited[u] && 0 <= j < adj[u].len() && (u
                        != node.0 as int || j < 0) implies #[trigger] arc_relaxed(
                    adj,
                    marked.state,
                    u,
                    j,
                ) by {
                    assert(s.state.visited[u]);
                    assert(arc_relaxed(adj, s.state, u, j));
                }
            }
            let all = adj[node.0 as int].len() as int;
            lemma_relax_arcs_exact(adj, source, marked, node, e.distance, all);
            assert(adj[node.0 as int].take(all) =~= adj[node.0 as int]);
            let after = step(adj, s);
            assert forall|u: int, j: int|
                0 <= u < adj.len() && after.state.visited[u] && 0 <= j < adj[u].len() && (u != -1
                    || j < 0) implies #[trigger] arc_relaxed(adj, after.state, u, j) by {
                assert(u != node.0 as int || j < all);
            }
        }
    }
}

/// The start of a search has all that a search is known to keep.
pub proof fn lemma_start_exact(adj: Seq<Seq<Edge>>, source: NodeId)
    requires
        source.0 < adj.len(),
    ensures
        exact(adj, source, start_of(adj.len(), source)),
{
    let s = start_of(adj.len(), source);
    lemma_start_in_order(adj, source);
    let alone = Route { nodes: seq![source], picks: Seq::empty() };
    assert(is_route(adj, alone));
    assert(leads(adj, alone, source, source));
    assert forall|v: NodeId|
        v.0 < adj.len() && #[trigger] s.state.distances[v.0 as int] != INFINITE implies exists|r: Route|
        #[trigger] leads(adj, r, source, v) && route_weight(adj, r)
            == s.state.distances[v.0 as int] by {
        assert(v == source);
        assert(leads(adj, alone, source, v));
    }
    assert forall|v: NodeId|
        v.0 < adj.len() && #[trigger] s.state.distances[v.0 as int] != INFINITE
            && !s.state.visited[v.0 as int] implies s.queue.contains(
        QueueNode { node: v, distance: s.state.distances[v.0 as int] },
    ) by {
        assert(v == source);
        assert(s.queue[0] == QueueNode { node: source, distance: 0 });
    }
}

/// Popping to exhaustion keeps what is known of the search.
pub proof fn lemma_exhaust_exact(adj: Seq<Seq<Edge>>, source: NodeId, s: Search)
    requires
        exact(adj, source, s),
    ensures
        exact(adj, source, exhaust(adj, s)),
        exhaust(adj, s).queue.len() == 0,
    decreases unvisited(s.state.visited), s.queue.len(),
{
    if s.queue.len() > 0 {
        lemma_step_progress(adj, s);
        lemma_step_exact(adj, source, s);
        lemma_exhaust_exact(adj, source, step(adj, s));
    }
}

/// With the queue exhausted no route from the source is lighter than the distance
/// recorded for its end.
pub proof fn lemma_no_lighter_route(adj: Seq<Seq<Edge>>, source: NodeId, s: Search, route: Route)
    requires
        exact(adj, source, s),
        s.queue.len() == 0,
        is_route(adj, route),
        route.nodes.first() == source,
    ensures
        route_weight(adj, route) >= 0,
        s.state.distances[route.nodes.last().0 as int] <= capped(route_weight(adj, route)),
    decreases route.picks.len(),
{
    if route.picks.len() > 0 {
        let before = shortened(route);
        let last = route.picks.len() - 1;
        assert forall|i: int| 0 <= i < before.picks.len() implies #[trigger] takes(
            adj,
            before,
            i,
        ) by {
            assert(takes(adj, route, i));
        }
        assert forall|i: int| 0 <= i < before.nodes.len() implies (#[trigger] before.nodes[i]).0
            < adj.len() by {
            assert(before.nodes[i] == route.nodes[i]);
        }
        lemma_no_lighter_route(adj, source, s, before);
        let u = route.nodes[last].0 as int;
        let j = route.picks[last];
        assert(takes(adj, route, last));
        assert(before.nodes.last() == route.nodes[last]);
        assert(route.nodes[last + 1] == route.nodes.last());
        if s.state.distances[u] != INFINITE {
            if !s.state.visited[u] {
                assert(s.queue.contains(
                    QueueNode { node: route.nodes[last], distance: s.state.distances[u] },
                ));
            }
            assert(arc_relaxed(adj, s.state, u, j));
        }
    }
}

/// Shortest distances: once the queue is exhausted, the distance recorded for a
/// node is the least weight of a route from the source to it, held at `INFINITE`;
/// and where it is finite, a route of exactly that weight leads there.
pub proof fn lemma_distances_are_shortest(adj: Seq<Seq<Edge>>, source: NodeId, target: NodeId)
    requires
        source.0 < adj.len(),
        target.0 < adj.len(),
    ensures
        ({
            let found = exhaust(adj, start_of(adj.len(), source)).state.distances[target.0 as int];
            &&& exhaustive_result(adj, source, target).distance == if found == INFINITE {
                None
            } else {
                Some(found)
            }
            &&& forall|r: Route| #[trigger]
                leads(adj, r, source, target) ==> found <= capped(route_weight(adj, r))
            &&& found != INFINITE ==> exists|r: Route| #[trigger]
                leads(adj, r, source, target) && route_weight(adj, r) == found
        }),
{
    let start = start_of(adj.len(), source);
    lemma_start_exact(adj, source);
    lemma_exhaust_exact(adj, source, start);
    let end = exhaust(adj, start);
    assert forall|r: Route| #[trigger] leads(adj, r, source, target) implies end.state.distances[
        target.0 as int
    ] <= capped(route_weight(adj, r)) by {
        lemma_no_lighter_route(adj, source, end, r);
    }
}

/// Every arc of the graph is relaxed.
pub open spec fn relaxed_everywhere(adj: Seq<Seq<Edge>>, state: StateView) -> bool {
    forall|u: NodeId, j: int|
        u.0 < adj.len() && 0 <= j < adj[u.0 as int].len() ==> #[trigger] arc_relaxed(
            adj,
            state,
            u.0 as int,
            j,
        )
}

/// The two states record the same distances and the same predecessors.
pub open spec fn same_records(a: StateView, b: StateView) -> bool {
    a.distances == b.distances && a.predecessors == b.predecessors
}

/// Where every arc is relaxed, relaxing arcs changes nothing.
proof fn lemma_relaxed_arcs_stay(
    adj: Seq<Seq<Edge>>,
    s: Search,
    node: NodeId,
    arcs: Seq<Edge>,
    count: int,
)
    requires
        node.0 < adj.len(),
        state_fits(s.state, adj.len()),
        relaxed_everywhere(adj, s.state),
        0 <= count <= adj[node.0 as int].len(),
        arcs == adj[node.0 as int].take(count),
    ensures
        relax_arcs(s, node, s.state.distances[node.0 as int], arcs) == s,
    decreases count,
{
    if count > 0 {
        assert(arcs.drop_last() =~= adj[node.0 as int].take(count - 1));
        lemma_relaxed_arcs_stay(adj, s, node, arcs.drop_last(), count - 1);
        assert(arcs.last() == adj[node.0 as int][count - 1]);
        assert(arc_relaxed(adj, s.state, node.0 as int, count - 1));
    } else {
        assert(arcs.len() == 0);
    }
}

/// Where every arc is relaxed, popping to exhaustion changes neither distances nor
/// predecessors.
pub proof fn lemma_relaxed_search_keeps_records(adj: Seq<Seq<Edge>>, s: Search)
    requires
        in_order(adj, s),
        relaxed_everywhere(adj, s.state),
    ensures
        same_records(exhaust(adj, s).state, s.state),
    decreases unvisited(s.state.visited), s.queue.len(),
{
    if s.queue.len() > 0 {
        let e = s.queue.last();
        lemma_step_progress(adj, s);
        lemma_step_in_order(adj, s);
        lemma_rest_of_queue(s.queue);
        let after = step(adj, s);
        if !(is_stale(s.state, e) || e.node.0 >= adj.len()) {
            let marked = Search { state: mark_visited(s.state, e.node), queue: s.queue.drop_last() };
            assert(e.distance == s.state.distances[e.node.0 as int]);
            assert(relaxed_everywhere(adj, marked.state)) by {
                assert forall|u: NodeId, j: int|
                    u.0 < adj.len() && 0 <= j < adj[u.0 as int].len() implies #[trigger] arc_relaxed(
                    adj,
                    marked.state,
                    u.0 as int,
                    j,
                ) by {
                    assert(arc_relaxed(adj, s.state, u.0 as int, j));
                }
            }
            let all = adj[e.node.0 as int].len() as int;
            assert(adj[e.node.0 as int].take(all) =~= adj[e.node.0 as int]);
            lemma_relaxed_arcs_stay(adj, marked, e.node, adj[e.node.0 as int], all);
            assert(after == marked);
        }
        assert(same_records(after.state, s.state));
        assert(relaxed_everywhere(adj, after.state)) by {
            assert forall|u: NodeId, j: int|
                u.0 < adj.len() && 0 <= j < adj[u.0 as int].len() implies #[trigger] arc_relaxed(
                adj,
                after.state,
                u.0 as int,
                j,
            ) by {
                assert(arc_relaxed(adj, s.state, u.0 as int, j));
            }
        }
        lemma_relaxed_search_keeps_records(adj, after);
    }
}

/// Any number of pops keeps what is known of the search.
pub proof fn lemma_steps_exact(adj: Seq<Seq<Edge>>, source: NodeId, s: Search, count: nat)
    requires
        exact(adj, source, s),
    ensures
        exact(adj, source, steps(adj, s, count)),
    decreases count,
{
    if count > 0 {
        lemma_steps_exact(adj, source, s, (count - 1) as nat);
        lemma_step_exact(adj, source, steps(adj, s, (count - 1) as nat));
    }
}

/// Decomposition equivalence: the fine-grained chain, with its one pop per event,
/// and the coarse-grained chain, which pops to exhaustion, end with the same
/// distances and predecessors, and so give the same distance and path for every
/// target, where the pops of the fine-grained chain leave every arc relaxed.
pub proof fn lemma_decompositions_agree(
    adj: Seq<Seq<Edge>>,
    source: NodeId,
    target: NodeId,
    pops: nat,
)
    requires
        source.0 < adj.len() ==> relaxed_everywhere(
            adj,
            steps(adj, start_of(adj.len(), source), pops).state,
        ),
    ensures
        source.0 < adj.len() ==> same_records(
            steps(adj, start_of(adj.len(), source), pops).state,
            exhaust(adj, start_of(adj.len(), source)).state,
        ),
        stepwise_result(adj, source, target, pops) == exhaustive_result(adj, source, target),
{
    if source.0 < adj.len() {
        let start = start_of(adj.len(), source);
        lemma_start_exact(adj, source);
        lemma_steps_exact(adj, source, start, pops);
        lemma_exhaust_absorbs_steps(adj, start, pops);
        lemma_relaxed_search_keeps_records(adj, steps(adj, start, pops));
    }
}

/// The decompositions agree on no other inputs: where the pops of the
/// fine-grained chain leave the distances with which the coarse-grained chain ends,
/// they leave every arc relaxed.
pub proof fn lemma_agreement_needs_relaxed_arcs(adj: Seq<Seq<Edge>>, source: NodeId, pops: nat)
    requires
        source.0 < adj.len(),
        steps(adj, start_of(adj.len(), source), pops).state.distances == exhaust(
            adj,
            start_of(adj.len(), source),
        ).state.distances,
    ensures
        relaxed_everywhere(adj, steps(adj, start_of(adj.len(), source), pops).state),
{
    let start = start_of(adj.len(), source);
    lemma_start_exact(adj, source);
    lemma_exhaust_exact(adj, source, start);
    let end = exhaust(adj, start);
    let state = steps(adj, start, pops).state;
    assert forall|u: NodeId, j: int|
        u.0 < adj.len() && 0 <= j < adj[u.0 as int].len() implies #[trigger] arc_relaxed(
        adj,
        state,
        u.0 as int,
        j,
    ) by {
        if end.state.distances[u.0 as int] != INFINITE {
            if !end.state.visited[u.0 as int] {
                assert(end.queue.contains(
                    QueueNode { node: u, distance: end.state.distances[u.0 as int] },
                ));
            }
            assert(arc_relaxed(adj, end.state, u.0 as int, j));
        }
    }
}

/// Unreachable target: where no route leads from the source to the target, both
/// decompositions answer with no distance and an empty path, after any number of
/// pops.
pub proof fn lemma_unreachable_target(
    adj: Seq<Seq<Edge>>,
    source: NodeId,
    target: NodeId,
    pops: nat,
)
    requires
        !connected(adj, source, target),
    ensures
        exhaustive_result(adj, source, target) == no_result(source, target),
        stepwise_result(adj, source, target, pops) == no_result(source, target),
{
    if source.0 < adj.len() {
        let start = start_of(adj.len(), source);
        lemma_start_exact(adj, source);
        lemma_exhaust_exact(adj, source, start);
        lemma_steps_exact(adj, source, start, pops);
    }
}

} // verus!
