use vstd::prelude::*;
use crate::invariants::{
    in_order, lemma_marked_is_relaxing, lemma_relax_arc_in_order, lemma_start_in_order,
    lemma_step_in_order, relaxing,
};
use crate::graph::{
    distance_to, path_to, predecessor_of, walk_back, Edge, NodeId, StateView, INFINITE,
};
use crate::pipeline::{exhaustive_result, start_of, stepwise_result};
use crate::search::{
    exhaust, extend, is_stale, lemma_step_progress, lemma_unvisited_drops, mark_visited, relax_arc,
    relax_arcs, state_fits, step, steps, unvisited, Search,
};
use crate::shortest::{
    capped, is_route, leads, lemma_distances_are_shortest, route_weight, shortened, takes, Route,
};

verus! {

/// How many nodes are visited.
pub open spec fn visited_so_far(visited: Seq<bool>) -> int {
    visited.len() - unvisited(visited)
}

/// The predecessor recorded for `v` is a visited node at a finite distance, and an
/// arc from it to `v` accounts for the distance of `v`. A node without predecessor
/// is the source or has no finite distance.
pub open spec fn accounted(adj: Seq<Seq<Edge>>, source: NodeId, state: StateView, v: NodeId) -> bool {
    match state.predecessors[v.0 as int] {
        Some(p) => {
            &&& p.0 < adj.len()
            &&& state.visited[p.0 as int]
            &&& state.distances[p.0 as int] != INFINITE
            &&& state.distances[v.0 as int] != INFINITE
            &&& exists|j: int|
                0 <= j < adj[p.0 as int].len() && (#[trigger] adj[p.0 as int][j]).to == v
                    && state.distances[v.0 as int] == state.distances[p.0 as int]
                    + adj[p.0 as int][j].weight
        },
        None => v == source || state.distances[v.0 as int] == INFINITE,
    }
}

/// `rank` orders the nodes by their visits: the visited nodes rank below the number
/// of visits, the others at it, and every predecessor ranks below its node.
pub open spec fn ranked(state: StateView, rank: Seq<int>) -> bool {
    &&& rank.len() == state.visited.len()
    &&& forall|v: int|
        0 <= v < state.visited.len() ==> 0 <= #[trigger] rank[v] && if state.visited[v] {
            rank[v] < visited_so_far(state.visited)
        } else {
            rank[v] == visited_so_far(state.visited)
        }
    &&& forall|v: int|
        0 <= v < state.predecessors.len() ==> match #[trigger] state.predecessors[v] {
            Some(p) => p.0 < rank.len() && rank[p.0 as int] < rank[v],
            None => true,
        }
}

/// The predecessor links can be traced: each is accounted for, and following them
/// never comes back to a node.
pub open spec fn traced(adj: Seq<Seq<Edge>>, source: NodeId, state: StateView) -> bool {
    &&& source.0 < adj.len()
    &&& state_fits(state, adj.len())
    &&& state.distances[source.0 as int] == 0
    &&& forall|v: NodeId| v.0 < adj.len() ==> #[trigger] accounted(adj, source, state, v)
    &&& exists|rank: Seq<int>| #[trigger] ranked(state, rank)
}

/// As many nodes are unvisited as the count says: none more than there are nodes,
/// and at least one where some node is unvisited.
pub proof fn lemma_unvisited_counts(visited: Seq<bool>, v: int)
    requires
        0 <= v < visited.len(),
    ensures
        unvisited(visited) <= visited.len(),
        !visited[v] ==> unvisited(visited) >= 1,
    decreases visited.len(),
{
    if visited.len() > 1 {
        if v < visited.len() - 1 {
            lemma_unvisited_counts(visited.drop_last(), v);
        } else {
            lemma_unvisited_counts(visited.drop_last(), 0);
        }
    } else {
        assert(unvisited(visited.drop_last()) == 0);
    }
}

/// Marking the node of an entry that is not stale keeps the links traced.
proof fn lemma_mark_traced(adj: Seq<Seq<Edge>>, source: NodeId, s: Search)
    requires
        in_order(adj, s),
        traced(adj, source, s.state),
        s.queue.len() > 0,
        !is_stale(s.state, s.queue.last()),
    ensures
        traced(adj, source, mark_visited(s.state, s.queue.last().node)),
{
    let node = s.queue.last().node;
    let n = node.0 as int;
    let marked = mark_visited(s.state, node);
    let rank = choose|rank: Seq<int>| #[trigger] ranked(s.state, rank);
    let c = visited_so_far(s.state.visited);
    lemma_unvisited_drops(s.state.visited, n);
    assert(visited_so_far(marked.visited) == c + 1);
    let next = Seq::new(rank.len(), |v: int| if marked.visited[v] { rank[v] } else { c + 1 });
    assert forall|v: int| 0 <= v < marked.predecessors.len() implies match #[trigger] marked
        .predecessors[v] {
        Some(p) => p.0 < next.len() && next[p.0 as int] < next[v],
        None => true,
    } by {
        match s.state.predecessors[v] {
            Some(p) => {
                assert(s.state.visited[p.0 as int]);
                assert(rank[p.0 as int] < c);
                assert(rank[p.0 as int] < rank[v]);
            },
            None => {},
        }
    }
    assert(ranked(marked, next));
    assert forall|v: NodeId| v.0 < adj.len() implies #[trigger] accounted(
        adj,
        source,
        marked,
        v,
    ) by {
        assert(accounted(adj, source, s.state, v));
    }
}

/// Relaxing an arc in the middle of a visit keeps the links traced.
proof fn lemma_relax_arc_traced(
    adj: Seq<Seq<Edge>>,
    source: NodeId,
    s: Search,
    node: NodeId,
    distance: u32,
    count: int,
)
    requires
        relaxing(adj, s, node, distance),
        traced(adj, source, s.state),
        0 <= count < adj[node.0 as int].len(),
    ensures
        traced(adj, source, relax_arc(s, node, distance, adj[node.0 as int][count]).state),
{
    let arc = adj[node.0 as int][count];
    let after = relax_arc(s, node, distance, arc);
    if after != s {
        let to = arc.to.0 as int;
        let reached = extend(distance, arc.weight);
        assert(!s.state.visited[to]);
        assert(reached == distance + arc.weight);
        let rank = choose|rank: Seq<int>| #[trigger] ranked(s.state, rank);
        assert(ranked(after.state, rank)) by {
            assert forall|v: int|
                0 <= v < after.state.predecessors.len() implies match #[trigger] after.state
                .predecessors[v] {
                Some(p) => p.0 < rank.len() && rank[p.0 as int] < rank[v],
                None => true,
            } by {
                if v == to {
                    assert(rank[node.0 as int] < visited_so_far(s.state.visited));
                    assert(rank[to] == visited_so_far(s.state.visited));
                } else {
                    assert(after.state.predecessors[v] == s.state.predecessors[v]);
                }
            }
        }
        assert forall|v: NodeId| v.0 < adj.len() implies #[trigger] accounted(
            adj,
            source,
            after.state,
            v,
        ) by {
            assert(accounted(adj, source, s.state, v));
            if v == arc.to {
                assert(adj[node.0 as int][count].to == v);
            } else {
                match s.state.predecessors[v.0 as int] {
                    Some(p) => {
                        assert(p.0 != to);
                        let j = choose|j: int|
                            0 <= j < adj[p.0 as int].len() && (#[trigger] adj[p.0 as int][j]).to
                                == v && s.state.distances[v.0 as int] == s.state.distances[p.0 as int]
                                + adj[p.0 as int][j].weight;
                        assert(adj[p.0 as int][j].to == v);
                    },
                    None => {},
                }
            }
        }
    }
}

/// Relaxing arcs in the middle of a visit keeps the links traced.
proof fn lemma_relax_arcs_traced(
    adj: Seq<Seq<Edge>>,
    source: NodeId,
    s: Search,
    node: NodeId,
    distance: u32,
    count: int,
)
    requires
        relaxing(adj, s, node, distance),
        traced(adj, source, s.state),
        0 <= count <= adj[node.0 as int].len(),
    ensures
        relaxing(adj, relax_arcs(s, node, distance, adj[node.0 as int].take(count)), node, distance),
        traced(adj, source, relax_arcs(s, node, distance, adj[node.0 as int].take(count)).state),
    decreases count,
{
    let arcs = adj[node.0 as int].take(count);
    if count > 0 {
        lemma_relax_arcs_traced(adj, source, s, node, distance, count - 1);
        assert(arcs.drop_last() =~= adj[node.0 as int].take(count - 1));
        assert(arcs.last() == adj[node.0 as int][count - 1]);
        let before = relax_arcs(s, node, distance, arcs.drop_last());
        lemma_relax_arc_in_order(adj, before, node, distance, arcs.last());
        lemma_relax_arc_traced(adj, source, before, node, distance, count - 1);
    } else {
        assert(arcs.len() == 0);
    }
}

/// A pop keeps the links traced.
pub proof fn lemma_step_traced(adj: Seq<Seq<Edge>>, source: NodeId, s: Search)
    requires
        in_order(adj, s),
        traced(adj, source, s.state),
    ensures
        traced(adj, source, step(adj, s).state),
{
    if s.queue.len() > 0 {
        let e = s.queue.last();
        if !(is_stale(s.state, e) || e.node.0 >= adj.len()) {
            let marked = Search { state: mark_visited(s.state, e.node), queue: s.queue.drop_last() };
            lemma_marked_is_relaxing(adj, s);
            lemma_mark_traced(adj, source, s);
            let all = adj[e.node.0 as int].len() as int;
            lemma_relax_arcs_traced(adj, source, marked, e.node, e.distance, all);
            assert(adj[e.node.0 as int].take(all) =~= adj[e.node.0 as int]);
        }
    }
}

/// The links of the start of a search are traced.
pub proof fn lemma_start_traced(adj: Seq<Seq<Edge>>, source: NodeId)
    requires
        source.0 < adj.len(),
    ensures
        traced(adj, source, start_of(adj.len(), source).state),
{
    let state = start_of(adj.len(), source).state;
    lemma_all_unvisited(state.visited);
    let rank = Seq::new(adj.len(), |v: int| 0int);
    assert(ranked(state, rank));
    assert forall|v: NodeId| v.0 < adj.len() implies #[trigger] accounted(
        adj,
        source,
        state,
        v,
    ) by {}
}

/// Where no node is visited, all are unvisited.
pub proof fn lemma_all_unvisited(visited: Seq<bool>)
    requires
        forall|v: int| 0 <= v < visited.len() ==> !#[trigger] visited[v],
    ensures
        unvisited(visited) == visited.len(),
    decreases visited.len(),
{
    if visited.len() > 0 {
        lemma_all_unvisited(visited.drop_last());
    }
}

/// Any number of pops keeps the search in order and its links traced.
pub proof fn lemma_steps_traced(adj: Seq<Seq<Edge>>, source: NodeId, s: Search, count: nat)
    requires
        in_order(adj, s),
        traced(adj, source, s.state),
    ensures
        in_order(adj, steps(adj, s, count)),
        traced(adj, source, steps(adj, s, count).state),
    decreases count,
{
    if count > 0 {
        lemma_steps_traced(adj, source, s, (count - 1) as nat);
        let before = steps(adj, s, (count - 1) as nat);
        lemma_step_in_order(adj, before);
        lemma_step_traced(adj, source, before);
    }
}

/// Popping to exhaustion keeps the links traced.
pub proof fn lemma_exhaust_traced(adj: Seq<Seq<Edge>>, source: NodeId, s: Search)
    requires
        in_order(adj, s),
        traced(adj, source, s.state),
    ensures
        traced(adj, source, exhaust(adj, s).state),
    decreases unvisited(s.state.visited), s.queue.len(),
{
    if s.queue.len() > 0 {
        lemma_step_progress(adj, s);
        lemma_step_in_order(adj, s);
        lemma_step_traced(adj, source, s);
        lemma_exhaust_traced(adj, source, step(adj, s));
    }
}

/// The nodes from the source to `current`, as the walk back from `current` finds
/// them.
pub open spec fn trail(state: StateView, source: NodeId, current: NodeId, fuel: nat) -> Seq<NodeId> {
    walk_back(state.predecessors, source, current, fuel).push(source).reverse()
}

/// With traced links, the walk back from a node at a finite distance finds a route
/// from the source to it, of the weight of its distance.
proof fn lemma_trail_is_route(
    adj: Seq<Seq<Edge>>,
    source: NodeId,
    state: StateView,
    rank: Seq<int>,
    current: NodeId,
    fuel: nat,
)
    requires
        traced(adj, source, state),
        ranked(state, rank),
        current.0 < adj.len(),
        state.distances[current.0 as int] != INFINITE,
        fuel > rank[current.0 as int],
    ensures
        exists|route: Route| #[trigger]
            leads(adj, route, source, current) && route.nodes == trail(
                state,
                source,
                current,
                fuel,
            ) && route_weight(adj, route) == state.distances[current.0 as int],
    decreases fuel,
{
    if current == source {
        let alone = Route { nodes: seq![source], picks: Seq::empty() };
        assert(is_route(adj, alone));
        assert(trail(state, source, current, fuel) =~= seq![source]);
        assert(leads(adj, alone, source, current));
    } else {
        assert(accounted(adj, source, state, current));
        let p = state.predecessors[current.0 as int]->Some_0;
        assert(predecessor_of(state.predecessors, current) == Some(p));
        let j = choose|j: int|
            0 <= j < adj[p.0 as int].len() && (#[trigger] adj[p.0 as int][j]).to == current
                && state.distances[current.0 as int] == state.distances[p.0 as int]
                + adj[p.0 as int][j].weight;
        lemma_trail_is_route(adj, source, state, rank, p, (fuel - 1) as nat);
        let shorter = choose|route: Route| #[trigger]
            leads(adj, route, source, p) && route.nodes == trail(
                state,
                source,
                p,
                (fuel - 1) as nat,
            ) && route_weight(adj, route) == state.distances[p.0 as int];
        let longer = Route { nodes: shorter.nodes.push(current), picks: shorter.picks.push(j) };
        assert(shortened(longer).nodes =~= shorter.nodes);
        assert(shortened(longer).picks =~= shorter.picks);
        assert(shortened(longer) == shorter);
        let last = longer.picks.len() - 1;
        assert(longer.nodes[last] == p);
        assert forall|i: int| 0 <= i < longer.picks.len() implies #[trigger] takes(
            adj,
            longer,
            i,
        ) by {
            if i < shorter.picks.len() {
                assert(takes(adj, shorter, i));
                assert(longer.nodes[i] == shorter.nodes[i]);
                assert(longer.nodes[i + 1] == shorter.nodes[i + 1]);
            }
        }
        assert forall|i: int| 0 <= i < longer.nodes.len() implies (#[trigger] longer.nodes[i]).0
            < adj.len() by {
            if i < shorter.nodes.len() {
                assert(longer.nodes[i] == shorter.nodes[i]);
            }
        }
        assert(is_route(adj, longer));
        let back = walk_back(state.predecessors, source, current, fuel);
        let inner = walk_back(state.predecessors, source, p, (fuel - 1) as nat);
        assert(back == seq![current] + inner);
        assert(back.push(source).reverse() =~= inner.push(source).reverse().push(current));
        assert(leads(adj, longer, source, current));
    }
}

/// The path of a result is a route, and a lightest one: where the search was
/// popped to exhaustion and the target has a distance, the path is a route of the
/// graph from the source to the target whose weight is that distance, and no route
/// from the source to the target is lighter.
pub proof fn lemma_path_is_lightest_route(adj: Seq<Seq<Edge>>, source: NodeId, target: NodeId)
    requires
        exhaustive_result(adj, source, target).distance is Some,
    ensures
        exists|route: Route| #[trigger]
            leads(adj, route, source, target) && route.nodes == exhaustive_result(
                adj,
                source,
                target,
            ).path && route_weight(adj, route) == exhaustive_result(
                adj,
                source,
                target,
            ).distance->Some_0,
        forall|other: Route| #[trigger]
            leads(adj, other, source, target) ==> exhaustive_result(
                adj,
                source,
                target,
            ).distance->Some_0 <= capped(route_weight(adj, other)),
{
    let start = start_of(adj.len(), source);
    lemma_start_in_order(adj, source);
    lemma_start_traced(adj, source);
    lemma_exhaust_traced(adj, source, start);
    let state = exhaust(adj, start).state;
    lemma_trail_of_traced(adj, source, state, target);
    lemma_distances_are_shortest(adj, source, target);
}

/// The path after any number of pops is a route: where the target has a distance
/// by then, the path is a route of the graph from the source to the target whose
/// weight is that distance.
pub proof fn lemma_stepwise_path_is_route(
    adj: Seq<Seq<Edge>>,
    source: NodeId,
    target: NodeId,
    pops: nat,
)
    requires
        stepwise_result(adj, source, target, pops).distance is Some,
    ensures
        exists|route: Route| #[trigger]
            leads(adj, route, source, target) && route.nodes == stepwise_result(
                adj,
                source,
                target,
                pops,
            ).path && route_weight(adj, route) == stepwise_result(
                adj,
                source,
                target,
                pops,
            ).distance->Some_0,
{
    let start = start_of(adj.len(), source);
    lemma_start_in_order(adj, source);
    lemma_start_traced(adj, source);
    lemma_steps_traced(adj, source, start, pops);
    lemma_trail_of_traced(adj, source, steps(adj, start, pops).state, target);
}

/// With traced links, the path to a target at a finite distance is a route from
/// the source to it, of the weight of its distance.
pub proof fn lemma_trail_of_traced(
    adj: Seq<Seq<Edge>>,
    source: NodeId,
    state: StateView,
    target: NodeId,
)
    requires
        traced(adj, source, state),
        distance_to(state, target) is Some,
    ensures
        exists|route: Route| #[trigger]
            leads(adj, route, source, target) && route.nodes == path_to(state, source, target)
                && route_weight(adj, route) == state.distances[target.0 as int],
{
    let rank = choose|rank: Seq<int>| #[trigger] ranked(state, rank);
    let t = target.0 as int;
    lemma_unvisited_counts(state.visited, t);
    assert(rank[t] < adj.len());
    lemma_trail_is_route(adj, source, state, rank, target, adj.len());
}

} // verus!
