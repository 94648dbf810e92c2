use vstd::prelude::*;
use crate::shortest::{connected, is_route, leads, lemma_route_extends, takes, Route};
use crate::edge_set::{insert_edge, new_edge_set, pairs_of};
use crate::graph::{with_arc, Edge, Graph, NodeId};

verus! {

/// An arc of the graph goes from `from` to `to`.
pub open spec fn has_arc(adj: Seq<Seq<Edge>>, from: NodeId, to: NodeId) -> bool {
    exists|j: int|
        0 <= j < adj[from.0 as int].len() && (#[trigger] adj[from.0 as int][j]).to == to
}

/// The state that follows `state` in the generator.
pub open spec fn next_state(state: u64) -> u64 {
    state.wrapping_mul(6364136223846793005).wrapping_add(1442695040888963407)
}

/// Simple generator of pseudo-random numbers for reproducible results.
pub struct SimpleRng {
    pub state: u64,
}

impl SimpleRng {
    pub fn new(seed: u64) -> (rng: SimpleRng)
        ensures
            rng.state == seed,
    {
        SimpleRng { state: seed }
    }

    /// Steps the generator and returns the upper half of its new state.
    pub fn next_usize(&mut self) -> (r: usize)
        ensures
            final(self).state == next_state(old(self).state),
            r == final(self).state / 0x1_0000_0000,
    {
        self.state = self.state.wrapping_mul(6364136223846793005).wrapping_add(
            1442695040888963407,
        );
        let state = self.state;
        let upper = state >> 32;
        assert(upper == state / 0x1_0000_0000 && upper <= 0xffff_ffff) by (bit_vector)
            requires
                upper == state >> 32,
        ;
        upper as usize
    }
}

/// Every arc of the graph weighs between 1 and `max_weight`, leads to another node
/// than it leaves, and has an arc of the same weight that leads back.
pub open spec fn mirrored(adj: Seq<Seq<Edge>>, max_weight: u32) -> bool {
    forall|u: int, j: int|
        0 <= u < adj.len() && 0 <= j < adj[u].len() ==> {
            let arc = #[trigger] adj[u][j];
            &&& 1 <= arc.weight <= max_weight
            &&& arc.to.0 != u
            &&& arc.to.0 < adj.len()
            &&& adj[arc.to.0 as int].contains(Edge { to: NodeId(u as usize), weight: arc.weight })
        }
}

/// `after` has the nodes of `before`, and each keeps its arcs, in front of any new
/// ones.
pub open spec fn extends(before: Seq<Seq<Edge>>, after: Seq<Seq<Edge>>) -> bool {
    &&& after.len() == before.len()
    &&& forall|u: int|
        0 <= u < before.len() ==> before[u].len() <= (#[trigger] after[u]).len() && after[u].take(
            before[u].len() as int,
        ) == before[u]
}

/// Where a route leads in a graph, it leads in every graph that extends it.
pub proof fn lemma_route_survives(
    before: Seq<Seq<Edge>>,
    after: Seq<Seq<Edge>>,
    from: NodeId,
    to: NodeId,
)
    requires
        extends(before, after),
        connected(before, from, to),
    ensures
        connected(after, from, to),
{
    let route = choose|route: Route| #[trigger] leads(before, route, from, to);
    assert forall|i: int| 0 <= i < route.picks.len() implies #[trigger] takes(after, route, i) by {
        assert(takes(before, route, i));
        let u = route.nodes[i].0 as int;
        assert(route.nodes[i].0 < before.len());
        assert(after[u].take(before[u].len() as int)[route.picks[i]] == after[u][route.picks[i]]);
    }
    assert(is_route(after, route));
    assert(leads(after, route, from, to));
}

/// A graph with a pair of arcs added between two different nodes extends the graph,
/// and stays mirrored.
pub proof fn lemma_pair_added(
    adj: Seq<Seq<Edge>>,
    from: NodeId,
    to: NodeId,
    weight: u32,
    max_weight: u32,
)
    requires
        mirrored(adj, max_weight),
        from.0 < adj.len(),
        to.0 < adj.len(),
        from != to,
        1 <= weight <= max_weight,
    ensures
        extends(adj, with_arc(with_arc(adj, from, to, weight), to, from, weight)),
        mirrored(with_arc(with_arc(adj, from, to, weight), to, from, weight), max_weight),
        has_arc(with_arc(with_arc(adj, from, to, weight), to, from, weight), from, to),
{
    let middle = with_arc(adj, from, to, weight);
    let after = with_arc(middle, to, from, weight);
    let f = from.0 as int;
    let t = to.0 as int;
    assert(after[f] == adj[f].push(Edge { to, weight }));
    assert(after[t] == adj[t].push(Edge { to: from, weight }));
    assert forall|u: int| 0 <= u < adj.len() implies adj[u].len() <= (#[trigger] after[u]).len()
        && after[u].take(adj[u].len() as int) == adj[u] by {
        assert(after[u].take(adj[u].len() as int) =~= adj[u]);
    }
    assert(after[f][adj[f].len() as int].to == to);
    assert forall|u: int, j: int| 0 <= u < after.len() && 0 <= j < after[u].len() implies {
        let arc = #[trigger] after[u][j];
        &&& 1 <= arc.weight <= max_weight
        &&& arc.to.0 != u
        &&& arc.to.0 < after.len()
        &&& after[arc.to.0 as int].contains(Edge { to: NodeId(u as usize), weight: arc.weight })
    } by {
        let arc = after[u][j];
        if j < adj[u].len() {
            assert(after[u].take(adj[u].len() as int)[j] == after[u][j]);
            assert(arc == adj[u][j]);
            let back = Edge { to: NodeId(u as usize), weight: arc.weight };
            let v = arc.to.0 as int;
            assert(adj[v].contains(back));
            let k = choose|k: int| 0 <= k < adj[v].len() && adj[v][k] == back;
            assert(after[v].take(adj[v].len() as int)[k] == after[v][k]);
            assert(after[v][k] == back);
        } else if u == f {
            assert(arc == Edge { to, weight });
            assert(after[t][adj[t].len() as int] == Edge { to: from, weight });
            assert(NodeId(u as usize) == from);
        } else {
            assert(u == t);
            assert(arc == Edge { to: from, weight });
            assert(after[f][adj[f].len() as int] == Edge { to, weight });
            assert(NodeId(u as usize) == to);
        }
    }
}

/// No two arcs that leave the same node lead to the same node.
pub open spec fn simple(adj: Seq<Seq<Edge>>) -> bool {
    forall|u: int, j: int, k: int|
        0 <= u < adj.len() && 0 <= j < k < adj[u].len() ==> (#[trigger] adj[u][j]).to != (
        #[trigger] adj[u][k]).to
}

/// The set holds exactly the pairs of nodes, the smaller first, between which the
/// graph has an arc.
pub open spec fn tied(adj: Seq<Seq<Edge>>, pairs: Set<(usize, usize)>) -> bool {
    forall|a: usize, b: usize|
        a < b < adj.len() ==> (#[trigger] pairs.contains((a, b)) <==> has_arc(
            adj,
            NodeId(a),
            NodeId(b),
        ))
}

/// The nodes from `count` on have no arcs.
pub open spec fn untouched_from(adj: Seq<Seq<Edge>>, count: int) -> bool {
    forall|u: int| count <= u < adj.len() ==> (#[trigger] adj[u]).len() == 0
}

/// In a mirrored graph an arc one way means an arc the other way.
pub proof fn lemma_arcs_go_both_ways(adj: Seq<Seq<Edge>>, max_weight: u32, from: NodeId, to: NodeId)
    requires
        mirrored(adj, max_weight),
        from.0 < adj.len(),
        has_arc(adj, from, to),
    ensures
        to.0 < adj.len(),
        has_arc(adj, to, from),
{
    let j = choose|j: int|
        0 <= j < adj[from.0 as int].len() && (#[trigger] adj[from.0 as int][j]).to == to;
    let arc = adj[from.0 as int][j];
    let back = Edge { to: NodeId(from.0 as int as usize), weight: arc.weight };
    assert(adj[to.0 as int].contains(back));
    let k = choose|k: int| 0 <= k < adj[to.0 as int].len() && adj[to.0 as int][k] == back;
    assert(adj[to.0 as int][k].to == from);
}

/// A pair of arcs added between two nodes that no arc joined keeps the graph
/// simple, and the set with their pair added stays tied to it.
pub proof fn lemma_new_pair_keeps_simple(
    adj: Seq<Seq<Edge>>,
    pairs: Set<(usize, usize)>,
    from: NodeId,
    to: NodeId,
    weight: u32,
    max_weight: u32,
)
    requires
        mirrored(adj, max_weight),
        simple(adj),
        tied(adj, pairs),
        from.0 < adj.len(),
        to.0 < adj.len(),
        from != to,
        !has_arc(adj, from, to),
    ensures
        simple(with_arc(with_arc(adj, from, to, weight), to, from, weight)),
        tied(
            with_arc(with_arc(adj, from, to, weight), to, from, weight),
            pairs.insert(
                if from.0 <= to.0 {
                    (from.0, to.0)
                } else {
                    (to.0, from.0)
                },
            ),
        ),
{
    let after = with_arc(with_arc(adj, from, to, weight), to, from, weight);
    let f = from.0 as int;
    let t = to.0 as int;
    let pair = if from.0 <= to.0 {
        (from.0, to.0)
    } else {
        (to.0, from.0)
    };
    if has_arc(adj, to, from) {
        lemma_arcs_go_both_ways(adj, max_weight, to, from);
    }
    assert(after[f] == adj[f].push(Edge { to, weight }));
    assert(after[t] == adj[t].push(Edge { to: from, weight }));
    assert forall|u: int, j: int, k: int|
        0 <= u < after.len() && 0 <= j < k < after[u].len() implies (#[trigger] after[u][j]).to != (
    #[trigger] after[u][k]).to by {
        if k < adj[u].len() {
            assert(after[u][j] == adj[u][j]);
            assert(after[u][k] == adj[u][k]);
        } else {
            assert(after[u][j] == adj[u][j]);
            if u == f {
                assert(after[u][k].to == to);
            } else {
                assert(after[u][k].to == from);
            }
        }
    }
    assert forall|a: usize, b: usize| a < b < after.len() implies (#[trigger] pairs.insert(
        pair,
    ).contains((a, b)) <==> has_arc(after, NodeId(a), NodeId(b))) by {
        let x = NodeId(a);
        let y = NodeId(b);
        if has_arc(adj, x, y) {
            let j = choose|j: int|
                0 <= j < adj[a as int].len() && (#[trigger] adj[a as int][j]).to == y;
            assert(after[a as int][j] == adj[a as int][j]);
            assert(pairs.contains((a, b)));
        }
        if has_arc(after, x, y) && !has_arc(adj, x, y) {
            let j = choose|j: int|
                0 <= j < after[a as int].len() && (#[trigger] after[a as int][j]).to == y;
            if j < adj[a as int].len() {
                assert(after[a as int][j] == adj[a as int][j]);
            }
            assert((a, b) == pair);
        }
        if (a, b) == pair {
            if from.0 <= to.0 {
                assert(after[f][adj[f].len() as int].to == to);
            } else {
                assert(after[t][adj[t].len() as int].to == from);
            }
        }
        if pairs.contains((a, b)) {
            assert(has_arc(adj, x, y));
        }
    }
}

/// To every node below `count` a route leads from node 0.
pub open spec fn connected_below(adj: Seq<Seq<Edge>>, count: int) -> bool {
    forall|v: NodeId| v.0 < count ==> #[trigger] connected(adj, NodeId(0), v)
}

impl Graph {
    /// Generates a connected graph of `nodes` nodes from a fixed seed: a spanning
    /// tree first, in which every node but the first is tied to an earlier one, then
    /// further edges between pairs of nodes not yet tied, until `edges` edges are
    /// there or ten times as many pairs were tried. Every edge is a pair of arcs, one
    /// each way, of a weight between 1 and `max_weight`.
    pub fn random_connected(nodes: usize, edges: usize, max_weight: u32) -> (g: Graph)
        requires
            nodes >= 1,
            max_weight >= 1,
            edges * 10 <= usize::MAX,
        ensures
            g@.len() == nodes,
            mirrored(g@, max_weight),
            simple(g@),
            connected_below(g@, nodes as int),
    {
        let mut graph = Graph::new(nodes);
        let mut rng = SimpleRng::new(12345);
        let mut edge_set = new_edge_set();
        proof {
            let alone = Route { nodes: seq![NodeId(0)], picks: Seq::empty() };
            assert(is_route(graph@, alone));
            assert(leads(graph@, alone, NodeId(0), NodeId(0)));
        }
        let mut i: usize = 1;
        while i < nodes
            invariant
                1 <= i <= nodes,
                max_weight >= 1,
                graph@.len() == nodes,
                mirrored(graph@, max_weight),
                simple(graph@),
                tied(graph@, pairs_of(edge_set)),
                untouched_from(graph@, i as int),
                connected_below(graph@, i as int),
            decreases nodes - i,
        {
            let parent = rng.next_usize() % i;
            let weight = pick_weight(&mut rng, max_weight);
            let ghost before = graph@;
            let ghost pairs = pairs_of(edge_set);
            graph.add_bidirectional_edge(NodeId(parent), NodeId(i), weight);
            let _ = insert_edge(&mut edge_set, ordered(parent, i));
            proof {
                if has_arc(before, NodeId(parent), NodeId(i)) {
                    lemma_arcs_go_both_ways(before, max_weight, NodeId(parent), NodeId(i));
                    assert(before[i as int].len() == 0);
                }
                lemma_pair_added(before, NodeId(parent), NodeId(i), weight, max_weight);
                lemma_new_pair_keeps_simple(
                    before,
                    pairs,
                    NodeId(parent),
                    NodeId(i),
                    weight,
                    max_weight,
                );
                lemma_connection_grows(before, graph@, i as int, NodeId(parent), NodeId(i));
                assert forall|u: int| i + 1 <= u < graph@.len() implies (#[trigger] graph@[u]).len()
                    == 0 by {
                    assert(before[u].len() == 0);
                }
            }
            i = i + 1;
        }
        let mut added: usize = nodes - 1;
        let mut attempts: usize = 0;
        while added < edges && attempts < edges * 10
            invariant
                nodes >= 1,
                max_weight >= 1,
                edges * 10 <= usize::MAX,
                graph@.len() == nodes,
                mirrored(graph@, max_weight),
                simple(graph@),
                tied(graph@, pairs_of(edge_set)),
                connected_below(graph@, nodes as int),
            decreases edges * 10 - attempts,
        {
            let from = rng.next_usize() % nodes;
            let to = rng.next_usize() % nodes;
            if from != to {
                let ghost pairs = pairs_of(edge_set);
                if insert_edge(&mut edge_set, ordered(from, to)) {
                    let weight = pick_weight(&mut rng, max_weight);
                    let ghost before = graph@;
                    graph.add_bidirectional_edge(NodeId(from), NodeId(to), weight);
                    proof {
                        if has_arc(before, NodeId(from), NodeId(to)) {
                            lemma_arcs_go_both_ways(before, max_weight, NodeId(from), NodeId(to));
                            assert(pairs.contains(ordered_pair(from, to)));
                        }
                        lemma_new_pair_keeps_simple(
                            before,
                            pairs,
                            NodeId(from),
                            NodeId(to),
                            weight,
                            max_weight,
                        );
                        lemma_pair_added(before, NodeId(from), NodeId(to), weight, max_weight);
                        assert forall|v: NodeId| v.0 < nodes implies #[trigger] connected(
                            graph@,
                            NodeId(0),
                            v,
                        ) by {
                            assert(connected(before, NodeId(0), v));
                            lemma_route_survives(before, graph@, NodeId(0), v);
                        }
                    }
                    added = added + 1;
                } else {
                    assert(pairs_of(edge_set) =~= pairs);
                }
            }
            attempts = attempts + 1;
        }
        graph
    }
}

/// With an arc from an earlier node to the node `count`, a route leads to every
/// node up to `count` in the extended graph.
proof fn lemma_connection_grows(
    before: Seq<Seq<Edge>>,
    after: Seq<Seq<Edge>>,
    count: int,
    parent: NodeId,
    child: NodeId,
)
    requires
        extends(before, after),
        connected_below(before, count),
        0 <= parent.0 < count,
        child.0 == count,
        count < after.len(),
        has_arc(after, parent, child),
    ensures
        connected_below(after, count + 1),
{
    assert forall|v: NodeId| v.0 < count + 1 implies #[trigger] connected(after, NodeId(0), v) by {
        if v.0 < count {
            assert(connected(before, NodeId(0), v));
            lemma_route_survives(before, after, NodeId(0), v);
        } else {
            assert(connected(before, NodeId(0), parent));
            lemma_route_survives(before, after, NodeId(0), parent);
            let route = choose|route: Route| #[trigger] leads(after, route, NodeId(0), parent);
            let j = choose|j: int|
                0 <= j < after[parent.0 as int].len() && (#[trigger] after[parent.0 as int][j]).to
                    == child;
            lemma_route_extends(after, route, NodeId(0), parent, j);
            assert(v == child);
        }
    }
}

/// The pair with the smaller number first.
pub open spec fn ordered_pair(a: usize, b: usize) -> (usize, usize) {
    if a <= b {
        (a, b)
    } else {
        (b, a)
    }
}

/// The pair with the smaller number first.
pub fn ordered(a: usize, b: usize) -> (pair: (usize, usize))
    ensures
        pair == ordered_pair(a, b),
{
    if a <= b {
        (a, b)
    } else {
        (b, a)
    }
}

/// The next weight from the generator, between 1 and `max_weight`.
fn pick_weight(rng: &mut SimpleRng, max_weight: u32) -> (weight: u32)
    requires
        max_weight >= 1,
    ensures
        1 <= weight <= max_weight,
        final(rng).state == next_state(old(rng).state),
        weight == (final(rng).state / 0x1_0000_0000) % (max_weight as u64) + 1,
{
    let drawn = rng.next_usize() % (max_weight as usize);
    (drawn as u32) + 1
}

} // verus!
