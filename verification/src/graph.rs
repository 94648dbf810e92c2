use vstd::prelude::*;

verus! {

/// Identity of a vertex: its index in the graph, `0..nodes`.
#[derive(Debug, Clone, Copy, PartialEq, Eq, Hash, Structural)]
pub struct NodeId(pub usize);

/// A directed arc to `to` with a non-negative weight.
#[derive(Debug, Clone, Copy)]
pub struct Edge {
    pub to: NodeId,
    pub weight: u32,
}

/// The distance of a node that no relaxation has reached.
pub const INFINITE: u32 = 0xffff_ffff;

/// Every arc of the adjacency `adj` ends at a node of the graph.
pub open spec fn arcs_in_range(adj: Seq<Seq<Edge>>) -> bool {
    forall|i: int, j: int|
        0 <= i < adj.len() && 0 <= j < adj[i].len() ==> (#[trigger] adj[i][j]).to.0 < adj.len()
}

/// The adjacency `adj` with the arc `from -> to` appended to the arcs leaving `from`.
pub open spec fn with_arc(adj: Seq<Seq<Edge>>, from: NodeId, to: NodeId, weight: u32) -> Seq<
    Seq<Edge>,
> {
    adj.update(from.0 as int, adj[from.0 as int].push(Edge { to, weight }))
}

/// A weighted directed graph as adjacency lists, one per node. The number of nodes
/// is fixed when the graph is made, and every arc ends at one of them.
#[derive(Debug)]
pub struct Graph {
    nodes: usize,
    adjacency_list: Vec<Vec<Edge>>,
}

impl View for Graph {
    type V = Seq<Seq<Edge>>;

    /// The adjacency lists as sequences: `self@[u]` are the arcs leaving `u`, in the
    /// order in which they were added.
    closed spec fn view(&self) -> Seq<Seq<Edge>> {
        Seq::new(self.adjacency_list@.len(), |i: int| self.adjacency_list@[i]@)
    }
}

impl Graph {
    #[verifier::type_invariant]
    closed spec fn wf(&self) -> bool {
        &&& self.adjacency_list@.len() == self.nodes
        &&& arcs_in_range(self@)
    }

    /// A graph of `nodes` nodes without arcs.
    pub fn new(nodes: usize) -> (g: Graph)
        ensures
            g@ == Seq::new(nodes as nat, |i: int| Seq::<Edge>::empty()),
    {
        let mut adjacency_list: Vec<Vec<Edge>> = Vec::new();
        let mut i: usize = 0;
        while i < nodes
            invariant
                i <= nodes,
                adjacency_list@.len() == i,
                forall|k: int|
                    0 <= k < i ==> (#[trigger] adjacency_list@[k])@ == Seq::<Edge>::empty(),
            decreases nodes - i,
        {
            adjacency_list.push(Vec::new());
            i = i + 1;
        }
        let ghost adj = Seq::new(adjacency_list@.len(), |i: int| adjacency_list@[i]@);
        assert(adj =~= Seq::new(nodes as nat, |i: int| Seq::<Edge>::empty()));
        Graph { nodes, adjacency_list }
    }

    /// The number of nodes.
    pub fn nodes(&self) -> (n: usize)
        ensures
            n == self@.len(),
            arcs_in_range(self@),
    {
        proof {
            use_type_invariant(self);
        }
        self.nodes
    }

    /// The arcs leaving `node`, in the order in which they were added.
    pub fn edges(&self, node: NodeId) -> (arcs: &Vec<Edge>)
        requires
            node.0 < self@.len(),
        ensures
            arcs@ == self@[node.0 as int],
    {
        proof {
            use_type_invariant(self);
        }
        &self.adjacency_list[node.0]
    }

    /// Appends the arc `from -> to` to the arcs leaving `from`.
    pub fn add_edge(&mut self, from: NodeId, to: NodeId, weight: u32)
        requires
            from.0 < old(self)@.len(),
            to.0 < old(self)@.len(),
        ensures
            final(self)@ == with_arc(old(self)@, from, to, weight),
    {
        proof {
            use_type_invariant(&*self);
        }
        let mut held = Graph { nodes: 0, adjacency_list: Vec::new() };
        std::mem::swap(self, &mut held);
        let Graph { nodes, adjacency_list } = held;
        let mut adjacency_list = adjacency_list;
        let ghost before = Seq::new(adjacency_list@.len(), |i: int| adjacency_list@[i]@);
        adjacency_list[from.0].push(Edge { to, weight });
        proof {
            let after = Seq::new(adjacency_list@.len(), |i: int| adjacency_list@[i]@);
            assert(after =~= with_arc(before, from, to, weight));
            assert forall|i: int, j: int|
                0 <= i < after.len() && 0 <= j < after[i].len() implies (#[trigger] after[i][j]).to.0
                < after.len() by {
                if i == from.0 && j == after[i].len() - 1 {
                } else {
                    assert(after[i][j] == before[i][j]);
                }
            }
        }
        *self = Graph { nodes, adjacency_list };
    }

    /// Appends `from -> to` and then `to -> from`, both with `weight`.
    pub fn add_bidirectional_edge(&mut self, from: NodeId, to: NodeId, weight: u32)
        requires
            from.0 < old(self)@.len(),
            to.0 < old(self)@.len(),
        ensures
            final(self)@ == with_arc(with_arc(old(self)@, from, to, weight), to, from, weight),
    {
        self.add_edge(from, to, weight);
        self.add_edge(to, from, weight);
    }
}

impl Clone for Graph {
    /// A graph with the same nodes and arcs.
    fn clone(&self) -> (g: Graph)
        ensures
            g@ == self@,
    {
        proof {
            use_type_invariant(self);
        }
        let mut adjacency_list: Vec<Vec<Edge>> = Vec::new();
        let mut i: usize = 0;
        while i < self.adjacency_list.len()
            invariant
                i <= self.adjacency_list@.len(),
                adjacency_list@.len() == i,
                forall|k: int|
                    0 <= k < i ==> (#[trigger] adjacency_list@[k])@ == self.adjacency_list@[k]@,
            decreases self.adjacency_list@.len() - i,
        {
            let arcs = &self.adjacency_list[i];
            let mut copy: Vec<Edge> = Vec::new();
            let mut j: usize = 0;
            while j < arcs.len()
                invariant
                    j <= arcs@.len(),
                    copy@ == arcs@.take(j as int),
                decreases arcs@.len() - j,
            {
                copy.push(arcs[j]);
                assert(copy@ =~= arcs@.take(j + 1));
                j = j + 1;
            }
            assert(arcs@.take(arcs@.len() as int) =~= arcs@);
            adjacency_list.push(copy);
            i = i + 1;
        }
        let ghost adj = Seq::new(adjacency_list@.len(), |i: int| adjacency_list@[i]@);
        assert(adj =~= self@);
        Graph { nodes: self.nodes, adjacency_list }
    }
}

/// An entry of the priority queue: a node and a tentative distance to it.
#[derive(Debug, Clone, Copy, PartialEq, Eq, Structural)]
pub struct QueueNode {
    pub node: NodeId,
    pub distance: u32,
}

/// `a` leaves the queue no later than `b`: ascending by distance, ties ascending by node.
pub open spec fn pops_before(a: QueueNode, b: QueueNode) -> bool {
    a.distance < b.distance || (a.distance == b.distance && a.node.0 <= b.node.0)
}

impl QueueNode {
    /// Whether `self` leaves the queue no later than `other`.
    pub fn pops_before(&self, other: &QueueNode) -> (r: bool)
        ensures
            r == pops_before(*self, *other),
    {
        self.distance < other.distance || (self.distance == other.distance && self.node.0
            <= other.node.0)
    }
}

/// What the algorithm knows of each node, as sequences indexed by node.
pub struct StateView {
    pub distances: Seq<u32>,
    pub predecessors: Seq<Option<NodeId>>,
    pub visited: Seq<bool>,
}

/// The state before any node is processed: the source at distance 0, every other
/// node at `INFINITE`, no predecessor, nothing visited.
pub open spec fn initial_state(nodes: nat, source: NodeId) -> StateView {
    StateView {
        distances: Seq::new(nodes, |i: int| if i == source.0 { 0u32 } else { INFINITE }),
        predecessors: Seq::new(nodes, |i: int| None::<NodeId>),
        visited: Seq::new(nodes, |i: int| false),
    }
}

/// The working state of the shortest-path computation.
#[derive(Debug, Clone)]
pub struct DijkstraState {
    pub distances: Vec<u32>,
    pub predecessors: Vec<Option<NodeId>>,
    pub visited: Vec<bool>,
}

impl View for DijkstraState {
    type V = StateView;

    open spec fn view(&self) -> StateView {
        StateView {
            distances: self.distances@,
            predecessors: self.predecessors@,
            visited: self.visited@,
        }
    }
}

impl DijkstraState {
    /// The initial state for a graph of `nodes` nodes and the given source.
    pub fn new(nodes: usize, source: NodeId) -> (state: DijkstraState)
        requires
            source.0 < nodes,
        ensures
            state@ == initial_state(nodes as nat, source),
    {
        let mut distances: Vec<u32> = Vec::new();
        let mut predecessors: Vec<Option<NodeId>> = Vec::new();
        let mut visited: Vec<bool> = Vec::new();
        let mut i: usize = 0;
        while i < nodes
            invariant
                i <= nodes,
                distances@.len() == i,
                predecessors@.len() == i,
                visited@.len() == i,
                forall|k: int|
                    0 <= k < i ==> #[trigger] distances@[k] == if k == source.0 {
                        0u32
                    } else {
                        INFINITE
                    },
                forall|k: int| 0 <= k < i ==> (#[trigger] predecessors@[k]).is_none(),
                forall|k: int| 0 <= k < i ==> !#[trigger] visited@[k],
            decreases nodes - i,
        {
            distances.push(if i == source.0 { 0 } else { INFINITE });
            predecessors.push(None);
            visited.push(false);
            i = i + 1;
        }
        let state = DijkstraState { distances, predecessors, visited };
        proof {
            let want = initial_state(nodes as nat, source);
            assert(state@.distances =~= want.distances);
            assert(state@.predecessors =~= want.predecessors);
            assert(state@.visited =~= want.visited);
        }
        state
    }
}

/// The outcome of a shortest-path query, as plain values.
pub struct ResultView {
    pub source: NodeId,
    pub target: NodeId,
    pub distance: Option<u32>,
    pub path: Seq<NodeId>,
}

/// The predecessor recorded for `node`; none for a node outside the state.
pub open spec fn predecessor_of(predecessors: Seq<Option<NodeId>>, node: NodeId) -> Option<NodeId> {
    if node.0 < predecessors.len() {
        predecessors[node.0 as int]
    } else {
        None
    }
}

/// The nodes met when walking predecessor links from `current` back towards
/// `source`, `current` first and `source` left out. The walk ends at the source, at a
/// node without predecessor, or after `fuel` nodes.
pub open spec fn walk_back(
    predecessors: Seq<Option<NodeId>>,
    source: NodeId,
    current: NodeId,
    fuel: nat,
) -> Seq<NodeId>
    decreases fuel,
{
    if current == source || fuel == 0 {
        Seq::empty()
    } else {
        match predecessor_of(predecessors, current) {
            Some(p) => seq![current] + walk_back(predecessors, source, p, (fuel - 1) as nat),
            None => seq![current],
        }
    }
}

/// The distance recorded for `target`, absent while it is `INFINITE` or the
/// target lies outside the state.
pub open spec fn distance_to(state: StateView, target: NodeId) -> Option<u32> {
    if target.0 < state.distances.len() && state.distances[target.0 as int] != INFINITE {
        Some(state.distances[target.0 as int])
    } else {
        None
    }
}

/// The path that the predecessor links of `state` give from `source` to `target`:
/// empty when the target has no distance, else the walk back from the target,
/// closed by the source and turned round.
pub open spec fn path_to(state: StateView, source: NodeId, target: NodeId) -> Seq<NodeId> {
    if distance_to(state, target).is_some() {
        walk_back(state.predecessors, source, target, state.predecessors.len()).push(
            source,
        ).reverse()
    } else {
        Seq::empty()
    }
}

/// Result of a shortest-path computation.
#[derive(Debug, Clone)]
pub struct ShortestPathResult {
    pub source: NodeId,
    pub target: NodeId,
    pub distance: Option<u32>,
    pub path: Vec<NodeId>,
}

impl View for ShortestPathResult {
    type V = ResultView;

    open spec fn view(&self) -> ResultView {
        ResultView {
            source: self.source,
            target: self.target,
            distance: self.distance,
            path: self.path@,
        }
    }
}

/// The result that `state` holds for the query from `source` to `target`.
pub open spec fn result_of(state: StateView, source: NodeId, target: NodeId) -> ResultView {
    ResultView {
        source,
        target,
        distance: distance_to(state, target),
        path: path_to(state, source, target),
    }
}

/// The result of a query that found nothing: no distance and an empty path.
pub open spec fn no_result(source: NodeId, target: NodeId) -> ResultView {
    ResultView { source, target, distance: None, path: Seq::empty() }
}

impl ShortestPathResult {
    /// Reads the answer for `target` out of a finished state: its distance, and the
    /// path obtained by following predecessor links back to `source`.
    pub fn reconstruct_path(state: &DijkstraState, source: &NodeId, target: &NodeId) -> (r:
        ShortestPathResult)
        ensures
            r@ == result_of(state@, *source, *target),
    {
        let source = *source;
        let target = *target;
        let distance = if target.0 < state.distances.len() && state.distances[target.0]
            != INFINITE {
            Some(state.distances[target.0])
        } else {
            None
        };
        let mut path: Vec<NodeId> = Vec::new();
        if distance.is_some() {
            let n = state.predecessors.len();
            let ghost preds = state.predecessors@;
            let mut back: Vec<NodeId> = Vec::new();
            let mut current = target;
            let mut steps: usize = 0;
            let mut open = true;
            while open && current != source && steps < n
                invariant
                    preds == state.predecessors@,
                    n == preds.len(),
                    steps <= n,
                    back@.len() == steps,
                    open ==> walk_back(preds, source, target, n as nat) == back@ + walk_back(
                        preds,
                        source,
                        current,
                        (n - steps) as nat,
                    ),
                    !open ==> walk_back(preds, source, target, n as nat) == back@,
                decreases (if open { 1int } else { 0int }), n - steps,
            {
                let ghost rest = walk_back(preds, source, current, (n - steps) as nat);
                back.push(current);
                let next = if current.0 < n {
                    state.predecessors[current.0]
                } else {
                    None
                };
                match next {
                    Some(p) => {
                        proof {
                            assert(rest == seq![current] + walk_back(
                                preds,
                                source,
                                p,
                                (n - steps - 1) as nat,
                            ));
                            assert(back@ + walk_back(preds, source, p, (n - steps - 1) as nat)
                                =~= back@.drop_last() + rest);
                        }
                        current = p;
                    },
                    None => {
                        proof {
                            assert(rest == seq![current]);
                            assert(back@ =~= back@.drop_last() + rest);
                        }
                        open = false;
                    },
                }
                steps = steps + 1;
            }
            proof {
                if open {
                    assert(walk_back(preds, source, current, (n - steps) as nat)
                        == Seq::<NodeId>::empty());
                    assert(back@ + Seq::<NodeId>::empty() =~= back@);
                }
            }
            back.push(source);
            let ghost full = back@;
            let mut i: usize = back.len();
            while i > 0
                invariant
                    i <= back.len(),
                    back@ == full,
                    path@.len() == full.len() - i,
                    forall|k: int| 0 <= k < path@.len() ==> path@[k] == full[full.len() - 1 - k],
                decreases i,
            {
                i = i - 1;
                path.push(back[i]);
            }
            proof {
                assert(path@ =~= full.reverse());
            }
        }
        ShortestPathResult { source, target, distance, path }
    }
}

/// The shape of a result: without a distance the path is empty; with one, and a
/// state whose sequences are of one length, the path starts at the source and ends
/// at the target.
pub proof fn lemma_result_shape(state: StateView, source: NodeId, target: NodeId)
    requires
        state.predecessors.len() == state.distances.len(),
    ensures
        result_of(state, source, target).distance is None ==> result_of(
            state,
            source,
            target,
        ).path.len() == 0,
        result_of(state, source, target).distance is Some ==> result_of(
            state,
            source,
            target,
        ).path.len() > 0 && result_of(state, source, target).path.first() == source && result_of(
            state,
            source,
            target,
        ).path.last() == target,
{
    if distance_to(state, target).is_some() {
        let back = walk_back(state.predecessors, source, target, state.predecessors.len());
        let whole = back.push(source);
        let path = whole.reverse();
        assert(path.len() == whole.len());
        assert(path[0] == whole[whole.len() - 1]);
        assert(path[path.len() - 1] == whole[0]);
        if target != source {
            assert(back.len() > 0);
            assert(back[0] == target);
        }
    }
}

} // verus!
