use vstd::prelude::*;
use crate::context::{
    graph_in, key_graph, key_queue, key_result, key_source, key_state, lemma_keys_differ, queue_in,
    result_in, source_in, state_in, with_search, ContextView, Outcome, ValueView,
};
use crate::dijkstra_events::{
    DijkstraEvent, FinalizeResultEvent, InitializePriorityQueueEvent, InitializeStateEvent,
    ProcessAllNodesEvent, ProcessNodeEvent,
};
use crate::eventchains::{
    completed, lemma_aborted_stays, report, run_chain, run_prefix, wrapped, ChainableEvent,
    EventMiddleware, FailureData, FaultToleranceMode,
};
use crate::graph::{
    initial_state, no_result, result_of, Edge, NodeId, QueueNode, ResultView, StateView,
};
use crate::search::{exhaust, lemma_step_fits, state_fits, step, steps, Search};

verus! {

/// What the store holds for the shortest-path pipeline: the values under its five
/// keys, each absent where the key is free or holds another kind.
pub struct Pipeline {
    pub graph: Option<Seq<Seq<Edge>>>,
    pub state: Option<StateView>,
    pub source: Option<NodeId>,
    pub queue: Option<Seq<QueueNode>>,
    pub result: Option<ResultView>,
}

/// The pipeline's part of the store `c`.
pub open spec fn pipeline_of(c: ContextView) -> Pipeline {
    Pipeline {
        graph: graph_in(c),
        state: state_in(c),
        source: source_in(c),
        queue: queue_in(c),
        result: result_in(c),
    }
}

/// The middleware never cuts a call short, hands the outcome on as it is, and leaves
/// the pipeline's part of the store alone.
pub open spec fn transparent<M: EventMiddleware>(m: M) -> bool {
    &&& forall|name: Seq<char>, c: ContextView|
        (#[trigger] m.enter(name, c)).1 is None && pipeline_of(m.enter(name, c).0)
            == pipeline_of(c)
    &&& forall|name: Seq<char>, c: ContextView, o: Outcome|
        (#[trigger] m.leave(name, c, o)).1 == o && pipeline_of(m.leave(name, c, o).0)
            == pipeline_of(c)
}

/// Every middleware of the stack is transparent.
pub open spec fn all_transparent<M: EventMiddleware>(middlewares: Seq<M>) -> bool {
    forall|i: int| 0 <= i < middlewares.len() ==> transparent(#[trigger] middlewares[i])
}

/// The event reads and writes the pipeline's part of the store only: on two stores
/// with the same part it ends alike and leaves the same part.
pub open spec fn local<E: ChainableEvent>(e: E) -> bool {
    forall|c1: ContextView, c2: ContextView|
        pipeline_of(c1) == pipeline_of(c2) ==> (#[trigger] e.effect(c1)).1 == (#[trigger] e.effect(
            c2,
        )).1 && pipeline_of(e.effect(c1).0) == pipeline_of(e.effect(c2).0)
}

/// Inside transparent middleware a local event ends as it does alone, and leaves
/// the same pipeline.
pub proof fn lemma_wrapped_transparent<E: ChainableEvent, M: EventMiddleware>(
    middlewares: Seq<M>,
    event: E,
    c: ContextView,
)
    requires
        all_transparent(middlewares),
        local(event),
    ensures
        wrapped(middlewares, event, c).1 == event.effect(c).1,
        pipeline_of(wrapped(middlewares, event, c).0) == pipeline_of(event.effect(c).0),
    decreases middlewares.len(),
{
    if middlewares.len() > 0 {
        let outer = middlewares.last();
        let name = event.label();
        assert(transparent(middlewares[middlewares.len() - 1]));
        let entered = outer.enter(name, c);
        assert(entered.1 is None);
        let inner_stack = middlewares.drop_last();
        assert(all_transparent(inner_stack)) by {
            assert forall|i: int| 0 <= i < inner_stack.len() implies transparent(
                #[trigger] inner_stack[i],
            ) by {
                assert(transparent(middlewares[i]));
            }
        }
        lemma_wrapped_transparent(inner_stack, event, entered.0);
        let inner = wrapped(inner_stack, event, entered.0);
        assert(wrapped(middlewares, event, c) == outer.leave(name, inner.0, inner.1));
        assert(event.effect(entered.0).1 == event.effect(c).1);
    }
}

/// The pipeline after `InitializeState`.
pub open spec fn initialized(p: Pipeline, source: NodeId, nodes: nat) -> Pipeline {
    Pipeline { state: Some(initial_state(nodes, source)), source: Some(source), ..p }
}

/// The pipeline with the state and queue of `s` in place of its own.
pub open spec fn searched(p: Pipeline, s: Search) -> Pipeline {
    Pipeline { state: Some(s.state), queue: Some(s.queue), ..p }
}

/// What `InitializeState` does to the pipeline.
pub proof fn lemma_initialize_state(e: InitializeStateEvent, c: ContextView)
    ensures
        e.source.0 < e.node_count ==> e.effect(c).1 == Outcome::Success && pipeline_of(
            e.effect(c).0,
        ) == initialized(pipeline_of(c), e.source, e.node_count as nat),
        e.source.0 >= e.node_count ==> e.effect(c).1 is Failure && e.effect(c).0 == c,
{
    lemma_keys_differ();
}

/// What `InitializePriorityQueue` does to the pipeline.
pub proof fn lemma_initialize_queue(e: InitializePriorityQueueEvent, c: ContextView)
    ensures
        pipeline_of(c).source matches Some(source) ==> e.effect(c).1 == Outcome::Success
            && pipeline_of(e.effect(c).0) == (Pipeline {
            queue: Some(seq![QueueNode { node: source, distance: 0 }]),
            ..pipeline_of(c)
        }),
        pipeline_of(c).source is None ==> e.effect(c).1 is Failure && e.effect(c).0 == c,
{
    lemma_keys_differ();
}

/// State, queue and graph are in the store, and the state is of the graph's size.
pub open spec fn ready(p: Pipeline) -> bool {
    &&& p.state is Some
    &&& p.queue is Some
    &&& p.graph is Some
    &&& state_fits(p.state.unwrap(), p.graph.unwrap().len())
}

/// The search that the pipeline holds.
pub open spec fn search_of(p: Pipeline) -> Search {
    Search { state: p.state.unwrap(), queue: p.queue.unwrap() }
}

/// Storing a search changes state and queue of the pipeline, and nothing else.
pub proof fn lemma_with_search(c: ContextView, s: Search)
    ensures
        pipeline_of(with_search(c, s)) == searched(pipeline_of(c), s),
{
    lemma_keys_differ();
}

/// What `ProcessNode` does to the pipeline.
pub proof fn lemma_process_node(e: ProcessNodeEvent, c: ContextView)
    ensures
        ready(pipeline_of(c)) ==> e.effect(c).1 == Outcome::Success && pipeline_of(e.effect(c).0)
            == searched(
            pipeline_of(c),
            step(pipeline_of(c).graph.unwrap(), search_of(pipeline_of(c))),
        ),
        !ready(pipeline_of(c)) ==> e.effect(c).1 is Failure && e.effect(c).0 == c,
{
    lemma_keys_differ();
    if ready(pipeline_of(c)) {
        let p = pipeline_of(c);
        lemma_with_search(c, step(p.graph.unwrap(), search_of(p)));
    }
}

/// What `ProcessAllNodes` does to the pipeline.
pub proof fn lemma_process_all_nodes(e: ProcessAllNodesEvent, c: ContextView)
    ensures
        ready(pipeline_of(c)) ==> e.effect(c).1 == Outcome::Success && pipeline_of(e.effect(c).0)
            == searched(
            pipeline_of(c),
            exhaust(pipeline_of(c).graph.unwrap(), search_of(pipeline_of(c))),
        ),
        !ready(pipeline_of(c)) ==> e.effect(c).1 is Failure && e.effect(c).0 == c,
{
    lemma_keys_differ();
    if ready(pipeline_of(c)) {
        let p = pipeline_of(c);
        lemma_with_search(c, exhaust(p.graph.unwrap(), search_of(p)));
    }
}

/// What `FinalizeResult` does to the pipeline.
pub proof fn lemma_finalize_result(e: FinalizeResultEvent, c: ContextView)
    ensures
        pipeline_of(c).state is Some && pipeline_of(c).source is Some ==> e.effect(c).1
            == Outcome::Success && pipeline_of(e.effect(c).0) == (Pipeline {
            result: Some(
                result_of(pipeline_of(c).state.unwrap(), pipeline_of(c).source.unwrap(), e.target),
            ),
            ..pipeline_of(c)
        }),
        !(pipeline_of(c).state is Some && pipeline_of(c).source is Some) ==> e.effect(c).1 is Failure
            && e.effect(c).0 == c,
{
    lemma_keys_differ();
}

/// `InitializeState` is local.
pub proof fn lemma_local_initialize_state(e: InitializeStateEvent, c1: ContextView, c2: ContextView)
    requires
        pipeline_of(c1) == pipeline_of(c2),
    ensures
        e.effect(c1).1 == e.effect(c2).1,
        pipeline_of(e.effect(c1).0) == pipeline_of(e.effect(c2).0),
{
    lemma_initialize_state(e, c1);
    lemma_initialize_state(e, c2);
}

/// `InitializePriorityQueue` is local.
pub proof fn lemma_local_initialize_queue(
    e: InitializePriorityQueueEvent,
    c1: ContextView,
    c2: ContextView,
)
    requires
        pipeline_of(c1) == pipeline_of(c2),
    ensures
        e.effect(c1).1 == e.effect(c2).1,
        pipeline_of(e.effect(c1).0) == pipeline_of(e.effect(c2).0),
{
    lemma_initialize_queue(e, c1);
    lemma_initialize_queue(e, c2);
}

/// `ProcessNode` is local.
pub proof fn lemma_local_process_node(e: ProcessNodeEvent, c1: ContextView, c2: ContextView)
    requires
        pipeline_of(c1) == pipeline_of(c2),
    ensures
        e.effect(c1).1 == e.effect(c2).1,
        pipeline_of(e.effect(c1).0) == pipeline_of(e.effect(c2).0),
{
    lemma_process_node(e, c1);
    lemma_process_node(e, c2);
}

/// `ProcessAllNodes` is local.
pub proof fn lemma_local_process_all_nodes(
    e: ProcessAllNodesEvent,
    c1: ContextView,
    c2: ContextView,
)
    requires
        pipeline_of(c1) == pipeline_of(c2),
    ensures
        e.effect(c1).1 == e.effect(c2).1,
        pipeline_of(e.effect(c1).0) == pipeline_of(e.effect(c2).0),
{
    lemma_process_all_nodes(e, c1);
    lemma_process_all_nodes(e, c2);
}

/// `FinalizeResult` is local.
pub proof fn lemma_local_finalize_result(e: FinalizeResultEvent, c1: ContextView, c2: ContextView)
    requires
        pipeline_of(c1) == pipeline_of(c2),
    ensures
        e.effect(c1).1 == e.effect(c2).1,
        pipeline_of(e.effect(c1).0) == pipeline_of(e.effect(c2).0),
{
    lemma_finalize_result(e, c1);
    lemma_finalize_result(e, c2);
}

/// The events of the shortest-path pipeline are local.
pub proof fn lemma_pipeline_event_local(e: DijkstraEvent)
    ensures
        local(e),
{
    assert forall|c1: ContextView, c2: ContextView|
        pipeline_of(c1) == pipeline_of(c2) implies (#[trigger] e.effect(c1)).1 == (
    #[trigger] e.effect(c2)).1 && pipeline_of(e.effect(c1).0) == pipeline_of(e.effect(c2).0) by {
        match e {
            DijkstraEvent::InitializeState(inner) => {
                lemma_local_initialize_state(inner, c1, c2);
            },
            DijkstraEvent::InitializePriorityQueue(inner) => {
                lemma_local_initialize_queue(inner, c1, c2);
            },
            DijkstraEvent::ProcessNode(inner) => {
                lemma_local_process_node(inner, c1, c2);
            },
            DijkstraEvent::ProcessAllNodes(inner) => {
                lemma_local_process_all_nodes(inner, c1, c2);
            },
            DijkstraEvent::FinalizeResult(inner) => {
                lemma_local_finalize_result(inner, c1, c2);
            },
        }
    }
}

/// One more event of a run inside transparent middleware: the run goes on from the
/// store that the event alone would leave, as far as the pipeline goes, and a
/// failure is recorded under its name.
pub proof fn lemma_run_event<E: ChainableEvent, M: EventMiddleware>(
    events: Seq<E>,
    middlewares: Seq<M>,
    mode: FaultToleranceMode,
    c: ContextView,
    count: nat,
)
    requires
        1 <= count <= events.len(),
        all_transparent(middlewares),
        local(events[count - 1]),
        !run_prefix(events, middlewares, mode, c, (count - 1) as nat).aborted,
    ensures
        ({
            let before = run_prefix(events, middlewares, mode, c, (count - 1) as nat);
            let after = run_prefix(events, middlewares, mode, c, count);
            let alone = events[count - 1].effect(before.context);
            &&& pipeline_of(after.context) == pipeline_of(alone.0)
            &&& alone.1 is Success ==> after.failures == before.failures && !after.aborted
            &&& alone.1 matches Outcome::Failure(message) ==> after.failures
                == before.failures.push(
                FailureData { event_name: events[count - 1].label(), error_message: message },
            ) && after.aborted == (mode == FaultToleranceMode::Strict)
        }),
{
    let before = run_prefix(events, middlewares, mode, c, (count - 1) as nat);
    lemma_wrapped_transparent(middlewares, events[count - 1], before.context);
}

/// The search as the two initializing events leave it: the initial state, and the
/// source queued at distance 0.
pub open spec fn start_of(nodes: nat, source: NodeId) -> Search {
    Search {
        state: initial_state(nodes, source),
        queue: seq![QueueNode { node: source, distance: 0 }],
    }
}

/// The fine-grained chain: initialization of state and queue, `pops` events that
/// process one node each, and the finalizing event.
pub open spec fn is_fine_chain(
    events: Seq<DijkstraEvent>,
    source: NodeId,
    target: NodeId,
    nodes: usize,
    pops: nat,
) -> bool {
    &&& events.len() == pops + 3
    &&& events[0] == initialize_state(source, nodes)
    &&& events[1] == DijkstraEvent::InitializePriorityQueue(InitializePriorityQueueEvent)
    &&& forall|j: int|
        2 <= j < 2 + pops ==> #[trigger] events[j] == DijkstraEvent::ProcessNode(ProcessNodeEvent)
    &&& events[pops as int + 2] == finalize_result(target)
}

/// The event that initializes the state for `source` in a graph of `nodes` nodes.
pub open spec fn initialize_state(source: NodeId, nodes: usize) -> DijkstraEvent {
    DijkstraEvent::InitializeState(InitializeStateEvent { source, node_count: nodes })
}

/// The event that reads the answer for `target`.
pub open spec fn finalize_result(target: NodeId) -> DijkstraEvent {
    DijkstraEvent::FinalizeResult(FinalizeResultEvent { target })
}

/// The coarse-grained chain: initialization of state and queue, one event that
/// processes all nodes, and the finalizing event.
pub open spec fn is_coarse_chain(
    events: Seq<DijkstraEvent>,
    source: NodeId,
    target: NodeId,
    nodes: usize,
) -> bool {
    &&& events.len() == 4
    &&& events[0] == initialize_state(source, nodes)
    &&& events[1] == DijkstraEvent::InitializePriorityQueue(InitializePriorityQueueEvent)
    &&& events[2] == DijkstraEvent::ProcessAllNodes(ProcessAllNodesEvent)
    &&& events[3] == finalize_result(target)
}

/// The events of the fine-grained chain for a graph of `nodes` nodes.
pub open spec fn fine_events(source: NodeId, target: NodeId, nodes: usize) -> Seq<DijkstraEvent> {
    Seq::new(
        (nodes + 3) as nat,
        |i: int|
            if i == 0 {
                initialize_state(source, nodes)
            } else if i == 1 {
                DijkstraEvent::InitializePriorityQueue(InitializePriorityQueueEvent)
            } else if i < nodes + 2 {
                DijkstraEvent::ProcessNode(ProcessNodeEvent)
            } else {
                finalize_result(target)
            },
    )
}

/// The events of the coarse-grained chain for a graph of `nodes` nodes.
pub open spec fn coarse_events(source: NodeId, target: NodeId, nodes: usize) -> Seq<
    DijkstraEvent,
> {
    seq![
        initialize_state(source, nodes),
        DijkstraEvent::InitializePriorityQueue(InitializePriorityQueueEvent),
        DijkstraEvent::ProcessAllNodes(ProcessAllNodesEvent),
        finalize_result(target),
    ]
}

/// The store that a run starts from: it holds the graph and nothing else.
pub open spec fn seeded(graph: Seq<Seq<Edge>>) -> ContextView {
    Map::<Seq<char>, ValueView>::empty().insert(key_graph(), ValueView::Graph(graph))
}

/// The steps of a search that fits the graph fit it too.
pub proof fn lemma_steps_fit(adj: Seq<Seq<Edge>>, s: Search, count: nat)
    requires
        state_fits(s.state, adj.len()),
    ensures
        state_fits(steps(adj, s, count).state, adj.len()),
    decreases count,
{
    if count > 0 {
        lemma_steps_fit(adj, s, (count - 1) as nat);
        lemma_step_fits(adj, steps(adj, s, (count - 1) as nat));
    }
}

/// A run of either chain on a store that holds the graph, up to the two
/// initializing events: with a source outside the graph the run is given up at the
/// first event; otherwise the pipeline then holds the start of the search.
proof fn lemma_initialization<M: EventMiddleware>(
    events: Seq<DijkstraEvent>,
    middlewares: Seq<M>,
    c: ContextView,
    graph: Seq<Seq<Edge>>,
    source: NodeId,
    nodes: usize,
)
    requires
        events.len() >= 2,
        events[0] == initialize_state(source, nodes),
        events[1] == DijkstraEvent::InitializePriorityQueue(InitializePriorityQueueEvent),
        all_transparent(middlewares),
        graph_in(c) == Some(graph),
        graph.len() == nodes,
    ensures
        source.0 >= nodes ==> run_chain(events, middlewares, FaultToleranceMode::Strict, c).aborted,
        source.0 < nodes ==> ({
            let run = run_prefix(events, middlewares, FaultToleranceMode::Strict, c, 2);
            &&& !run.aborted
            &&& run.failures == Seq::<FailureData>::empty()
            &&& pipeline_of(run.context).graph == Some(graph)
            &&& pipeline_of(run.context).source == Some(source)
            &&& search_of(pipeline_of(run.context)) == start_of(nodes as nat, source)
            &&& ready(pipeline_of(run.context))
        }),
{
    let mode = FaultToleranceMode::Strict;
    let first = InitializeStateEvent { source, node_count: nodes };
    lemma_pipeline_event_local(events[0]);
    lemma_pipeline_event_local(events[1]);
    let r0 = run_prefix(events, middlewares, mode, c, 0);
    lemma_run_event(events, middlewares, mode, c, 1);
    lemma_initialize_state(first, r0.context);
    let r1 = run_prefix(events, middlewares, mode, c, 1);
    if source.0 >= nodes {
        lemma_aborted_stays(events, middlewares, mode, c, 1, events.len());
    } else {
        lemma_run_event(events, middlewares, mode, c, 2);
        lemma_initialize_queue(InitializePriorityQueueEvent, r1.context);
    }
}

/// The fine-grained run after its first `done` pops.
proof fn lemma_fine_pops<M: EventMiddleware>(
    events: Seq<DijkstraEvent>,
    middlewares: Seq<M>,
    c: ContextView,
    graph: Seq<Seq<Edge>>,
    source: NodeId,
    target: NodeId,
    nodes: usize,
    pops: nat,
    done: nat,
)
    requires
        is_fine_chain(events, source, target, nodes, pops),
        all_transparent(middlewares),
        graph_in(c) == Some(graph),
        graph.len() == nodes,
        source.0 < nodes,
        done <= pops,
    ensures
        ({
            let run = run_prefix(events, middlewares, FaultToleranceMode::Strict, c, 2 + done);
            &&& !run.aborted
            &&& run.failures == Seq::<FailureData>::empty()
            &&& pipeline_of(run.context).graph == Some(graph)
            &&& pipeline_of(run.context).source == Some(source)
            &&& search_of(pipeline_of(run.context)) == steps(
                graph,
                start_of(nodes as nat, source),
                done,
            )
            &&& ready(pipeline_of(run.context))
        }),
    decreases done,
{
    let mode = FaultToleranceMode::Strict;
    if done == 0 {
        lemma_initialization(events, middlewares, c, graph, source, nodes);
    } else {
        lemma_fine_pops(
            events,
            middlewares,
            c,
            graph,
            source,
            target,
            nodes,
            pops,
            (done - 1) as nat,
        );
        let index = 2 + done - 1;
        assert(events[index] == DijkstraEvent::ProcessNode(ProcessNodeEvent));
        lemma_pipeline_event_local(events[index]);
        let before = run_prefix(events, middlewares, mode, c, (2 + done - 1) as nat);
        lemma_run_event(events, middlewares, mode, c, 2 + done);
        lemma_process_node(ProcessNodeEvent, before.context);
        lemma_steps_fit(graph, start_of(nodes as nat, source), done);
    }
}

/// The result that the fine-grained chain computes: what the state holds after
/// `pops` pops; nothing where the source is no node of the graph.
pub open spec fn stepwise_result(
    graph: Seq<Seq<Edge>>,
    source: NodeId,
    target: NodeId,
    pops: nat,
) -> ResultView {
    if source.0 < graph.len() {
        result_of(steps(graph, start_of(graph.len(), source), pops).state, source, target)
    } else {
        no_result(source, target)
    }
}

/// The result that the coarse-grained chain computes: what the state holds once
/// the queue is exhausted; nothing where the source is no node of the graph.
pub open spec fn exhaustive_result(
    graph: Seq<Seq<Edge>>,
    source: NodeId,
    target: NodeId,
) -> ResultView {
    if source.0 < graph.len() {
        result_of(exhaust(graph, start_of(graph.len(), source)).state, source, target)
    } else {
        no_result(source, target)
    }
}

/// A strict run of the fine-grained chain, inside transparent middleware, on a store
/// that holds the graph: it completes and leaves the stepwise result, or is given
/// up where the source is no node of the graph.
pub proof fn lemma_fine_chain<M: EventMiddleware>(
    events: Seq<DijkstraEvent>,
    middlewares: Seq<M>,
    c: ContextView,
    graph: Seq<Seq<Edge>>,
    source: NodeId,
    target: NodeId,
    nodes: usize,
    pops: nat,
)
    requires
        is_fine_chain(events, source, target, nodes, pops),
        all_transparent(middlewares),
        graph_in(c) == Some(graph),
        graph.len() == nodes,
    ensures
        ({
            let run = run_chain(events, middlewares, FaultToleranceMode::Strict, c);
            &&& source.0 >= nodes ==> !report(run).success
            &&& source.0 < nodes ==> report(run) == completed() && result_in(run.context) == Some(
                stepwise_result(graph, source, target, pops),
            )
        }),
{
    let mode = FaultToleranceMode::Strict;
    if source.0 >= nodes {
        lemma_initialization(events, middlewares, c, graph, source, nodes);
    } else {
        lemma_fine_pops(events, middlewares, c, graph, source, target, nodes, pops, pops);
        let last = pops + 2;
        lemma_pipeline_event_local(events[last as int]);
        let before = run_prefix(events, middlewares, mode, c, last);
        lemma_run_event(events, middlewares, mode, c, last + 1);
        lemma_finalize_result(FinalizeResultEvent { target }, before.context);
    }
}

/// A strict run of the coarse-grained chain, inside transparent middleware, on a
/// store that holds the graph: it completes and leaves the exhaustive result, or is
/// given up where the source is no node of the graph.
pub proof fn lemma_coarse_chain<M: EventMiddleware>(
    events: Seq<DijkstraEvent>,
    middlewares: Seq<M>,
    c: ContextView,
    graph: Seq<Seq<Edge>>,
    source: NodeId,
    target: NodeId,
    nodes: usize,
)
    requires
        is_coarse_chain(events, source, target, nodes),
        all_transparent(middlewares),
        graph_in(c) == Some(graph),
        graph.len() == nodes,
    ensures
        ({
            let run = run_chain(events, middlewares, FaultToleranceMode::Strict, c);
            &&& source.0 >= nodes ==> !report(run).success
            &&& source.0 < nodes ==> report(run) == completed() && result_in(run.context) == Some(
                exhaustive_result(graph, source, target),
            )
        }),
{
    let mode = FaultToleranceMode::Strict;
    lemma_initialization(events, middlewares, c, graph, source, nodes);
    if source.0 < nodes {
        lemma_pipeline_event_local(events[2]);
        lemma_pipeline_event_local(events[3]);
        let r2 = run_prefix(events, middlewares, mode, c, 2);
        lemma_run_event(events, middlewares, mode, c, 3);
        lemma_process_all_nodes(ProcessAllNodesEvent, r2.context);
        let r3 = run_prefix(events, middlewares, mode, c, 3);
        lemma_run_event(events, middlewares, mode, c, 4);
        lemma_finalize_result(FinalizeResultEvent { target }, r3.context);
    }
}

/// `key` is one of the five keys of the pipeline.
pub open spec fn is_pipeline_key(key: Seq<char>) -> bool {
    ||| key == key_graph()
    ||| key == key_state()
    ||| key == key_source()
    ||| key == key_result()
    ||| key == key_queue()
}

/// The keys of the pipeline have five or six characters.
pub proof fn lemma_pipeline_keys_are_short(key: Seq<char>)
    requires
        is_pipeline_key(key),
    ensures
        5 <= key.len() <= 6,
{
    reveal_strlit("graph");
    reveal_strlit("state");
    reveal_strlit("source");
    reveal_strlit("result");
    reveal_strlit("queue");
}

/// A value stored under another key leaves the pipeline as it is.
pub proof fn lemma_foreign_insert(c: ContextView, key: Seq<char>, value: ValueView)
    requires
        !is_pipeline_key(key),
    ensures
        pipeline_of(c.insert(key, value)) == pipeline_of(c),
{
}

/// Another key removed leaves the pipeline as it is.
pub proof fn lemma_foreign_remove(c: ContextView, key: Seq<char>)
    requires
        !is_pipeline_key(key),
    ensures
        pipeline_of(c.remove(key)) == pipeline_of(c),
{
}

} // verus!
