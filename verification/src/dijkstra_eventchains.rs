use vstd::prelude::*;
use std::sync::Arc;
use crate::context::{key_result, lemma_keys_differ, result_in, ContextView, EventContext};
use crate::dijkstra_events::{
    DijkstraEvent, FinalizeResultEvent, InitializePriorityQueueEvent, InitializeStateEvent,
    ProcessAllNodesEvent, ProcessNodeEvent,
};
use crate::eventchains::{report, run_chain, ChainResult, EventChain, FaultToleranceMode, Run};
use crate::graph::{no_result, Graph, NodeId, ShortestPathResult};
use crate::middleware::{
    lemma_middleware_transparent, LoggingMiddleware, Middleware, PerformanceMiddleware,
    TimingMiddleware,
};
use crate::noop_middleware::NoOpMiddleware;
use crate::pipeline::{
    all_transparent, coarse_events, exhaustive_result, fine_events, lemma_coarse_chain,
    lemma_fine_chain, seeded, stepwise_result, transparent,
};

verus! {

/// The answer that a finished run leaves: the result held in the store, which is
/// taken out of it, where the run succeeded and left one; else no distance and an
/// empty path.
pub fn extract_result(
    outcome: &ChainResult,
    context: &mut EventContext,
    source: NodeId,
    target: NodeId,
) -> (r: ShortestPathResult)
    ensures
        r@ == if outcome.success && result_in(old(context)@).is_some() {
            result_in(old(context)@).unwrap()
        } else {
            no_result(source, target)
        },
        final(context)@ == if outcome.success && result_in(old(context)@).is_some() {
            old(context)@.remove(key_result())
        } else {
            old(context)@
        },
{
    if outcome.success {
        match context.take_result() {
            Some(r) => {
                return r;
            },
            None => {},
        }
    }
    ShortestPathResult { source, target, distance: None, path: Vec::new() }
}

/// Appends the fine-grained chain to a chain without events: initialization,
/// `node_count` events that process one node each, and the finalizing event.
fn add_process_node_chain(
    chain: &mut EventChain<DijkstraEvent, Middleware>,
    source: NodeId,
    target: NodeId,
    node_count: usize,
)
    requires
        old(chain).events().len() == 0,
    ensures
        final(chain).events() == fine_events(source, target, node_count),
        final(chain).middlewares() == old(chain).middlewares(),
        final(chain).mode() == old(chain).mode(),
{
    let ghost goal = fine_events(source, target, node_count);
    chain.add_event(DijkstraEvent::InitializeState(InitializeStateEvent::new(&source, node_count)));
    chain.add_event(DijkstraEvent::InitializePriorityQueue(InitializePriorityQueueEvent));
    assert(chain.events() =~= goal.take(2));
    let mut i: usize = 0;
    while i < node_count
        invariant
            i <= node_count,
            goal == fine_events(source, target, node_count),
            chain.events() == goal.take(2 + i),
            chain.middlewares() == old(chain).middlewares(),
            chain.mode() == old(chain).mode(),
        decreases node_count - i,
    {
        chain.add_event(DijkstraEvent::ProcessNode(ProcessNodeEvent));
        assert(chain.events() =~= goal.take(2 + i + 1));
        i = i + 1;
    }
    chain.add_event(DijkstraEvent::FinalizeResult(FinalizeResultEvent::new(&target)));
    assert(chain.events() =~= goal);
}

/// Appends the coarse-grained chain to a chain without events: initialization, one
/// event that processes all nodes, and the finalizing event.
fn add_process_all_chain(
    chain: &mut EventChain<DijkstraEvent, Middleware>,
    source: NodeId,
    target: NodeId,
    node_count: usize,
)
    requires
        old(chain).events().len() == 0,
    ensures
        final(chain).events() == coarse_events(source, target, node_count),
        final(chain).middlewares() == old(chain).middlewares(),
        final(chain).mode() == old(chain).mode(),
{
    chain.add_event(DijkstraEvent::InitializeState(InitializeStateEvent::new(&source, node_count)));
    chain.add_event(DijkstraEvent::InitializePriorityQueue(InitializePriorityQueueEvent));
    chain.add_event(DijkstraEvent::ProcessAllNodes(ProcessAllNodesEvent));
    chain.add_event(DijkstraEvent::FinalizeResult(FinalizeResultEvent::new(&target)));
    assert(chain.events() =~= coarse_events(source, target, node_count));
}

/// A strict chain without events, with the given middleware registered in order.
fn strict_chain(middlewares: Vec<Middleware>) -> (chain: EventChain<DijkstraEvent, Middleware>)
    ensures
        chain.events().len() == 0,
        chain.mode() == FaultToleranceMode::Strict,
        chain.middlewares() == middlewares@,
        all_transparent(chain.middlewares()),
{
    let mut chain: EventChain<DijkstraEvent, Middleware> =
        EventChain::new().with_fault_tolerance(FaultToleranceMode::Strict);
    let mut rest = middlewares;
    let ghost all = rest@;
    while rest.len() > 0
        invariant
            chain.events().len() == 0,
            chain.mode() == FaultToleranceMode::Strict,
            chain.middlewares() + rest@ == all,
        decreases rest.len(),
    {
        let ghost registered = chain.middlewares();
        let ghost waiting = rest@;
        let next = rest.remove(0);
        chain.use_middleware(next);
        assert(chain.middlewares() + rest@ =~= registered + waiting);
    }
    proof {
        assert(chain.middlewares() =~= all);
        assert forall|i: int| 0 <= i < all.len() implies transparent(#[trigger] all[i]) by {
            lemma_middleware_transparent(all[i]);
        }
    }
    chain
}

/// The store that a run of the shortest-path pipeline leaves to its caller: the
/// store of the run, without the result where the run succeeded and left one.
pub open spec fn left_store(run: Run) -> ContextView {
    if report(run).success && result_in(run.context).is_some() {
        run.context.remove(key_result())
    } else {
        run.context
    }
}

/// Runs the fine-grained chain inside the given middleware, registered in the
/// given order, on a fresh store that holds `graph`. Returns the answer and the
/// store that the run left, with the log that the middleware kept in it.
pub fn run_fine_chain(
    middlewares: Vec<Middleware>,
    graph: Arc<Graph>,
    source: NodeId,
    target: NodeId,
) -> (r: (ShortestPathResult, EventContext))
    ensures
        r.0@ == stepwise_result(graph@, source, target, graph@.len()),
        r.1@ == left_store(
            run_chain(
                fine_events(source, target, graph@.len() as usize),
                middlewares@,
                FaultToleranceMode::Strict,
                seeded(graph@),
            ),
        ),
{
    let mut chain = strict_chain(middlewares);
    let mut context = EventContext::new();
    let node_count = graph.nodes();
    context.set_graph(graph);
    add_process_node_chain(&mut chain, source, target, node_count);
    proof {
        lemma_keys_differ();
        lemma_fine_chain(
            chain.events(),
            chain.middlewares(),
            context@,
            graph@,
            source,
            target,
            node_count,
            node_count as nat,
        );
    }
    let outcome = chain.execute(&mut context);
    let result = extract_result(&outcome, &mut context, source, target);
    (result, context)
}

/// Runs the coarse-grained chain inside the given middleware, registered in the
/// given order, on a fresh store that holds `graph`. Returns the answer and the
/// store that the run left, with the log that the middleware kept in it.
pub fn run_coarse_chain(
    middlewares: Vec<Middleware>,
    graph: Arc<Graph>,
    source: NodeId,
    target: NodeId,
) -> (r: (ShortestPathResult, EventContext))
    ensures
        r.0@ == exhaustive_result(graph@, source, target),
        r.1@ == left_store(
            run_chain(
                coarse_events(source, target, graph@.len() as usize),
                middlewares@,
                FaultToleranceMode::Strict,
                seeded(graph@),
            ),
        ),
{
    let mut chain = strict_chain(middlewares);
    let mut context = EventContext::new();
    let node_count = graph.nodes();
    context.set_graph(graph);
    add_process_all_chain(&mut chain, source, target, node_count);
    proof {
        lemma_keys_differ();
        lemma_coarse_chain(
            chain.events(),
            chain.middlewares(),
            context@,
            graph@,
            source,
            target,
            node_count,
        );
    }
    let outcome = chain.execute(&mut context);
    let result = extract_result(&outcome, &mut context, source, target);
    (result, context)
}

/// Runs the shortest-path computation as a chain of events without middleware, with
/// one event per node that pops and processes one queue entry.
pub fn dijkstra_eventchains_bare(graph: Arc<Graph>, source: NodeId, target: NodeId) -> (r:
    ShortestPathResult)
    ensures
        r@ == stepwise_result(graph@, source, target, graph@.len()),
{
    run_fine_chain(Vec::new(), graph, source, target).0
}

/// Runs the shortest-path computation as a chain of four events without middleware:
/// a single event pops and processes queue entries until none is left.
pub fn dijkstra_eventchains_optimized(graph: Arc<Graph>, source: NodeId, target: NodeId) -> (r:
    ShortestPathResult)
    ensures
        r@ == exhaustive_result(graph@, source, target),
{
    run_coarse_chain(Vec::new(), graph, source, target).0
}

/// Runs the shortest-path computation as the fine-grained chain inside the
/// performance, timing and logging middleware, registered in this order.
pub fn dijkstra_eventchains_full(
    graph: Arc<Graph>,
    source: NodeId,
    target: NodeId,
    verbose: bool,
) -> (r: ShortestPathResult)
    ensures
        r@ == stepwise_result(graph@, source, target, graph@.len()),
{
    let mut middlewares: Vec<Middleware> = Vec::new();
    middlewares.push(Middleware::Performance(PerformanceMiddleware::new()));
    middlewares.push(Middleware::Timing(TimingMiddleware::new(verbose)));
    middlewares.push(Middleware::Logging(LoggingMiddleware::new(verbose)));
    run_fine_chain(middlewares, graph, source, target).0
}

/// Runs the shortest-path computation as the coarse-grained chain inside the
/// timing and logging middleware, registered in this order.
pub fn dijkstra_eventchains_optimized_with_middleware(
    graph: Arc<Graph>,
    source: NodeId,
    target: NodeId,
    verbose: bool,
) -> (r: ShortestPathResult)
    ensures
        r@ == exhaustive_result(graph@, source, target),
{
    let mut middlewares: Vec<Middleware> = Vec::new();
    middlewares.push(Middleware::Timing(TimingMiddleware::new(verbose)));
    middlewares.push(Middleware::Logging(LoggingMiddleware::new(verbose)));
    run_coarse_chain(middlewares, graph, source, target).0
}

/// Runs the shortest-path computation as the coarse-grained chain inside `n` layers
/// of no-op middleware.
pub fn dijkstra_eventchains_with_n_middleware(
    graph: Arc<Graph>,
    source: NodeId,
    target: NodeId,
    n: usize,
) -> (r: ShortestPathResult)
    ensures
        r@ == exhaustive_result(graph@, source, target),
{
    let mut middlewares: Vec<Middleware> = Vec::new();
    let mut i: usize = 0;
    while i < n
        invariant
            i <= n,
        decreases n - i,
    {
        middlewares.push(Middleware::NoOp(NoOpMiddleware::new(i)));
        i = i + 1;
    }
    run_coarse_chain(middlewares, graph, source, target).0
}

} // verus!
