use vstd::prelude::*;
use crate::context::{
    key_queue, key_result, key_source, key_state, process_all, process_next, source_in, state_in,
    ContextView, EventContext, EventResult, Outcome, ValueView,
};
use crate::eventchains::ChainableEvent;
use crate::graph::{initial_state, result_of, DijkstraState, NodeId, QueueNode, ShortestPathResult};
use crate::queue::PriorityQueue;
use crate::text::text;

verus! {

/// Event: initialize the working state for a source in a graph of `node_count` nodes.
pub struct InitializeStateEvent {
    pub source: NodeId,
    pub node_count: usize,
}

impl InitializeStateEvent {
    pub fn new(source: &NodeId, node_count: usize) -> (event: InitializeStateEvent)
        ensures
            event.source == *source,
            event.node_count == node_count,
    {
        InitializeStateEvent { source: *source, node_count }
    }
}

impl ChainableEvent for InitializeStateEvent {
    open spec fn label(&self) -> Seq<char> {
        "InitializeState"@
    }

    /// Stores the initial state and the source; fails, storing nothing, where the
    /// source is no node of the graph.
    open spec fn effect(&self, context: ContextView) -> (ContextView, Outcome) {
        if self.source.0 < self.node_count {
            (
                context.insert(
                    key_state(),
                    ValueView::State(initial_state(self.node_count as nat, self.source)),
                ).insert(key_source(), ValueView::Node(self.source)),
                Outcome::Success,
            )
        } else {
            (context, Outcome::Failure("Source is not a node of the graph"@))
        }
    }

    fn execute(&self, context: &mut EventContext) -> (r: EventResult<()>) {
        if self.source.0 >= self.node_count {
            return EventResult::Failure(text("Source is not a node of the graph"));
        }
        let state = DijkstraState::new(self.node_count, self.source);
        context.set_state(state);
        context.set_source(self.source);
        EventResult::Success(())
    }

    fn name(&self) -> (s: &str) {
        "InitializeState"
    }
}

/// Event: create the priority queue, seeded with the source at distance 0.
pub struct InitializePriorityQueueEvent;

impl ChainableEvent for InitializePriorityQueueEvent {
    open spec fn label(&self) -> Seq<char> {
        "InitializePriorityQueue"@
    }

    /// Stores the queue that holds the source at distance 0; fails where the store
    /// holds no source.
    open spec fn effect(&self, context: ContextView) -> (ContextView, Outcome) {
        match source_in(context) {
            Some(source) => (
                context.insert(
                    key_queue(),
                    ValueView::Queue(seq![QueueNode { node: source, distance: 0 }]),
                ),
                Outcome::Success,
            ),
            None => (context, Outcome::Failure("Source not found in context"@)),
        }
    }

    fn execute(&self, context: &mut EventContext) -> (r: EventResult<()>) {
        let source = match context.get_source() {
            Some(s) => *s,
            None => {
                return EventResult::Failure(text("Source not found in context"));
            },
        };
        let mut queue = PriorityQueue::new();
        queue.push(QueueNode { node: source, distance: 0 });
        context.set_queue(queue);
        EventResult::Success(())
    }

    fn name(&self) -> (s: &str) {
        "InitializePriorityQueue"
    }
}

/// Event: process one node from the priority queue.
pub struct ProcessNodeEvent;

impl ChainableEvent for ProcessNodeEvent {
    open spec fn label(&self) -> Seq<char> {
        "ProcessNode"@
    }

    /// One pop: see `process_next`.
    open spec fn effect(&self, context: ContextView) -> (ContextView, Outcome) {
        process_next(context)
    }

    fn execute(&self, context: &mut EventContext) -> (r: EventResult<()>) {
        context.process_one_node()
    }

    fn name(&self) -> (s: &str) {
        "ProcessNode"
    }
}

/// Event: process nodes until the priority queue is empty.
pub struct ProcessAllNodesEvent;

impl ChainableEvent for ProcessAllNodesEvent {
    open spec fn label(&self) -> Seq<char> {
        "ProcessAllNodes"@
    }

    /// Pops to exhaustion: see `process_all`.
    open spec fn effect(&self, context: ContextView) -> (ContextView, Outcome) {
        process_all(context)
    }

    fn execute(&self, context: &mut EventContext) -> (r: EventResult<()>) {
        context.process_all_nodes()
    }

    fn name(&self) -> (s: &str) {
        "ProcessAllNodes"
    }
}

/// Event: read the answer for `target` out of the state.
pub struct FinalizeResultEvent {
    pub target: NodeId,
}

impl FinalizeResultEvent {
    pub fn new(target: &NodeId) -> (event: FinalizeResultEvent)
        ensures
            event.target == *target,
    {
        FinalizeResultEvent { target: *target }
    }
}

impl ChainableEvent for FinalizeResultEvent {
    open spec fn label(&self) -> Seq<char> {
        "FinalizeResult"@
    }

    /// Stores the result that the state gives for the stored source and the target;
    /// fails where state or source is missing, in that order.
    open spec fn effect(&self, context: ContextView) -> (ContextView, Outcome) {
        match (state_in(context), source_in(context)) {
            (None, _) => (context, Outcome::Failure("State not found in context"@)),
            (Some(_), None) => (context, Outcome::Failure("Source not found in context"@)),
            (Some(state), Some(source)) => (
                context.insert(
                    key_result(),
                    ValueView::Result(result_of(state, source, self.target)),
                ),
                Outcome::Success,
            ),
        }
    }

    fn execute(&self, context: &mut EventContext) -> (r: EventResult<()>) {
        let result = match context.get_state() {
            None => {
                return EventResult::Failure(text("State not found in context"));
            },
            Some(state) => match context.get_source() {
                None => {
                    return EventResult::Failure(text("Source not found in context"));
                },
                Some(source) => ShortestPathResult::reconstruct_path(state, source, &self.target),
            },
        };
        context.set_result(result);
        EventResult::Success(())
    }

    fn name(&self) -> (s: &str) {
        "FinalizeResult"
    }
}

/// Any of the events of the shortest-path pipeline, so that one chain can hold them
/// side by side.
pub enum DijkstraEvent {
    InitializeState(InitializeStateEvent),
    InitializePriorityQueue(InitializePriorityQueueEvent),
    ProcessNode(ProcessNodeEvent),
    ProcessAllNodes(ProcessAllNodesEvent),
    FinalizeResult(FinalizeResultEvent),
}

impl ChainableEvent for DijkstraEvent {
    open spec fn label(&self) -> Seq<char> {
        match self {
            DijkstraEvent::InitializeState(e) => e.label(),
            DijkstraEvent::InitializePriorityQueue(e) => e.label(),
            DijkstraEvent::ProcessNode(e) => e.label(),
            DijkstraEvent::ProcessAllNodes(e) => e.label(),
            DijkstraEvent::FinalizeResult(e) => e.label(),
        }
    }

    open spec fn effect(&self, context: ContextView) -> (ContextView, Outcome) {
        match self {
            DijkstraEvent::InitializeState(e) => e.effect(context),
            DijkstraEvent::InitializePriorityQueue(e) => e.effect(context),
            DijkstraEvent::ProcessNode(e) => e.effect(context),
            DijkstraEvent::ProcessAllNodes(e) => e.effect(context),
            DijkstraEvent::FinalizeResult(e) => e.effect(context),
        }
    }

    fn execute(&self, context: &mut EventContext) -> (r: EventResult<()>) {
        match self {
            DijkstraEvent::InitializeState(e) => e.execute(context),
            DijkstraEvent::InitializePriorityQueue(e) => e.execute(context),
            DijkstraEvent::ProcessNode(e) => e.execute(context),
            DijkstraEvent::ProcessAllNodes(e) => e.execute(context),
            DijkstraEvent::FinalizeResult(e) => e.execute(context),
        }
    }

    fn name(&self) -> (s: &str) {
        match self {
            DijkstraEvent::InitializeState(e) => e.name(),
            DijkstraEvent::InitializePriorityQueue(e) => e.name(),
            DijkstraEvent::ProcessNode(e) => e.name(),
            DijkstraEvent::ProcessAllNodes(e) => e.name(),
            DijkstraEvent::FinalizeResult(e) => e.name(),
        }
    }
}

} // verus!
