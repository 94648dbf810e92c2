use vstd::prelude::*;
use std::sync::Arc;
use crate::clock::{elapsed_nanos, start_clock};
use crate::graph::{DijkstraState, Graph, NodeId, QueueNode, ShortestPathResult};
use crate::pipeline::exhaustive_result;
use crate::queue::PriorityQueue;
use crate::search::{exhaust, fits, run_to_exhaustion, state_fits, Search};
use crate::text::{decimal, decimal_digits, joined, text};

verus! {

/// Three direct function calls with no orchestration: initialize, pop to
/// exhaustion, read the result.
pub fn dijkstra_tier1_baseline(graph: Arc<Graph>, source: NodeId, target: NodeId) -> (r:
    ShortestPathResult)
    ensures
        r@ == exhaustive_result(graph@, source, target),
{
    let nodes = graph.nodes();
    if source.0 >= nodes {
        return ShortestPathResult { source, target, distance: None, path: Vec::new() };
    }
    let mut state = DijkstraState::new(nodes, source);
    let mut queue = PriorityQueue::new();
    queue.push(QueueNode { node: source, distance: 0 });
    run_to_exhaustion(&graph, &mut state, &mut queue);
    ShortestPathResult::reconstruct_path(&state, &source, &target)
}

/// The message with which a step of the instrumented baseline fails.
pub open spec fn step_failure(step: Seq<char>, message: Seq<char>) -> Seq<char> {
    "Step '"@ + step + "' failed: "@ + message
}

/// Manual implementation with error handling and step tracking: the steps of the
/// computation run one after the other, and the first that fails ends it with a
/// message that names it.
pub fn dijkstra_tier2_baseline(graph: Arc<Graph>, source: NodeId, target: NodeId) -> (r: Result<
    ShortestPathResult,
    String,
>)
    ensures
        source.0 < graph@.len() ==> r is Ok && r->Ok_0@ == exhaustive_result(
            graph@,
            source,
            target,
        ),
        source.0 >= graph@.len() ==> r is Err && r->Err_0@ == step_failure(
            "InitializeState"@,
            "Source is not a node of the graph"@,
        ),
{
    let nodes = graph.nodes();
    if source.0 >= nodes {
        return Err(failure_message("InitializeState", "Source is not a node of the graph"));
    }
    let mut state = DijkstraState::new(nodes, source);
    let mut queue = PriorityQueue::new();
    queue.push(QueueNode { node: source, distance: 0 });
    match process_nodes_with_validation(&graph, &mut state, &mut queue) {
        Ok(()) => {},
        Err(message) => {
            return Err(failure_message("ProcessAllNodes", message.as_str()));
        },
    }
    Ok(ShortestPathResult::reconstruct_path(&state, &source, &target))
}

/// The message for the failure of `step` with `message`.
fn failure_message(step: &str, message: &str) -> (r: String)
    ensures
        r@ == step_failure(step@, message@),
{
    let head = joined("Step '", step);
    let middle = joined(head.as_str(), "' failed: ");
    joined(middle.as_str(), message)
}

/// Pops and processes entries until the queue is empty, after checking that the
/// state has one entry per node of the graph; where it has not, nothing is changed
/// and the mismatch reported.
pub fn process_nodes_with_validation(
    graph: &Graph,
    state: &mut DijkstraState,
    queue: &mut PriorityQueue,
) -> (r: Result<(), String>)
    ensures
        state_fits(old(state)@, graph@.len()) ==> r is Ok && (Search {
            state: final(state)@,
            queue: final(queue)@,
        }) == exhaust(graph@, Search { state: old(state)@, queue: old(queue)@ }),
        !state_fits(old(state)@, graph@.len()) ==> r is Err && r->Err_0@
            == "State does not match the graph"@ && final(state)@ == old(state)@ && final(queue)@
            == old(queue)@,
{
    if !fits(state, graph.nodes()) {
        return Err(text("State does not match the graph"));
    }
    run_to_exhaustion(graph, state, queue);
    Ok(())
}

/// What the manually instrumented computation records: the duration of each step in
/// nanoseconds, and the lines it logged.
pub struct ManualLoggingContext {
    pub timings: Vec<(&'static str, u128)>,
    pub logs: Vec<String>,
}

impl ManualLoggingContext {
    pub fn new() -> (c: ManualLoggingContext)
        ensures
            c.timings@.len() == 0,
            c.logs@.len() == 0,
    {
        ManualLoggingContext { timings: Vec::new(), logs: Vec::new() }
    }

    /// Adds `message` to the lines.
    pub fn log(&mut self, message: String)
        ensures
            final(self).logs@ == old(self).logs@.push(message),
            final(self).timings@ == old(self).timings@,
    {
        self.logs.push(message);
    }

    /// Records that the step `name` took `duration_nanos` nanoseconds.
    pub fn record_timing(&mut self, name: &'static str, duration_nanos: u128)
        ensures
            final(self).timings@ == old(self).timings@.push((name, duration_nanos)),
            final(self).logs@ == old(self).logs@,
    {
        self.timings.push((name, duration_nanos));
    }
}

/// The line logged when the step `name` starts.
pub open spec fn step_starting(name: Seq<char>) -> Seq<char> {
    "▶ "@ + name + " starting"@
}

/// The line logged when the step `name` has completed after `nanos` nanoseconds.
pub open spec fn step_completed(name: Seq<char>, nanos: u128) -> Seq<char> {
    "  ✓ "@ + name + " completed ("@ + decimal_digits((nanos / 1000) as nat) + "μs)"@
}

/// The record is that of `done` steps in a row: their timings in order and, where
/// logging is enabled, for each step the line of its start and the line of its
/// completion with the duration recorded for it.
pub open spec fn records_steps(
    context: ManualLoggingContext,
    names: Seq<Seq<char>>,
    logging_enabled: bool,
) -> bool {
    &&& context.timings@.len() == names.len()
    &&& forall|k: int| 0 <= k < names.len() ==> (#[trigger] context.timings@[k]).0@ == names[k]
    &&& !logging_enabled ==> context.logs@.len() == 0
    &&& logging_enabled ==> context.logs@.len() == 2 * names.len() && forall|k: int|
        0 <= k < names.len() ==> (#[trigger] context.logs@[2 * k])@ == step_starting(names[k])
            && context.logs@[2 * k + 1]@ == step_completed(names[k], context.timings@[k].1)
}

/// The names of the four steps.
pub open spec fn step_names() -> Seq<Seq<char>> {
    seq![
        "InitializeState"@,
        "InitializePriorityQueue"@,
        "ProcessAllNodes"@,
        "FinalizeResult"@,
    ]
}

/// Logs the start of the step `name`, where logging is enabled.
fn begin_step(context: &mut ManualLoggingContext, name: &'static str, logging_enabled: bool)
    ensures
        final(context).timings@ == old(context).timings@,
        !logging_enabled ==> final(context).logs@ == old(context).logs@,
        logging_enabled ==> final(context).logs@.len() == old(context).logs@.len() + 1,
        logging_enabled ==> final(context).logs@.last()@ == step_starting(name@),
        logging_enabled ==> final(context).logs@.drop_last() == old(context).logs@,
{
    if logging_enabled {
        let head = joined("▶ ", name);
        let line = joined(head.as_str(), " starting");
        context.log(line);
        assert(context.logs@.drop_last() =~= old(context).logs@);
    }
}

/// Records the duration of the step `name` and logs its completion, where logging
/// is enabled.
fn end_step(
    context: &mut ManualLoggingContext,
    name: &'static str,
    nanos: u128,
    logging_enabled: bool,
)
    ensures
        final(context).timings@ == old(context).timings@.push((name, nanos)),
        !logging_enabled ==> final(context).logs@ == old(context).logs@,
        logging_enabled ==> final(context).logs@.len() == old(context).logs@.len() + 1,
        logging_enabled ==> final(context).logs@.last()@ == step_completed(name@, nanos),
        logging_enabled ==> final(context).logs@.drop_last() == old(context).logs@,
{
    context.record_timing(name, nanos);
    if logging_enabled {
        let head = joined("  ✓ ", name);
        let middle = joined(head.as_str(), " completed (");
        let digits = decimal(nanos / 1000);
        let number = joined(middle.as_str(), digits.as_str());
        let line = joined(number.as_str(), "μs)");
        context.log(line);
        assert(context.logs@.drop_last() =~= old(context).logs@);
    }
}

/// Manual implementation with logging and timing: the same four steps as the
/// chain, each timed, and each logged where logging is enabled. With a source
/// outside the graph nothing is computed and nothing recorded.
pub fn dijkstra_tier4_baseline(
    graph: Arc<Graph>,
    source: NodeId,
    target: NodeId,
    logging_enabled: bool,
) -> (r: (ShortestPathResult, ManualLoggingContext))
    ensures
        r.0@ == exhaustive_result(graph@, source, target),
        source.0 < graph@.len() ==> records_steps(r.1, step_names(), logging_enabled),
        source.0 >= graph@.len() ==> r.1.timings@.len() == 0 && r.1.logs@.len() == 0,
{
    let mut context = ManualLoggingContext::new();
    let nodes = graph.nodes();
    if source.0 >= nodes {
        return (ShortestPathResult { source, target, distance: None, path: Vec::new() }, context);
    }
    let clock = start_clock();
    begin_step(&mut context, "InitializeState", logging_enabled);
    let mut state = DijkstraState::new(nodes, source);
    end_step(&mut context, "InitializeState", elapsed_nanos(&clock), logging_enabled);

    let clock = start_clock();
    begin_step(&mut context, "InitializePriorityQueue", logging_enabled);
    let mut queue = PriorityQueue::new();
    queue.push(QueueNode { node: source, distance: 0 });
    end_step(&mut context, "InitializePriorityQueue", elapsed_nanos(&clock), logging_enabled);

    let clock = start_clock();
    begin_step(&mut context, "ProcessAllNodes", logging_enabled);
    run_to_exhaustion(&graph, &mut state, &mut queue);
    end_step(&mut context, "ProcessAllNodes", elapsed_nanos(&clock), logging_enabled);

    let clock = start_clock();
    begin_step(&mut context, "FinalizeResult", logging_enabled);
    let result = ShortestPathResult::reconstruct_path(&state, &source, &target);
    end_step(&mut context, "FinalizeResult", elapsed_nanos(&clock), logging_enabled);
    (result, context)
}

impl Default for ManualLoggingContext {
    fn default() -> (c: ManualLoggingContext)
        ensures
            c.timings@.len() == 0,
            c.logs@.len() == 0,
    {
        ManualLoggingContext::new()
    }
}

} // verus!
