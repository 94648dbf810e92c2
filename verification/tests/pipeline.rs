use eventchains::context::{ContextValue, EventContext, EventResult, LogLine};
use eventchains::dijkstra_eventchains::{
    dijkstra_eventchains_bare, dijkstra_eventchains_full, dijkstra_eventchains_optimized,
    dijkstra_eventchains_optimized_with_middleware, dijkstra_eventchains_with_n_middleware,
    extract_result, run_coarse_chain, run_fine_chain,
};
use eventchains::dijkstra_events::{
    DijkstraEvent, FinalizeResultEvent, InitializePriorityQueueEvent, InitializeStateEvent,
    ProcessAllNodesEvent, ProcessNodeEvent,
};
use eventchains::dijkstra_traditional::{dijkstra_traditional, dijkstra_traditional_counted};
use eventchains::eventchains::{
    ChainableEvent, ChainStatus, EventChain, EventMiddleware, FaultToleranceMode, Flow,
};
use eventchains::graph::{DijkstraState, Graph, NodeId, QueueNode, ShortestPathResult};
use eventchains::middleware::{
    LoggingMiddleware, Middleware, PerformanceMiddleware, TimingMiddleware,
};
use eventchains::noop_middleware::{CountingMiddleware, NoOpMiddleware};
use eventchains::queue::PriorityQueue;
use eventchains::tier_baselines::{
    dijkstra_tier1_baseline, dijkstra_tier2_baseline, dijkstra_tier4_baseline,
    process_nodes_with_validation, ManualLoggingContext,
};
use std::sync::Arc;

fn sample(nodes: usize) -> Arc<Graph> {
    let mut graph = Graph::new(nodes);
    graph.add_edge(NodeId(0), NodeId(1), 4);
    graph.add_edge(NodeId(0), NodeId(2), 1);
    graph.add_edge(NodeId(2), NodeId(1), 2);
    graph.add_edge(NodeId(1), NodeId(3), 1);
    graph.add_edge(NodeId(2), NodeId(3), 5);
    Arc::new(graph)
}

fn same(a: &ShortestPathResult, b: &ShortestPathResult) -> bool {
    a.source == b.source && a.target == b.target && a.distance == b.distance && a.path == b.path
}

fn names(failures: &[eventchains::eventchains::EventFailure]) -> Vec<(String, String)> {
    failures.iter().map(|f| (f.event_name.clone(), f.error_message.clone())).collect()
}

#[test]
fn every_variant_agrees_on_the_sample() {
    for target in 0..5 {
        let t = NodeId(target);
        let want = dijkstra_traditional(sample(5), &NodeId(0), &t);
        assert!(same(&want, &dijkstra_eventchains_bare(sample(5), NodeId(0), t)));
        assert!(same(&want, &dijkstra_eventchains_optimized(sample(5), NodeId(0), t)));
        assert!(same(&want, &dijkstra_eventchains_full(sample(5), NodeId(0), t, true)));
        assert!(same(
            &want,
            &dijkstra_eventchains_optimized_with_middleware(sample(5), NodeId(0), t, true)
        ));
        assert!(same(&want, &dijkstra_eventchains_with_n_middleware(sample(5), NodeId(0), t, 3)));
        assert!(same(&want, &dijkstra_tier1_baseline(sample(5), NodeId(0), t)));
        assert!(same(&want, &dijkstra_tier2_baseline(sample(5), NodeId(0), t).unwrap()));
        assert!(same(&want, &dijkstra_tier4_baseline(sample(5), NodeId(0), t, true).0));
    }
}

#[test]
fn chain_agrees_with_direct_computation_on_random_graphs() {
    for (nodes, edges) in [(30usize, 60usize), (60, 200), (100, 150)] {
        let graph = Arc::new(Graph::random_connected(nodes, edges, 50));
        for target in [0usize, 1, nodes / 2, nodes - 1] {
            let want = dijkstra_traditional(graph.clone(), &NodeId(0), &NodeId(target));
            let got = dijkstra_eventchains_optimized(graph.clone(), NodeId(0), NodeId(target));
            assert!(same(&want, &got));
            assert!(got.distance.is_some());
            assert_eq!(got.path.first(), Some(&NodeId(0)));
            assert_eq!(got.path.last(), Some(&NodeId(target)));
        }
    }
}

#[test]
fn traditional_gives_distance_four_on_the_sample() {
    let result = dijkstra_traditional(sample(4), &NodeId(0), &NodeId(3));
    assert_eq!(result.distance, Some(4));
    assert_eq!(result.path, vec![NodeId(0), NodeId(2), NodeId(1), NodeId(3)]);
}

#[test]
fn source_outside_the_graph_gives_no_result() {
    let bare = dijkstra_eventchains_bare(sample(4), NodeId(9), NodeId(3));
    assert_eq!(bare.distance, None);
    assert!(bare.path.is_empty());
    assert_eq!(bare.source, NodeId(9));
    let optimized = dijkstra_eventchains_optimized(sample(4), NodeId(9), NodeId(3));
    assert_eq!(optimized.distance, None);
    let direct = dijkstra_traditional(sample(4), &NodeId(9), &NodeId(3));
    assert_eq!(direct.distance, None);
    assert_eq!(dijkstra_tier1_baseline(sample(4), NodeId(9), NodeId(3)).distance, None);
    assert_eq!(
        dijkstra_tier2_baseline(sample(4), NodeId(9), NodeId(3)).unwrap_err(),
        "Step 'InitializeState' failed: Source is not a node of the graph"
    );
    let (result, record) = dijkstra_tier4_baseline(sample(4), NodeId(9), NodeId(3), true);
    assert_eq!(result.distance, None);
    assert!(record.timings.is_empty() && record.logs.is_empty());
}

#[test]
fn target_outside_the_graph_has_no_distance() {
    let result = dijkstra_eventchains_optimized(sample(4), NodeId(0), NodeId(9));
    assert_eq!(result.distance, None);
    assert!(result.path.is_empty());
}

fn stalled() -> Arc<Graph> {
    let mut graph = Graph::new(6);
    graph.add_edge(NodeId(0), NodeId(1), 10);
    graph.add_edge(NodeId(0), NodeId(2), 1);
    graph.add_edge(NodeId(0), NodeId(3), 11);
    graph.add_edge(NodeId(2), NodeId(1), 1);
    graph.add_edge(NodeId(1), NodeId(3), 1);
    graph.add_edge(NodeId(3), NodeId(4), 20);
    graph.add_edge(NodeId(4), NodeId(5), 1);
    Arc::new(graph)
}

#[test]
fn one_pop_per_node_can_leave_live_entries() {
    let coarse = dijkstra_eventchains_optimized(stalled(), NodeId(0), NodeId(5));
    assert_eq!(coarse.distance, Some(24));
    assert_eq!(
        coarse.path,
        vec![NodeId(0), NodeId(2), NodeId(1), NodeId(3), NodeId(4), NodeId(5)]
    );
    let fine = dijkstra_eventchains_bare(stalled(), NodeId(0), NodeId(5));
    assert_eq!(fine.distance, None);
    assert!(fine.path.is_empty());
    let near = dijkstra_eventchains_bare(stalled(), NodeId(0), NodeId(4));
    assert_eq!(near.distance, Some(23));
}

fn pipeline(mode: FaultToleranceMode, skip_state: bool) -> EventChain<DijkstraEvent, Middleware> {
    let mut chain = EventChain::new().with_fault_tolerance(mode);
    if !skip_state {
        chain.add_event(DijkstraEvent::InitializeState(InitializeStateEvent::new(&NodeId(0), 4)));
    }
    chain.add_event(DijkstraEvent::InitializePriorityQueue(InitializePriorityQueueEvent));
    chain.add_event(DijkstraEvent::ProcessAllNodes(ProcessAllNodesEvent));
    chain.add_event(DijkstraEvent::FinalizeResult(FinalizeResultEvent::new(&NodeId(3))));
    chain
}

#[test]
fn lenient_chain_records_cascading_failures() {
    let chain = pipeline(FaultToleranceMode::Lenient, true);
    let mut context = EventContext::new();
    context.set_graph(sample(4));
    let result = chain.execute(&mut context);
    assert!(result.success);
    assert_eq!(result.status, ChainStatus::CompletedWithWarnings);
    assert_eq!(
        names(&result.failures),
        vec![
            ("InitializePriorityQueue".to_string(), "Source not found in context".to_string()),
            ("ProcessAllNodes".to_string(), "Queue not found".to_string()),
            ("FinalizeResult".to_string(), "State not found in context".to_string()),
        ]
    );
    assert!(context.get_result().is_none());
    let answer = extract_result(&result, &mut context, NodeId(0), NodeId(3));
    assert_eq!(answer.distance, None);
}

#[test]
fn strict_chain_stops_where_state_is_missing() {
    let chain = pipeline(FaultToleranceMode::Strict, true);
    let mut context = EventContext::new();
    context.set_graph(sample(4));
    let result = chain.execute(&mut context);
    assert!(!result.success);
    assert_eq!(result.status, ChainStatus::Failed);
    assert_eq!(
        names(&result.failures),
        vec![("InitializePriorityQueue".to_string(), "Source not found in context".to_string())]
    );
    assert!(!context.has("queue"));
}

#[test]
fn missing_graph_fails_the_processing_events() {
    let chain = pipeline(FaultToleranceMode::Lenient, false);
    let mut context = EventContext::new();
    let result = chain.execute(&mut context);
    assert_eq!(
        names(&result.failures),
        vec![("ProcessAllNodes".to_string(), "Graph not found".to_string())]
    );
    let found = context.get_result().unwrap();
    assert_eq!(found.distance, None);
    assert!(found.path.is_empty());
}

#[test]
fn chain_result_is_read_back_from_the_store() {
    let chain = pipeline(FaultToleranceMode::Strict, false);
    let mut context = EventContext::new();
    context.set_graph(sample(4));
    let result = chain.execute(&mut context);
    assert!(result.success);
    assert_eq!(context.get_source(), Some(&NodeId(0)));
    assert_eq!(context.get_state().unwrap().distances, vec![0, 3, 1, 4]);
    assert_eq!(context.get_result().unwrap().distance, Some(4));
    let answer = extract_result(&result, &mut context, NodeId(0), NodeId(3));
    assert_eq!(answer.path, vec![NodeId(0), NodeId(2), NodeId(1), NodeId(3)]);
    assert!(context.get_result().is_none());
}

#[test]
fn events_have_their_names() {
    assert_eq!(InitializeStateEvent::new(&NodeId(0), 1).name(), "InitializeState");
    assert_eq!(InitializePriorityQueueEvent.name(), "InitializePriorityQueue");
    assert_eq!(ProcessNodeEvent.name(), "ProcessNode");
    assert_eq!(ProcessAllNodesEvent.name(), "ProcessAllNodes");
    assert_eq!(FinalizeResultEvent::new(&NodeId(0)).name(), "FinalizeResult");
    assert_eq!(DijkstraEvent::ProcessNode(ProcessNodeEvent).name(), "ProcessNode");
}

#[test]
fn process_node_event_pops_one_entry() {
    let mut context = EventContext::new();
    context.set_graph(sample(4));
    assert!(InitializeStateEvent::new(&NodeId(0), 4).execute(&mut context).is_success());
    assert!(InitializePriorityQueueEvent.execute(&mut context).is_success());
    assert!(ProcessNodeEvent.execute(&mut context).is_success());
    assert_eq!(context.get_state().unwrap().distances, vec![0, 4, 1, u32::MAX]);
    assert_eq!(context.get_state().unwrap().visited, vec![true, false, false, false]);
    assert_eq!(context.queue_pop(), Some(QueueNode { node: NodeId(2), distance: 1 }));
    assert_eq!(context.queue_pop(), Some(QueueNode { node: NodeId(1), distance: 4 }));
    assert_eq!(context.queue_pop(), None);
    assert!(ProcessNodeEvent.execute(&mut context).is_success());
}

#[test]
fn process_node_reports_what_is_missing() {
    let mut context = EventContext::new();
    assert_eq!(
        context.process_node(NodeId(0), 0).get_error(),
        Some("State not found in context")
    );
    context.set_state(DijkstraState::new(4, NodeId(0)));
    assert_eq!(
        context.process_node(NodeId(0), 0).get_error(),
        Some("Queue not found in context")
    );
    context.set_queue(PriorityQueue::new());
    assert_eq!(
        context.process_node(NodeId(0), 0).get_error(),
        Some("Graph not found in context")
    );
    context.set_graph(sample(5));
    assert_eq!(
        context.process_node(NodeId(0), 0).get_error(),
        Some("State does not match the graph")
    );
    context.set_state(DijkstraState::new(5, NodeId(0)));
    assert!(context.process_node(NodeId(0), 0).is_success());
    assert_eq!(context.get_state().unwrap().distances, vec![0, 4, 1, u32::MAX, u32::MAX]);
    assert_eq!(context.process_one_node().get_error(), None);
    assert_eq!(context.process_all_nodes().get_error(), None);
    assert_eq!(context.get_state().unwrap().distances, vec![0, 3, 1, 4, u32::MAX]);
    assert_eq!(context.queue_pop(), None);
}

#[test]
fn initialize_state_rejects_a_source_outside() {
    let mut context = EventContext::new();
    let result = InitializeStateEvent::new(&NodeId(4), 4).execute(&mut context);
    assert_eq!(result.get_error(), Some("Source is not a node of the graph"));
    assert!(!context.has("state"));
    assert!(!context.has("source"));
}

#[test]
fn noop_middleware_counts_its_calls_in_the_store() {
    let noop = NoOpMiddleware::new(12);
    let mut context = EventContext::new();
    assert!(matches!(noop.before("e", &mut context), Flow::Proceed));
    assert_eq!(context.get_count("noop_middleware_12_called"), Some(1));
    assert!(noop.after("e", &mut context, EventResult::Success(())).is_success());
    let _ = noop.before("e", &mut context);
    assert_eq!(context.get_count("noop_middleware_12_called"), Some(2));
    let zero = NoOpMiddleware::new(0);
    let _ = zero.before("e", &mut context);
    assert_eq!(context.get_count("noop_middleware_0_called"), Some(1));
}

#[test]
fn noop_count_stops_at_the_largest_number() {
    let noop = NoOpMiddleware::new(1);
    let mut context = EventContext::new();
    context.set("noop_middleware_1_called", ContextValue::Count(u64::MAX));
    let _ = noop.before("e", &mut context);
    assert_eq!(context.get_count("noop_middleware_1_called"), Some(u64::MAX));
}

#[test]
fn counting_middleware_counts_events() {
    let counting = CountingMiddleware::new();
    assert_eq!(counting.get_count(), 0);
    let mut chain: EventChain<DijkstraEvent, Middleware> = EventChain::new();
    chain.use_middleware(Middleware::Counting(counting));
    chain.use_middleware(Middleware::Performance(PerformanceMiddleware::new()));
    chain.add_event(DijkstraEvent::InitializeState(InitializeStateEvent::new(&NodeId(0), 4)));
    chain.add_event(DijkstraEvent::InitializePriorityQueue(InitializePriorityQueueEvent));
    let mut context = EventContext::new();
    assert!(chain.execute(&mut context).success);
    let performance = PerformanceMiddleware::new();
    let _ = performance.before("a", &mut context);
    let _ = performance.before("b", &mut context);
    assert_eq!(performance.get_event_count(), 2);
    let counting = CountingMiddleware::new();
    let _ = counting.before("a", &mut context);
    assert_eq!(counting.get_count(), 1);
}

fn texts(context: &EventContext) -> Vec<String> {
    context
        .get_log()
        .map(|lines| {
            lines
                .iter()
                .map(|line| match line {
                    LogLine::Text(text) => text.clone(),
                    LogLine::Took(event, _) => format!("took {}", event),
                })
                .collect()
        })
        .unwrap_or_default()
}

#[test]
fn logging_middleware_logs_start_and_end() {
    let logging = LoggingMiddleware::new(true);
    let mut context = EventContext::new();
    let _ = logging.before("Step", &mut context);
    let _ = logging.after("Step", &mut context, EventResult::Success(()));
    let _ = logging.after("Step", &mut context, EventResult::Failure("bad".to_string()));
    assert_eq!(
        texts(&context),
        vec!["  ▶ Step starting", "    ✓ Step completed", "    ✗ Step failed: bad"]
    );
    let quiet = LoggingMiddleware::new(false);
    let mut silent = EventContext::new();
    let _ = quiet.before("Step", &mut silent);
    let _ = quiet.after("Step", &mut silent, EventResult::Success(()));
    assert!(silent.get_log().is_none());
}

#[test]
fn timing_middleware_stores_the_duration() {
    let timing = TimingMiddleware::new(true);
    let mut context = EventContext::new();
    let _ = timing.before("Step", &mut context);
    assert!(context.get_timing("Step_started_ns").is_some());
    let result = timing.after("Step", &mut context, EventResult::Failure("x".to_string()));
    assert_eq!(result.get_error(), Some("x"));
    assert!(context.get_timing("Step_duration_ns").is_some());
    assert!(!context.has("Step_started_ns"));
    assert_eq!(texts(&context), vec!["took Step"]);
    let quiet = TimingMiddleware::new(false);
    let mut silent = EventContext::new();
    let _ = quiet.before("Step", &mut silent);
    let _ = quiet.after("Step", &mut silent, EventResult::Success(()));
    assert!(silent.get_timing("Step_duration_ns").is_some());
    assert!(silent.get_log().is_none());
}

#[test]
fn validation_rejects_a_state_of_another_size() {
    let graph = sample(4);
    let mut state = DijkstraState::new(3, NodeId(0));
    let mut queue = PriorityQueue::new();
    queue.push(QueueNode { node: NodeId(0), distance: 0 });
    assert_eq!(
        process_nodes_with_validation(&graph, &mut state, &mut queue),
        Err("State does not match the graph".to_string())
    );
    assert_eq!(queue.len(), 1);
    let mut state = DijkstraState::new(4, NodeId(0));
    assert_eq!(process_nodes_with_validation(&graph, &mut state, &mut queue), Ok(()));
    assert_eq!(state.distances, vec![0, 3, 1, 4]);
    assert!(queue.is_empty());
}

#[test]
fn manual_baseline_records_four_steps() {
    let (result, record) = dijkstra_tier4_baseline(sample(4), NodeId(0), NodeId(3), true);
    assert_eq!(result.distance, Some(4));
    let steps: Vec<&str> = record.timings.iter().map(|t| t.0).collect();
    assert_eq!(
        steps,
        vec!["InitializeState", "InitializePriorityQueue", "ProcessAllNodes", "FinalizeResult"]
    );
    assert_eq!(record.logs.len(), 8);
    for (k, (name, nanos)) in record.timings.iter().enumerate() {
        assert_eq!(record.logs[2 * k], format!("▶ {} starting", name));
        assert_eq!(
            record.logs[2 * k + 1],
            format!("  ✓ {} completed ({}μs)", name, nanos / 1000)
        );
    }
    let (_, quiet) = dijkstra_tier4_baseline(sample(4), NodeId(0), NodeId(3), false);
    assert_eq!(quiet.timings.len(), 4);
    assert!(quiet.logs.is_empty());
}

#[test]
fn manual_record_keeps_what_it_is_given() {
    let mut record = ManualLoggingContext::new();
    record.log("line".to_string());
    record.record_timing("step", 1234);
    assert_eq!(record.logs, vec!["line".to_string()]);
    assert_eq!(record.timings, vec![("step", 1234u128)]);
}

#[test]
fn disconnected_target_is_no_failure_of_the_chain() {
    let mut chain: EventChain<DijkstraEvent, Middleware> = EventChain::new();
    chain.add_event(DijkstraEvent::InitializeState(InitializeStateEvent::new(&NodeId(0), 5)));
    chain.add_event(DijkstraEvent::InitializePriorityQueue(InitializePriorityQueueEvent));
    chain.add_event(DijkstraEvent::ProcessAllNodes(ProcessAllNodesEvent));
    chain.add_event(DijkstraEvent::FinalizeResult(FinalizeResultEvent::new(&NodeId(4))));
    let mut context = EventContext::new();
    context.set_graph(sample(5));
    let result = chain.execute(&mut context);
    assert!(result.success);
    assert_eq!(result.status, ChainStatus::Completed);
    assert!(result.failures.is_empty());
    let found = context.get_result().unwrap();
    assert_eq!(found.distance, None);
    assert!(found.path.is_empty());
}

#[test]
fn fine_grained_chain_matches_coarse_distances_and_predecessors() {
    let mut fine: EventChain<DijkstraEvent, Middleware> = EventChain::new();
    fine.add_event(DijkstraEvent::InitializeState(InitializeStateEvent::new(&NodeId(0), 4)));
    fine.add_event(DijkstraEvent::InitializePriorityQueue(InitializePriorityQueueEvent));
    for _ in 0..4 {
        fine.add_event(DijkstraEvent::ProcessNode(ProcessNodeEvent));
    }
    fine.add_event(DijkstraEvent::FinalizeResult(FinalizeResultEvent::new(&NodeId(3))));
    let mut fine_context = EventContext::new();
    fine_context.set_graph(sample(4));
    assert!(fine.execute(&mut fine_context).success);

    let coarse = pipeline(FaultToleranceMode::Strict, false);
    let mut coarse_context = EventContext::new();
    coarse_context.set_graph(sample(4));
    assert!(coarse.execute(&mut coarse_context).success);

    let a = fine_context.get_state().unwrap();
    let b = coarse_context.get_state().unwrap();
    assert_eq!(a.distances, b.distances);
    assert_eq!(a.predecessors, b.predecessors);
    assert!(same(fine_context.get_result().unwrap(), coarse_context.get_result().unwrap()));
}

#[test]
fn processing_events_report_what_is_missing() {
    let mut context = EventContext::new();
    assert_eq!(ProcessAllNodesEvent.execute(&mut context).get_error(), Some("Queue not found"));
    context.set_queue(PriorityQueue::new());
    assert_eq!(ProcessAllNodesEvent.execute(&mut context).get_error(), Some("State not found"));
    context.set_state(DijkstraState::new(3, NodeId(0)));
    assert_eq!(ProcessAllNodesEvent.execute(&mut context).get_error(), Some("Graph not found"));
    context.set_graph(sample(4));
    assert_eq!(
        ProcessAllNodesEvent.execute(&mut context).get_error(),
        Some("State does not match the graph")
    );
    assert_eq!(
        ProcessNodeEvent.execute(&mut context).get_error(),
        Some("State does not match the graph")
    );
    assert_eq!(context.get_state().unwrap().distances, vec![0, u32::MAX, u32::MAX]);
}

#[test]
fn finalize_reports_what_is_missing() {
    let mut context = EventContext::new();
    let event = FinalizeResultEvent::new(&NodeId(1));
    assert_eq!(event.execute(&mut context).get_error(), Some("State not found in context"));
    context.set_state(DijkstraState::new(2, NodeId(0)));
    assert_eq!(event.execute(&mut context).get_error(), Some("Source not found in context"));
    assert!(context.get_result().is_none());
    context.set_source(NodeId(0));
    assert!(event.execute(&mut context).is_success());
    assert_eq!(context.get_result().unwrap().distance, None);
}

#[test]
fn finalize_gives_a_best_effort_result_with_entries_left() {
    let mut chain: EventChain<DijkstraEvent, Middleware> = EventChain::new();
    chain.add_event(DijkstraEvent::InitializeState(InitializeStateEvent::new(&NodeId(0), 4)));
    chain.add_event(DijkstraEvent::InitializePriorityQueue(InitializePriorityQueueEvent));
    chain.add_event(DijkstraEvent::ProcessNode(ProcessNodeEvent));
    chain.add_event(DijkstraEvent::FinalizeResult(FinalizeResultEvent::new(&NodeId(1))));
    let mut context = EventContext::new();
    context.set_graph(sample(4));
    let result = chain.execute(&mut context);
    assert!(result.success);
    let found = context.get_result().unwrap();
    assert_eq!(found.distance, Some(4));
    assert_eq!(found.path, vec![NodeId(0), NodeId(1)]);
    assert!(context.has("queue"));
}

#[test]
fn middleware_does_not_change_the_result() {
    let plain = dijkstra_eventchains_optimized(stalled(), NodeId(0), NodeId(5));
    for n in [0usize, 1, 3, 10] {
        let layered = dijkstra_eventchains_with_n_middleware(stalled(), NodeId(0), NodeId(5), n);
        assert!(same(&plain, &layered));
    }
    let logged = dijkstra_eventchains_optimized_with_middleware(stalled(), NodeId(0), NodeId(5), true);
    assert!(same(&plain, &logged));
}

#[test]
fn shortest_distance_is_found_among_several_routes() {
    let mut graph = Graph::new(4);
    graph.add_edge(NodeId(0), NodeId(1), 1);
    graph.add_edge(NodeId(1), NodeId(3), 10);
    graph.add_edge(NodeId(0), NodeId(2), 5);
    graph.add_edge(NodeId(2), NodeId(3), 5);
    graph.add_edge(NodeId(0), NodeId(3), 12);
    graph.add_edge(NodeId(0), NodeId(3), 9);
    let result = dijkstra_eventchains_optimized(Arc::new(graph), NodeId(0), NodeId(3));
    assert_eq!(result.distance, Some(9));
    assert_eq!(result.path, vec![NodeId(0), NodeId(3)]);
}

#[test]
fn distances_saturate_instead_of_wrapping() {
    let mut graph = Graph::new(3);
    graph.add_edge(NodeId(0), NodeId(1), u32::MAX - 1);
    graph.add_edge(NodeId(1), NodeId(2), 5);
    let graph = Arc::new(graph);
    let near = dijkstra_eventchains_optimized(graph.clone(), NodeId(0), NodeId(1));
    assert_eq!(near.distance, Some(u32::MAX - 1));
    let far = dijkstra_eventchains_optimized(graph, NodeId(0), NodeId(2));
    assert_eq!(far.distance, None);
    assert!(far.path.is_empty());
}

#[test]
fn traditional_counts_the_nodes_it_visits() {
    let (result, visited) = dijkstra_traditional_counted(sample(5), &NodeId(0), &NodeId(3));
    assert_eq!(result.distance, Some(4));
    assert_eq!(visited, 4);
    let (_, all) = dijkstra_traditional_counted(sample(5), &NodeId(0), &NodeId(4));
    assert_eq!(all, 4);
    let (_, early) = dijkstra_traditional_counted(sample(5), &NodeId(0), &NodeId(2));
    assert_eq!(early, 2);
    let (_, none) = dijkstra_traditional_counted(sample(5), &NodeId(7), &NodeId(2));
    assert_eq!(none, 0);
}

#[test]
fn run_returns_the_store_with_the_log() {
    let middlewares = vec![
        Middleware::Timing(TimingMiddleware::new(true)),
        Middleware::Logging(LoggingMiddleware::new(true)),
    ];
    let (result, context) = run_coarse_chain(middlewares, sample(4), NodeId(0), NodeId(3));
    assert_eq!(result.distance, Some(4));
    assert!(context.get_result().is_none());
    assert_eq!(context.get_state().unwrap().distances, vec![0, 3, 1, 4]);
    assert!(context.get_timing("ProcessAllNodes_duration_ns").is_some());
    assert_eq!(
        texts(&context),
        vec![
            "  ▶ InitializeState starting",
            "took InitializeState",
            "    ✓ InitializeState completed",
            "  ▶ InitializePriorityQueue starting",
            "took InitializePriorityQueue",
            "    ✓ InitializePriorityQueue completed",
            "  ▶ ProcessAllNodes starting",
            "took ProcessAllNodes",
            "    ✓ ProcessAllNodes completed",
            "  ▶ FinalizeResult starting",
            "took FinalizeResult",
            "    ✓ FinalizeResult completed",
        ]
    );
    let (failed, store) = run_fine_chain(
        vec![Middleware::Logging(LoggingMiddleware::new(true))],
        sample(4),
        NodeId(8),
        NodeId(3),
    );
    assert_eq!(failed.distance, None);
    assert_eq!(
        texts(&store),
        vec![
            "  ▶ InitializeState starting",
            "    ✗ InitializeState failed: Source is not a node of the graph",
        ]
    );
    let (_, quiet) = run_fine_chain(Vec::new(), sample(4), NodeId(0), NodeId(3));
    assert!(quiet.get_log().is_none());
    assert!(quiet.has("queue"));
}

#[test]
fn large_random_graph_is_handled() {
    let graph = Arc::new(Graph::random_connected(2000, 10000, 100));
    let target = NodeId(1999);
    let want = dijkstra_traditional(graph.clone(), &NodeId(0), &target);
    assert!(want.distance.is_some());
    assert!(same(&want, &dijkstra_eventchains_optimized(graph.clone(), NodeId(0), target)));
    assert!(same(&want, &dijkstra_tier1_baseline(graph.clone(), NodeId(0), target)));
    assert!(same(
        &want,
        &dijkstra_eventchains_with_n_middleware(graph.clone(), NodeId(0), target, 10)
    ));
    let fine = dijkstra_eventchains_full(graph, NodeId(0), target, false);
    assert_eq!(fine.source, NodeId(0));
    assert_eq!(fine.target, target);
}

#[test]
fn same_inputs_give_the_same_result() {
    let graph = Arc::new(Graph::random_connected(200, 600, 30));
    let one = dijkstra_eventchains_full(graph.clone(), NodeId(3), NodeId(150), true);
    let two = dijkstra_eventchains_full(graph.clone(), NodeId(3), NodeId(150), true);
    assert!(same(&one, &two));
    let three = dijkstra_eventchains_optimized(graph.clone(), NodeId(3), NodeId(150));
    let four = dijkstra_eventchains_optimized(graph, NodeId(3), NodeId(150));
    assert!(same(&three, &four));
}
