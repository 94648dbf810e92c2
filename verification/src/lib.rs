//! An event-chain execution engine, and single-source shortest paths
//! decomposed into events that run on it.
//!
//! A chain runs an ordered list of events against a shared keyed store, each
//! inside a stack of middleware, under a fault tolerance mode. What a run does is
//! stated over plain data: `eventchains::run_chain` says which store it leaves
//! and which failures it records, and the laws of nesting order and fault
//! tolerance are proved of it. The shortest-path pipeline is proved to compute
//! least distances and lightest routes, with or without a chain around it.
pub mod clock;
pub mod context;
pub mod dijkstra_eventchains;
pub mod dijkstra_events;
pub mod dijkstra_traditional;
pub mod edge_set;
pub mod eventchains;
pub mod graph;
pub mod invariants;
pub mod middleware;
pub mod noop_middleware;
pub mod paths;
pub mod pipeline;
pub mod queue;
pub mod random_graph;
pub mod search;
pub mod shortest;
pub mod text;
pub mod tier_baselines;
