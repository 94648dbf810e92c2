use vstd::prelude::*;
use std::sync::atomic::{AtomicU64, Ordering};
use std::sync::Arc;
use std::time::Instant;
use crate::clock::{nanos_since, start_clock};
use crate::context::{
    key_log, lines_in, logged, ContextValue, ContextView, EventContext, EventResult, LineView,
    LogLine, Outcome, ValueView,
};
use crate::eventchains::{EventMiddleware, Flow};
use crate::noop_middleware::{
    lemma_counting_transparent, lemma_noop_transparent, CountingMiddleware, NoOpMiddleware,
};
use crate::pipeline::{
    is_pipeline_key, lemma_foreign_insert, lemma_foreign_remove, lemma_pipeline_keys_are_short,
    pipeline_of, transparent,
};
use crate::text::{joined, text};

verus! {

/// The line logged when an event starts.
pub open spec fn starting_line(event: Seq<char>) -> LineView {
    LineView::Text("  ▶ "@ + event + " starting"@)
}

/// The line logged when an event has ended with `outcome`.
pub open spec fn ended_line(event: Seq<char>, outcome: Outcome) -> LineView {
    match outcome {
        Outcome::Success => LineView::Text("    ✓ "@ + event + " completed"@),
        Outcome::Failure(message) => LineView::Text(
            "    ✗ "@ + event + " failed: "@ + message,
        ),
    }
}

/// Logging middleware that tracks event execution in the log of the store.
pub struct LoggingMiddleware {
    pub verbose: bool,
}

impl LoggingMiddleware {
    pub fn new(verbose: bool) -> (m: LoggingMiddleware)
        ensures
            m.verbose == verbose,
    {
        LoggingMiddleware { verbose }
    }
}

impl EventMiddleware for LoggingMiddleware {
    /// Where verbose, the start of the event is logged. The call goes on.
    open spec fn enter(&self, event: Seq<char>, context: ContextView) -> (
        ContextView,
        Option<Outcome>,
    ) {
        if self.verbose {
            (logged(context, starting_line(event)), None)
        } else {
            (context, None)
        }
    }

    /// Where verbose, the end of the event is logged. The outcome stays as it is.
    open spec fn leave(&self, event: Seq<char>, context: ContextView, outcome: Outcome) -> (
        ContextView,
        Outcome,
    ) {
        if self.verbose {
            (logged(context, ended_line(event, outcome)), outcome)
        } else {
            (context, outcome)
        }
    }

    fn before(&self, event: &str, context: &mut EventContext) -> (flow: Flow) {
        if self.verbose {
            let head = joined("  ▶ ", event);
            let line = joined(head.as_str(), " starting");
            context.log(LogLine::Text(line));
        }
        Flow::Proceed
    }

    fn after(&self, event: &str, context: &mut EventContext, result: EventResult<()>) -> (r:
        EventResult<()>) {
        if self.verbose {
            let line = match &result {
                EventResult::Success(_) => {
                    let head = joined("    ✓ ", event);
                    joined(head.as_str(), " completed")
                },
                EventResult::Failure(message) => {
                    let head = joined("    ✗ ", event);
                    let middle = joined(head.as_str(), " failed: ");
                    joined(middle.as_str(), message.as_str())
                },
            };
            context.log(LogLine::Text(line));
        }
        result
    }
}

/// The key under which the start of an event is kept while it runs.
pub open spec fn started_key(event: Seq<char>) -> Seq<char> {
    event + "_started_ns"@
}

/// The key under which the duration of an event is stored.
pub open spec fn duration_key(event: Seq<char>) -> Seq<char> {
    event + "_duration_ns"@
}

/// Timing middleware that measures execution time and stores it, in nanoseconds,
/// under the event's duration key.
pub struct TimingMiddleware {
    pub log_timing: bool,
    pub origin: Instant,
}

impl TimingMiddleware {
    pub fn new(log_timing: bool) -> (m: TimingMiddleware)
        ensures
            m.log_timing == log_timing,
    {
        TimingMiddleware { log_timing, origin: start_clock() }
    }
}

impl EventMiddleware for TimingMiddleware {
    /// A clock reading is kept under the event's start key. The call goes on.
    open spec fn enter(&self, event: Seq<char>, context: ContextView) -> (
        ContextView,
        Option<Outcome>,
    ) {
        (context.insert(started_key(event), ValueView::Timing), None)
    }

    /// The start is removed and the duration stored under the event's duration key;
    /// where timings are logged, a line for the event is added to the log. The outcome
    /// stays as it is.
    open spec fn leave(&self, event: Seq<char>, context: ContextView, outcome: Outcome) -> (
        ContextView,
        Outcome,
    ) {
        let timed = context.remove(started_key(event)).insert(
            duration_key(event),
            ValueView::Timing,
        );
        if self.log_timing {
            (logged(timed, LineView::Took(event)), outcome)
        } else {
            (timed, outcome)
        }
    }

    fn before(&self, event: &str, context: &mut EventContext) -> (flow: Flow) {
        let key = joined(event, "_started_ns");
        let now = nanos_since(&self.origin);
        context.set(key.as_str(), ContextValue::Timing(now));
        Flow::Proceed
    }

    fn after(&self, event: &str, context: &mut EventContext, result: EventResult<()>) -> (r:
        EventResult<()>) {
        let now = nanos_since(&self.origin);
        let started = joined(event, "_started_ns");
        let start = match context.get_timing(started.as_str()) {
            Some(n) => n,
            None => now,
        };
        let duration = now.saturating_sub(start);
        let _ = context.take(started.as_str());
        let key = joined(event, "_duration_ns");
        context.set(key.as_str(), ContextValue::Timing(duration));
        if self.log_timing {
            context.log(LogLine::Took(text(event), duration / 1000));
        }
        result
    }
}

/// Performance profiling middleware: counts the events that pass through it, in a
/// counter that copies of the middleware on other threads may share. The counter is
/// an atomic number whose value no contract speaks of: what is proved of this
/// middleware is what it does to the store and to the outcome, which is nothing.
pub struct PerformanceMiddleware {
    pub event_count: Arc<AtomicU64>,
}

impl PerformanceMiddleware {
    pub fn new() -> PerformanceMiddleware {
        PerformanceMiddleware { event_count: Arc::new(AtomicU64::new(0)) }
    }

    /// The number of events counted so far, by whoever shares the counter.
    pub fn get_event_count(&self) -> u64 {
        self.event_count.load(Ordering::SeqCst)
    }
}

impl EventMiddleware for PerformanceMiddleware {
    /// The store stays as it is and the call goes on.
    open spec fn enter(&self, event: Seq<char>, context: ContextView) -> (
        ContextView,
        Option<Outcome>,
    ) {
        (context, None)
    }

    /// Store and outcome stay as they are.
    open spec fn leave(&self, event: Seq<char>, context: ContextView, outcome: Outcome) -> (
        ContextView,
        Outcome,
    ) {
        (context, outcome)
    }

    fn before(&self, event: &str, context: &mut EventContext) -> (flow: Flow) {
        self.event_count.fetch_add(1, Ordering::SeqCst);
        Flow::Proceed
    }

    fn after(&self, event: &str, context: &mut EventContext, result: EventResult<()>) -> (r:
        EventResult<()>) {
        result
    }
}

/// The log's key is none of the pipeline's.
pub proof fn lemma_log_key_is_foreign()
    ensures
        !is_pipeline_key(key_log()),
{
    reveal_strlit("log");
    if is_pipeline_key(key_log()) {
        lemma_pipeline_keys_are_short(key_log());
    }
}

/// The keys that the timing middleware uses are none of the pipeline's.
pub proof fn lemma_timing_keys_are_foreign(event: Seq<char>)
    ensures
        !is_pipeline_key(started_key(event)),
        !is_pipeline_key(duration_key(event)),
{
    reveal_strlit("_started_ns");
    reveal_strlit("_duration_ns");
    if is_pipeline_key(started_key(event)) {
        lemma_pipeline_keys_are_short(started_key(event));
    }
    if is_pipeline_key(duration_key(event)) {
        lemma_pipeline_keys_are_short(duration_key(event));
    }
}

/// The logging middleware is transparent.
pub proof fn lemma_logging_transparent(m: LoggingMiddleware)
    ensures
        transparent(m),
{
    lemma_log_key_is_foreign();
    assert forall|name: Seq<char>, c: ContextView|
        (#[trigger] m.enter(name, c)).1 is None && pipeline_of(m.enter(name, c).0)
            == pipeline_of(c) by {
        lemma_foreign_insert(
            c,
            key_log(),
            ValueView::Log(lines_in(c).push(starting_line(name))),
        );
    }
    assert forall|name: Seq<char>, c: ContextView, o: Outcome|
        (#[trigger] m.leave(name, c, o)).1 == o && pipeline_of(m.leave(name, c, o).0)
            == pipeline_of(c) by {
        lemma_foreign_insert(c, key_log(), ValueView::Log(lines_in(c).push(ended_line(name, o))));
    }
}

/// The timing middleware is transparent.
pub proof fn lemma_timing_transparent(m: TimingMiddleware)
    ensures
        transparent(m),
{
    lemma_log_key_is_foreign();
    assert forall|name: Seq<char>, c: ContextView|
        (#[trigger] m.enter(name, c)).1 is None && pipeline_of(m.enter(name, c).0)
            == pipeline_of(c) by {
        lemma_timing_keys_are_foreign(name);
        lemma_foreign_insert(c, started_key(name), ValueView::Timing);
    }
    assert forall|name: Seq<char>, c: ContextView, o: Outcome|
        (#[trigger] m.leave(name, c, o)).1 == o && pipeline_of(m.leave(name, c, o).0)
            == pipeline_of(c) by {
        lemma_timing_keys_are_foreign(name);
        let removed = c.remove(started_key(name));
        lemma_foreign_remove(c, started_key(name));
        let timed = removed.insert(duration_key(name), ValueView::Timing);
        lemma_foreign_insert(removed, duration_key(name), ValueView::Timing);
        lemma_foreign_insert(
            timed,
            key_log(),
            ValueView::Log(lines_in(timed).push(LineView::Took(name))),
        );
    }
}

/// The performance middleware is transparent.
pub proof fn lemma_performance_transparent(m: PerformanceMiddleware)
    ensures
        transparent(m),
{
}

/// Any of the middleware of this library, so that one chain can stack them.
pub enum Middleware {
    Logging(LoggingMiddleware),
    Timing(TimingMiddleware),
    Performance(PerformanceMiddleware),
    NoOp(NoOpMiddleware),
    Counting(CountingMiddleware),
}

impl EventMiddleware for Middleware {
    open spec fn enter(&self, event: Seq<char>, context: ContextView) -> (
        ContextView,
        Option<Outcome>,
    ) {
        match self {
            Middleware::Logging(m) => m.enter(event, context),
            Middleware::Timing(m) => m.enter(event, context),
            Middleware::Performance(m) => m.enter(event, context),
            Middleware::NoOp(m) => m.enter(event, context),
            Middleware::Counting(m) => m.enter(event, context),
        }
    }

    open spec fn leave(&self, event: Seq<char>, context: ContextView, outcome: Outcome) -> (
        ContextView,
        Outcome,
    ) {
        match self {
            Middleware::Logging(m) => m.leave(event, context, outcome),
            Middleware::Timing(m) => m.leave(event, context, outcome),
            Middleware::Performance(m) => m.leave(event, context, outcome),
            Middleware::NoOp(m) => m.leave(event, context, outcome),
            Middleware::Counting(m) => m.leave(event, context, outcome),
        }
    }

    fn before(&self, event: &str, context: &mut EventContext) -> (flow: Flow) {
        match self {
            Middleware::Logging(m) => m.before(event, context),
            Middleware::Timing(m) => m.before(event, context),
            Middleware::Performance(m) => m.before(event, context),
            Middleware::NoOp(m) => m.before(event, context),
            Middleware::Counting(m) => m.before(event, context),
        }
    }

    fn after(&self, event: &str, context: &mut EventContext, result: EventResult<()>) -> (r:
        EventResult<()>) {
        match self {
            Middleware::Logging(m) => m.after(event, context, result),
            Middleware::Timing(m) => m.after(event, context, result),
            Middleware::Performance(m) => m.after(event, context, result),
            Middleware::NoOp(m) => m.after(event, context, result),
            Middleware::Counting(m) => m.after(event, context, result),
        }
    }
}

/// Every middleware of this library is transparent: it never cuts an event short,
/// hands its outcome on, and keeps off the pipeline's part of the store.
pub proof fn lemma_middleware_transparent(m: Middleware)
    ensures
        transparent(m),
{
    match m {
        Middleware::Logging(inner) => {
            lemma_logging_transparent(inner);
        },
        Middleware::Timing(inner) => {
            lemma_timing_transparent(inner);
        },
        Middleware::Performance(inner) => {
            lemma_performance_transparent(inner);
        },
        Middleware::NoOp(inner) => {
            lemma_noop_transparent(inner);
        },
        Middleware::Counting(inner) => {
            lemma_counting_transparent(inner);
        },
    }
}

impl Default for PerformanceMiddleware {
    fn default() -> PerformanceMiddleware {
        PerformanceMiddleware::new()
    }
}

} // verus!
