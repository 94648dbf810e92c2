use vstd::prelude::*;
use std::sync::atomic::{AtomicU64, Ordering};
use std::sync::Arc;
use crate::context::{
    count_in, ContextValue, ContextView, EventContext, EventResult, Outcome, ValueView,
};
use crate::eventchains::{EventMiddleware, Flow};
use crate::pipeline::{
    is_pipeline_key, lemma_foreign_insert, lemma_pipeline_keys_are_short, pipeline_of, transparent,
};
use crate::text::{decimal_digits, decimal_of, joined, lemma_decimal_not_empty};

verus! {

/// The key under which the middleware with this id counts its calls.
pub open spec fn noop_key(id: usize) -> Seq<char> {
    "noop_middleware_"@ + decimal_digits(id as nat) + "_called"@
}

/// The count that follows `count`: one more, held at the largest `u64`.
pub open spec fn next_count(count: Option<u64>) -> u64 {
    match count {
        Some(n) => if n < u64::MAX {
            (n + 1) as u64
        } else {
            n
        },
        None => 1,
    }
}

/// No-op middleware for measuring overhead: it counts its calls in the store and
/// lets the event through.
pub struct NoOpMiddleware {
    pub id: usize,
}

impl NoOpMiddleware {
    pub fn new(id: usize) -> (m: NoOpMiddleware)
        ensures
            m.id == id,
    {
        NoOpMiddleware { id }
    }
}

impl EventMiddleware for NoOpMiddleware {
    /// The count under the middleware's key goes up by one, and the call goes on.
    open spec fn enter(&self, event: Seq<char>, context: ContextView) -> (
        ContextView,
        Option<Outcome>,
    ) {
        (
            context.insert(
                noop_key(self.id),
                ValueView::Count(next_count(count_in(context, noop_key(self.id)))),
            ),
            None,
        )
    }

    /// Store and outcome stay as they are.
    open spec fn leave(&self, event: Seq<char>, context: ContextView, outcome: Outcome) -> (
        ContextView,
        Outcome,
    ) {
        (context, outcome)
    }

    fn before(&self, event: &str, context: &mut EventContext) -> (flow: Flow) {
        let digits = decimal_of(self.id);
        let head = joined("noop_middleware_", digits.as_str());
        let key = joined(head.as_str(), "_called");
        let count = match context.get_count(key.as_str()) {
            Some(n) => n.saturating_add(1),
            None => 1,
        };
        context.set(key.as_str(), ContextValue::Count(count));
        Flow::Proceed
    }

    fn after(&self, event: &str, context: &mut EventContext, result: EventResult<()>) -> (r:
        EventResult<()>) {
        result
    }
}

/// The no-op middleware is transparent.
pub proof fn lemma_noop_transparent(m: NoOpMiddleware)
    ensures
        transparent(m),
{
    let key = noop_key(m.id);
    lemma_decimal_not_empty(m.id as nat);
    reveal_strlit("noop_middleware_");
    reveal_strlit("_called");
    assert(key.len() >= 24);
    if is_pipeline_key(key) {
        lemma_pipeline_keys_are_short(key);
    }
    assert forall|name: Seq<char>, c: ContextView|
        (#[trigger] m.enter(name, c)).1 is None && pipeline_of(m.enter(name, c).0)
            == pipeline_of(c) by {
        lemma_foreign_insert(c, key, ValueView::Count(next_count(count_in(c, key))));
    }
}

/// Counting middleware for validation: counts the events that pass through it, in a
/// counter that copies of the middleware on other threads may share. The counter is
/// an atomic number whose value no contract speaks of: what is proved of this
/// middleware is what it does to the store and to the outcome, which is nothing.
pub struct CountingMiddleware {
    counter: Arc<AtomicU64>,
}

impl CountingMiddleware {
    pub fn new() -> CountingMiddleware {
        CountingMiddleware { counter: Arc::new(AtomicU64::new(0)) }
    }

    /// The number of events counted so far, by whoever shares the counter.
    pub fn get_count(&self) -> u64 {
        self.counter.load(Ordering::SeqCst)
    }
}

impl EventMiddleware for CountingMiddleware {
    /// The store stays as it is and the call goes on.
    open spec fn enter(&self, event: Seq<char>, context: ContextView) -> (
        ContextView,
        Option<Outcome>,
    ) {
        (context, None)
    }

    /// Store and outcome stay as they are.
    open spec fn leave(&self, event: Seq<char>, context: ContextView, outcome: Outcome) -> (
        ContextView,
        Outcome,
    ) {
        (context, outcome)
    }

    fn before(&self, event: &str, context: &mut EventContext) -> (flow: Flow) {
        self.counter.fetch_add(1, Ordering::SeqCst);
        Flow::Proceed
    }

    fn after(&self, event: &str, context: &mut EventContext, result: EventResult<()>) -> (r:
        EventResult<()>) {
        result
    }
}

/// The counting middleware is transparent.
pub proof fn lemma_counting_transparent(m: CountingMiddleware)
    ensures
        transparent(m),
{
}

impl Default for CountingMiddleware {
    fn default() -> CountingMiddleware {
        CountingMiddleware::new()
    }
}

} // verus!
