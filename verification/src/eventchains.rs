use vstd::prelude::*;
use crate::clock::unix_seconds;
pub use crate::context::{ContextView, EventContext, EventResult, Outcome};
use crate::text::text;

verus! {

/// A unit of work that runs against the shared store. What it does shows only in
/// the store and in its result; which store and which result, `effect` says.
pub trait ChainableEvent: Send + Sync {
    /// The display name, as characters.
    spec fn label(&self) -> Seq<char>;

    /// The store that the event leaves, and how it ends, for the store it is given.
    spec fn effect(&self, context: ContextView) -> (ContextView, Outcome);

    fn execute(&self, context: &mut EventContext) -> (r: EventResult<()>)
        ensures
            (final(context)@, r@) == self.effect(old(context)@),
    ;

    fn name(&self) -> (s: &str)
        ensures
            s@ == self.label(),
    ;
}

/// What a middleware decides before the rest of the stack runs.
pub enum Flow {
    /// The inner middleware and the event run.
    Proceed,
    /// Nothing further in runs: the event ends with this result.
    ShortCircuit(EventResult<()>),
}

impl View for Flow {
    type V = Option<Outcome>;

    /// The outcome of a short circuit; none where the flow goes on.
    open spec fn view(&self) -> Option<Outcome> {
        match self {
            Flow::Proceed => None,
            Flow::ShortCircuit(r) => Some(r@),
        }
    }
}

/// An interceptor around an event's execution. It is handed the name of the event
/// and the store, once before the inner call and once after it.
pub trait EventMiddleware: Send + Sync {
    /// The store left by the work done before the inner call, and the outcome with
    /// which this middleware cuts the call short, if it does.
    spec fn enter(&self, event: Seq<char>, context: ContextView) -> (
        ContextView,
        Option<Outcome>,
    );

    /// The store and the outcome left by the work done after the inner call returned
    /// `outcome`.
    spec fn leave(&self, event: Seq<char>, context: ContextView, outcome: Outcome) -> (
        ContextView,
        Outcome,
    );

    fn before(&self, event: &str, context: &mut EventContext) -> (flow: Flow)
        ensures
            (final(context)@, flow@) == self.enter(event@, old(context)@),
    ;

    fn after(&self, event: &str, context: &mut EventContext, result: EventResult<()>) -> (r:
        EventResult<()>)
        ensures
            (final(context)@, r@) == self.leave(event@, old(context)@, result@),
    ;
}

/// A recorded failure as plain data: the event and its message. The time of the
/// record is left out.
pub struct FailureData {
    pub event_name: Seq<char>,
    pub error_message: Seq<char>,
}

/// Event failure information.
#[derive(Debug, Clone)]
pub struct EventFailure {
    pub event_name: String,
    pub error_message: String,
    pub timestamp: u64,
}

impl View for EventFailure {
    type V = FailureData;

    open spec fn view(&self) -> FailureData {
        FailureData { event_name: self.event_name@, error_message: self.error_message@ }
    }
}

impl EventFailure {
    /// A record stamped with the given time.
    pub fn at(event_name: String, error_message: String, timestamp: u64) -> (f: EventFailure)
        ensures
            f.event_name == event_name,
            f.error_message == error_message,
            f.timestamp == timestamp,
    {
        EventFailure { event_name, error_message, timestamp }
    }

    /// A record stamped with the wall clock's seconds since the epoch.
    pub fn new(event_name: String, error_message: String) -> (f: EventFailure)
        ensures
            f.event_name == event_name,
            f.error_message == error_message,
    {
        EventFailure::at(event_name, error_message, unix_seconds())
    }
}

/// How a chain run ended.
#[derive(Debug, Clone, Copy, PartialEq, Eq, Structural)]
pub enum ChainStatus {
    Completed,
    CompletedWithWarnings,
    Failed,
}

impl ChainStatus {
    /// The status in capitals, as it is shown.
    pub fn to_string(&self) -> (s: String)
        ensures
            s@ == match self {
                ChainStatus::Completed => "COMPLETED"@,
                ChainStatus::CompletedWithWarnings => "COMPLETED_WITH_WARNINGS"@,
                ChainStatus::Failed => "FAILED"@,
            },
    {
        match self {
            ChainStatus::Completed => text("COMPLETED"),
            ChainStatus::CompletedWithWarnings => text("COMPLETED_WITH_WARNINGS"),
            ChainStatus::Failed => text("FAILED"),
        }
    }
}

/// The outcome of a chain run as plain data.
pub struct ChainView {
    pub success: bool,
    pub failures: Seq<FailureData>,
    pub status: ChainStatus,
}

/// Chain execution result.
#[derive(Debug)]
pub struct ChainResult {
    pub success: bool,
    pub failures: Vec<EventFailure>,
    pub status: ChainStatus,
}

impl View for ChainResult {
    type V = ChainView;

    open spec fn view(&self) -> ChainView {
        ChainView {
            success: self.success,
            failures: Seq::new(self.failures@.len(), |i: int| self.failures@[i]@),
            status: self.status,
        }
    }
}

/// The status is `Failed` exactly when the run did not succeed, and
/// `CompletedWithWarnings` exactly when it succeeded although failures were recorded.
pub open spec fn consistent(r: ChainView) -> bool {
    &&& r.status == ChainStatus::Failed <==> !r.success
    &&& r.status == ChainStatus::CompletedWithWarnings <==> r.success && r.failures.len() > 0
}

/// The failure records as plain data.
pub open spec fn failure_views(failures: Seq<EventFailure>) -> Seq<FailureData> {
    Seq::new(failures.len(), |i: int| failures[i]@)
}

impl ChainResult {
    /// A run in which no event failed.
    pub fn success() -> (r: ChainResult)
        ensures
            r@ == completed(),
    {
        let r = ChainResult {
            success: true,
            failures: Vec::new(),
            status: ChainStatus::Completed,
        };
        assert(r@.failures =~= Seq::<FailureData>::empty());
        r
    }

    /// A run that went to its end although the given failures were recorded.
    pub fn partial_success(failures: Vec<EventFailure>) -> (r: ChainResult)
        requires
            failures@.len() > 0,
        ensures
            r@ == completed_with_warnings(failure_views(failures@)),
            r.failures == failures,
    {
        ChainResult { success: true, failures, status: ChainStatus::CompletedWithWarnings }
    }

    /// A run that was given up with the given failures.
    pub fn failure(failures: Vec<EventFailure>) -> (r: ChainResult)
        ensures
            r@ == failed(failure_views(failures@)),
            r.failures == failures,
    {
        ChainResult { success: false, failures, status: ChainStatus::Failed }
    }
}

/// The outcome of a run without failures.
pub open spec fn completed() -> ChainView {
    ChainView { success: true, failures: Seq::empty(), status: ChainStatus::Completed }
}

/// The outcome of a run that continued past the given failures.
pub open spec fn completed_with_warnings(failures: Seq<FailureData>) -> ChainView {
    ChainView { success: true, failures, status: ChainStatus::CompletedWithWarnings }
}

/// The outcome of a run that was given up.
pub open spec fn failed(failures: Seq<FailureData>) -> ChainView {
    ChainView { success: false, failures, status: ChainStatus::Failed }
}

/// Fault tolerance mode: what a chain does after an event failed.
#[derive(Debug, Clone, Copy, PartialEq, Eq, Structural)]
pub enum FaultToleranceMode {
    /// The run stops at the first failure.
    Strict,
    /// The run goes on with the next event.
    Lenient,
    /// The run goes on with the next event.
    BestEffort,
}

/// One event inside the whole stack of middleware: the middleware registered last
/// is the outermost. It enters first; where it cuts the call short, its outcome
/// stands; else the inner stack runs and it leaves last.
pub open spec fn wrapped<E: ChainableEvent, M: EventMiddleware>(
    middlewares: Seq<M>,
    event: E,
    context: ContextView,
) -> (ContextView, Outcome)
    decreases middlewares.len(),
{
    if middlewares.len() == 0 {
        event.effect(context)
    } else {
        let outer = middlewares.last();
        let entered = outer.enter(event.label(), context);
        match entered.1 {
            Some(outcome) => (entered.0, outcome),
            None => {
                let inner = wrapped(middlewares.drop_last(), event, entered.0);
                outer.leave(event.label(), inner.0, inner.1)
            },
        }
    }
}

/// The way out through the middleware `from..to`, innermost first, with the store
/// and outcome that the inner call left.
pub open spec fn unwound<M: EventMiddleware>(
    middlewares: Seq<M>,
    event: Seq<char>,
    from: int,
    to: int,
    inner: (ContextView, Outcome),
) -> (ContextView, Outcome)
    decreases to - from,
{
    if from >= to {
        inner
    } else {
        unwound(
            middlewares,
            event,
            from + 1,
            to,
            middlewares[from].leave(event, inner.0, inner.1),
        )
    }
}

/// A chain run after some of its events: the store, the failures recorded so far,
/// and whether the run was given up.
pub struct Run {
    pub context: ContextView,
    pub failures: Seq<FailureData>,
    pub aborted: bool,
}

/// The run after its first `count` events. An event runs, inside the middleware, on
/// the store that its predecessors left, unless the run was given up before. A
/// failure is recorded under the event's name; in `Strict` mode the run is then given
/// up.
pub open spec fn run_prefix<E: ChainableEvent, M: EventMiddleware>(
    events: Seq<E>,
    middlewares: Seq<M>,
    mode: FaultToleranceMode,
    context: ContextView,
    count: nat,
) -> Run
    decreases count,
{
    if count == 0 {
        Run { context, failures: Seq::empty(), aborted: false }
    } else {
        let before = run_prefix(events, middlewares, mode, context, (count - 1) as nat);
        if before.aborted || count > events.len() {
            before
        } else {
            let event = events[count - 1];
            let done = wrapped(middlewares, event, before.context);
            match done.1 {
                Outcome::Success => Run {
                    context: done.0,
                    failures: before.failures,
                    aborted: false,
                },
                Outcome::Failure(message) => Run {
                    context: done.0,
                    failures: before.failures.push(
                        FailureData { event_name: event.label(), error_message: message },
                    ),
                    aborted: mode == FaultToleranceMode::Strict,
                },
            }
        }
    }
}

/// The whole run of a chain on `context`.
pub open spec fn run_chain<E: ChainableEvent, M: EventMiddleware>(
    events: Seq<E>,
    middlewares: Seq<M>,
    mode: FaultToleranceMode,
    context: ContextView,
) -> Run {
    run_prefix(events, middlewares, mode, context, events.len())
}

/// What a finished run reports: `Failed` where it was given up, `Completed` where
/// nothing failed, `CompletedWithWarnings` where it went on past failures.
pub open spec fn report(run: Run) -> ChainView {
    if run.aborted {
        failed(run.failures)
    } else if run.failures.len() == 0 {
        completed()
    } else {
        completed_with_warnings(run.failures)
    }
}

/// Main EventChain orchestrator: an ordered list of events, an ordered list of
/// middleware and a fault tolerance mode.
pub struct EventChain<E: ChainableEvent, M: EventMiddleware> {
    events: Vec<E>,
    middlewares: Vec<M>,
    fault_tolerance: FaultToleranceMode,
}

impl<E: ChainableEvent, M: EventMiddleware> EventChain<E, M> {
    /// The events in execution order.
    pub closed spec fn events(&self) -> Seq<E> {
        self.events@
    }

    /// The middleware in registration order.
    pub closed spec fn middlewares(&self) -> Seq<M> {
        self.middlewares@
    }

    /// The fault tolerance mode.
    pub closed spec fn mode(&self) -> FaultToleranceMode {
        self.fault_tolerance
    }

    /// An empty chain in `Strict` mode.
    pub fn new() -> (chain: Self)
        ensures
            chain.events() == Seq::<E>::empty(),
            chain.middlewares() == Seq::<M>::empty(),
            chain.mode() == FaultToleranceMode::Strict,
    {
        EventChain {
            events: Vec::new(),
            middlewares: Vec::new(),
            fault_tolerance: FaultToleranceMode::Strict,
        }
    }

    /// The chain with its mode set to `mode`.
    pub fn with_fault_tolerance(self, mode: FaultToleranceMode) -> (chain: Self)
        ensures
            chain.events() == self.events(),
            chain.middlewares() == self.middlewares(),
            chain.mode() == mode,
    {
        let mut chain = self;
        chain.fault_tolerance = mode;
        chain
    }

    /// Appends `event` to the events, and hands the chain back for the next call.
    pub fn add_event(&mut self, event: E) -> (chain: &mut Self)
        ensures
            chain.events() == old(self).events().push(event),
            chain.middlewares() == old(self).middlewares(),
            chain.mode() == old(self).mode(),
            *final(self) == *final(chain),
    {
        self.events.push(event);
        self
    }

    /// Registers `middleware`: it becomes the outermost wrapper. The chain is handed
    /// back for the next call.
    pub fn use_middleware(&mut self, middleware: M) -> (chain: &mut Self)
        ensures
            chain.events() == old(self).events(),
            chain.middlewares() == old(self).middlewares().push(middleware),
            chain.mode() == old(self).mode(),
            *final(self) == *final(chain),
    {
        self.middlewares.push(middleware);
        self
    }

    /// Runs the event at `index` inside the registered middleware: each middleware is
    /// entered, from the one registered last inwards, until one cuts the call short or
    /// the event itself has run; then those entered are left in the opposite order.
    fn execute_with_middleware(&self, index: usize, context: &mut EventContext) -> (r:
        EventResult<()>)
        requires
            index < self.events().len(),
        ensures
            (final(context)@, r@) == wrapped(
                self.middlewares(),
                self.events()[index as int],
                old(context)@,
            ),
    {
        let ghost mws = self.middlewares@;
        let ghost event = self.events@[index as int];
        let ghost name = event.label();
        let ghost goal = wrapped(mws, event, context@);
        let n = self.middlewares.len();
        let mut i: usize = n;
        let mut flow = Flow::Proceed;
        proof {
            assert(mws.take(n as int) =~= mws);
        }
        while i > 0 && !is_cut(&flow)
            invariant
                mws == self.middlewares@,
                index < self.events@.len(),
                event == self.events@[index as int],
                name == event.label(),
                n == mws.len(),
                i <= n,
                flow is Proceed ==> goal == unwound(
                    mws,
                    name,
                    i as int,
                    n as int,
                    wrapped(mws.take(i as int), event, context@),
                ),
                flow matches Flow::ShortCircuit(r) ==> i < n && goal == unwound(
                    mws,
                    name,
                    i + 1,
                    n as int,
                    (context@, r@),
                ),
            decreases i,
        {
            let ghost here = context@;
            i = i - 1;
            flow = self.middlewares[i].before(self.events[index].name(), context);
            proof {
                let stack = mws.take(i + 1);
                assert(stack.last() == mws[i as int]);
                assert(stack.drop_last() =~= mws.take(i as int));
                let entered = mws[i as int].enter(name, here);
                if entered.1 is None {
                    let inner = wrapped(mws.take(i as int), event, entered.0);
                    assert(wrapped(stack, event, here) == mws[i as int].leave(
                        name,
                        inner.0,
                        inner.1,
                    ));
                } else {
                    assert(wrapped(stack, event, here) == (entered.0, entered.1.unwrap()));
                }
            }
        }
        let mut j: usize;
        let mut result: EventResult<()>;
        match flow {
            Flow::ShortCircuit(r) => {
                result = r;
                j = i + 1;
            },
            Flow::Proceed => {
                proof {
                    assert(mws.take(0).len() == 0);
                }
                result = self.events[index].execute(context);
                j = 0;
            },
        }
        while j < n
            invariant
                mws == self.middlewares@,
                index < self.events@.len(),
                event == self.events@[index as int],
                name == event.label(),
                n == mws.len(),
                j <= n,
                goal == unwound(mws, name, j as int, n as int, (context@, result@)),
            decreases n - j,
        {
            result = self.middlewares[j].after(self.events[index].name(), context, result);
            j = j + 1;
        }
        result
    }

    /// Runs the events in order against `context`, each inside the middleware, and
    /// reports how the run ended.
    pub fn execute(&self, context: &mut EventContext) -> (r: ChainResult)
        ensures
            final(context)@ == run_chain(
                self.events(),
                self.middlewares(),
                self.mode(),
                old(context)@,
            ).context,
            r@ == report(
                run_chain(self.events(), self.middlewares(), self.mode(), old(context)@),
            ),
            consistent(r@),
    {
        let ghost start = context@;
        let mut failures: Vec<EventFailure> = Vec::new();
        let mut i: usize = 0;
        assert(failure_views(failures@) =~= Seq::<FailureData>::empty());
        while i < self.events.len()
            invariant
                i <= self.events.len(),
                start == old(context)@,
                run_prefix(self.events@, self.middlewares@, self.fault_tolerance, start, i as nat)
                    == (Run {
                    context: context@,
                    failures: failure_views(failures@),
                    aborted: false,
                }),
            decreases self.events.len() - i,
        {
            let result = self.execute_with_middleware(i, context);
            if let EventResult::Failure(message) = result {
                let ghost recorded = failure_views(failures@);
                let failure = EventFailure::new(text(self.events[i].name()), message);
                failures.push(failure);
                proof {
                    assert(failure_views(failures@) =~= recorded.push(failure@));
                }
                match self.fault_tolerance {
                    FaultToleranceMode::Strict => {
                        proof {
                            assert(run_prefix(
                                self.events@,
                                self.middlewares@,
                                self.fault_tolerance,
                                start,
                                (i + 1) as nat,
                            ) == (Run {
                                context: context@,
                                failures: failure_views(failures@),
                                aborted: true,
                            }));
                            lemma_aborted_stays(
                                self.events@,
                                self.middlewares@,
                                self.fault_tolerance,
                                start,
                                (i + 1) as nat,
                                self.events@.len(),
                            );
                        }
                        return ChainResult::failure(failures);
                    },
                    FaultToleranceMode::Lenient | FaultToleranceMode::BestEffort => {},
                }
            }
            i = i + 1;
        }
        if failures.len() == 0 {
            ChainResult::success()
        } else {
            ChainResult::partial_success(failures)
        }
    }
}

/// Whether the flow is a short circuit.
fn is_cut(flow: &Flow) -> (r: bool)
    ensures
        r == (flow is ShortCircuit),
{
    match flow {
        Flow::Proceed => false,
        Flow::ShortCircuit(_) => true,
    }
}

/// Once a run is given up, no later event changes it.
pub proof fn lemma_aborted_stays<E: ChainableEvent, M: EventMiddleware>(
    events: Seq<E>,
    middlewares: Seq<M>,
    mode: FaultToleranceMode,
    context: ContextView,
    at: nat,
    later: nat,
)
    requires
        run_prefix(events, middlewares, mode, context, at).aborted,
        at <= later,
    ensures
        run_prefix(events, middlewares, mode, context, later) == run_prefix(
            events,
            middlewares,
            mode,
            context,
            at,
        ),
    decreases later,
{
    if later > at {
        lemma_aborted_stays(events, middlewares, mode, context, at, (later - 1) as nat);
    }
}

/// The middleware registered last is the outermost: around an event it enters
/// first, and unless it cuts the call short, the stack registered before it runs
/// inside and it leaves last.
pub proof fn lemma_last_registered_is_outermost<E: ChainableEvent, M: EventMiddleware>(
    middlewares: Seq<M>,
    last: M,
    event: E,
    context: ContextView,
)
    ensures
        wrapped(middlewares.push(last), event, context) == ({
            let entered = last.enter(event.label(), context);
            match entered.1 {
                Some(outcome) => (entered.0, outcome),
                None => {
                    let inner = wrapped(middlewares, event, entered.0);
                    last.leave(event.label(), inner.0, inner.1)
                },
            }
        }),
{
    let stack = middlewares.push(last);
    assert(stack.last() == last);
    assert(stack.drop_last() =~= middlewares);
}

/// Nesting order: with `a`, `b` and `c` registered in this order and none of them
/// cutting the call short, the calls around an event are `c` before, `b` before,
/// `a` before, the event, `a` after, `b` after, `c` after, each on the store that
/// the call before it left.
pub proof fn lemma_nesting_order<E: ChainableEvent, M: EventMiddleware>(
    a: M,
    b: M,
    c: M,
    event: E,
    context: ContextView,
)
    requires
        c.enter(event.label(), context).1 is None,
        b.enter(event.label(), c.enter(event.label(), context).0).1 is None,
        a.enter(event.label(), b.enter(event.label(), c.enter(event.label(), context).0).0).1
            is None,
    ensures
        wrapped(seq![a, b, c], event, context) == ({
            let name = event.label();
            let c_before = c.enter(name, context).0;
            let b_before = b.enter(name, c_before).0;
            let a_before = a.enter(name, b_before).0;
            let done = event.effect(a_before);
            let a_after = a.leave(name, done.0, done.1);
            let b_after = b.leave(name, a_after.0, a_after.1);
            c.leave(name, b_after.0, b_after.1)
        }),
{
    let none = Seq::<M>::empty();
    assert(seq![a, b, c] =~= none.push(a).push(b).push(c));
    lemma_last_registered_is_outermost(none.push(a).push(b), c, event, context);
    let c_before = c.enter(event.label(), context).0;
    lemma_last_registered_is_outermost(none.push(a), b, event, c_before);
    let b_before = b.enter(event.label(), c_before).0;
    lemma_last_registered_is_outermost(none, a, event, b_before);
}

/// In `Strict` mode the first failure ends the run: the events behind the failing
/// one never run, so the store stays as the failing event left it, the one failure
/// is recorded, and the run is reported as `Failed`.
pub proof fn lemma_strict_stops_at_first_failure<E: ChainableEvent, M: EventMiddleware>(
    events: Seq<E>,
    middlewares: Seq<M>,
    context: ContextView,
    k: nat,
)
    requires
        k < events.len(),
        !run_prefix(events, middlewares, FaultToleranceMode::Strict, context, k).aborted,
        wrapped(
            middlewares,
            events[k as int],
            run_prefix(events, middlewares, FaultToleranceMode::Strict, context, k).context,
        ).1 is Failure,
    ensures
        ({
            let mode = FaultToleranceMode::Strict;
            let before = run_prefix(events, middlewares, mode, context, k);
            let failing = wrapped(middlewares, events[k as int], before.context);
            let whole = run_chain(events, middlewares, mode, context);
            &&& forall|later: nat|
                k < later ==> run_prefix(events, middlewares, mode, context, later) == whole
            &&& whole.context == failing.0
            &&& whole.failures == seq![
                FailureData {
                    event_name: events[k as int].label(),
                    error_message: failing.1->Failure_0,
                },
            ]
            &&& report(whole).status == ChainStatus::Failed
            &&& !report(whole).success
        }),
{
    let mode = FaultToleranceMode::Strict;
    lemma_strict_no_failure_before_abort(events, middlewares, context, k);
    let after = run_prefix(events, middlewares, mode, context, k + 1);
    assert(after.aborted);
    lemma_aborted_stays(events, middlewares, mode, context, k + 1, events.len());
    assert forall|later: nat| k < later implies run_prefix(
        events,
        middlewares,
        mode,
        context,
        later,
    ) == run_chain(events, middlewares, mode, context) by {
        lemma_aborted_stays(events, middlewares, mode, context, k + 1, later);
    }
    let before = run_prefix(events, middlewares, mode, context, k);
    assert(before.failures.push(after.failures.last()) =~= seq![after.failures.last()]);
}

/// In `Strict` mode a run that was not given up has recorded no failure.
pub proof fn lemma_strict_no_failure_before_abort<E: ChainableEvent, M: EventMiddleware>(
    events: Seq<E>,
    middlewares: Seq<M>,
    context: ContextView,
    count: nat,
)
    requires
        !run_prefix(events, middlewares, FaultToleranceMode::Strict, context, count).aborted,
    ensures
        run_prefix(events, middlewares, FaultToleranceMode::Strict, context, count).failures.len()
            == 0,
    decreases count,
{
    if count > 0 {
        let mode = FaultToleranceMode::Strict;
        let before = run_prefix(events, middlewares, mode, context, (count - 1) as nat);
        if !before.aborted {
            lemma_strict_no_failure_before_abort(
                events,
                middlewares,
                context,
                (count - 1) as nat,
            );
        }
    }
}

/// Outside `Strict` mode every event runs, whatever failed before it: the event at
/// `k` runs on the store that its predecessors left, a failure of it is recorded
/// behind the failures recorded before, and the run is never reported as failed.
pub proof fn lemma_lenient_runs_every_event<E: ChainableEvent, M: EventMiddleware>(
    events: Seq<E>,
    middlewares: Seq<M>,
    mode: FaultToleranceMode,
    context: ContextView,
    k: nat,
)
    requires
        mode != FaultToleranceMode::Strict,
        k < events.len(),
    ensures
        ({
            let before = run_prefix(events, middlewares, mode, context, k);
            let after = run_prefix(events, middlewares, mode, context, k + 1);
            let done = wrapped(middlewares, events[k as int], before.context);
            let whole = run_chain(events, middlewares, mode, context);
            &&& !before.aborted
            &&& after.context == done.0
            &&& after.failures == match done.1 {
                Outcome::Success => before.failures,
                Outcome::Failure(message) => before.failures.push(
                    FailureData { event_name: events[k as int].label(), error_message: message },
                ),
            }
            &&& after.failures == whole.failures.take(after.failures.len() as int)
            &&& report(whole).success
            &&& report(whole).failures == whole.failures
        }),
{
    lemma_lenient_never_aborts(events, middlewares, mode, context, k);
    lemma_lenient_never_aborts(events, middlewares, mode, context, events.len());
    lemma_failures_in_encounter_order(events, middlewares, mode, context, k + 1, events.len());
    let whole = run_chain(events, middlewares, mode, context);
    if whole.failures.len() == 0 {
        assert(report(whole).failures =~= whole.failures);
    }
}

/// Outside `Strict` mode no run is given up.
pub proof fn lemma_lenient_never_aborts<E: ChainableEvent, M: EventMiddleware>(
    events: Seq<E>,
    middlewares: Seq<M>,
    mode: FaultToleranceMode,
    context: ContextView,
    count: nat,
)
    requires
        mode != FaultToleranceMode::Strict,
    ensures
        !run_prefix(events, middlewares, mode, context, count).aborted,
    decreases count,
{
    if count > 0 {
        lemma_lenient_never_aborts(events, middlewares, mode, context, (count - 1) as nat);
    }
}

/// Failures are recorded in encounter order: what is recorded after `earlier`
/// events is the beginning of what is recorded after `later` events.
pub proof fn lemma_failures_in_encounter_order<E: ChainableEvent, M: EventMiddleware>(
    events: Seq<E>,
    middlewares: Seq<M>,
    mode: FaultToleranceMode,
    context: ContextView,
    earlier: nat,
    later: nat,
)
    requires
        earlier <= later,
    ensures
        ({
            let first = run_prefix(events, middlewares, mode, context, earlier).failures;
            let second = run_prefix(events, middlewares, mode, context, later).failures;
            first.len() <= second.len() && first == second.take(first.len() as int)
        }),
    decreases later,
{
    let first = run_prefix(events, middlewares, mode, context, earlier).failures;
    let second = run_prefix(events, middlewares, mode, context, later).failures;
    if later == earlier {
        assert(first =~= second.take(first.len() as int));
    } else {
        lemma_failures_in_encounter_order(
            events,
            middlewares,
            mode,
            context,
            earlier,
            (later - 1) as nat,
        );
        let middle = run_prefix(events, middlewares, mode, context, (later - 1) as nat).failures;
        assert(first =~= second.take(first.len() as int)) by {
            assert(first == middle.take(first.len() as int));
            assert(middle.len() <= second.len());
            assert(middle =~= second.take(middle.len() as int));
        }
    }
}

/// Two stacks of middleware that enter and leave alike wrap two events that act
/// alike into the same call.
pub proof fn lemma_wrapped_agree<
    E1: ChainableEvent,
    E2: ChainableEvent,
    M1: EventMiddleware,
    M2: EventMiddleware,
>(middlewares1: Seq<M1>, middlewares2: Seq<M2>, event1: E1, event2: E2, context: ContextView)
    requires
        event1.label() == event2.label(),
        forall|c: ContextView| #[trigger] event1.effect(c) == event2.effect(c),
        middlewares_alike(middlewares1, middlewares2),
    ensures
        wrapped(middlewares1, event1, context) == wrapped(middlewares2, event2, context),
    decreases middlewares1.len(),
{
    if middlewares1.len() > 0 {
        let last = middlewares1.len() - 1;
        let name = event1.label();
        assert(middlewares1[last].enter(name, context) == middlewares2[last].enter(name, context));
        let entered = middlewares1.last().enter(name, context);
        let inner1 = middlewares1.drop_last();
        let inner2 = middlewares2.drop_last();
        assert(middlewares_alike(inner1, inner2)) by {
            assert forall|j: int, name: Seq<char>, c: ContextView| 0 <= j < inner1.len() implies (
            #[trigger] inner1[j].enter(name, c)) == inner2[j].enter(name, c) by {
                assert(middlewares1[j].enter(name, c) == middlewares2[j].enter(name, c));
            }
            assert forall|j: int, name: Seq<char>, c: ContextView, o: Outcome|
                0 <= j < inner1.len() implies (#[trigger] inner1[j].leave(name, c, o))
                == inner2[j].leave(name, c, o) by {
                assert(middlewares1[j].leave(name, c, o) == middlewares2[j].leave(name, c, o));
            }
        }
        lemma_wrapped_agree(inner1, inner2, event1, event2, entered.0);
        let inner = wrapped(inner1, event1, entered.0);
        assert(middlewares1[last].leave(name, inner.0, inner.1) == middlewares2[last].leave(
            name,
            inner.0,
            inner.1,
        ));
    } else {
        assert(event1.effect(context) == event2.effect(context));
    }
}

/// The two stacks have the same height, and at each level the two middleware enter
/// and leave alike.
pub open spec fn middlewares_alike<M1: EventMiddleware, M2: EventMiddleware>(
    middlewares1: Seq<M1>,
    middlewares2: Seq<M2>,
) -> bool {
    &&& middlewares1.len() == middlewares2.len()
    &&& forall|j: int, name: Seq<char>, c: ContextView|
        0 <= j < middlewares1.len() ==> (#[trigger] middlewares1[j].enter(name, c))
            == middlewares2[j].enter(name, c)
    &&& forall|j: int, name: Seq<char>, c: ContextView, o: Outcome|
        0 <= j < middlewares1.len() ==> (#[trigger] middlewares1[j].leave(name, c, o))
            == middlewares2[j].leave(name, c, o)
}

/// The two lists have the same length, and at each place the two events carry the
/// same name and act alike.
pub open spec fn events_alike<E1: ChainableEvent, E2: ChainableEvent>(
    events1: Seq<E1>,
    events2: Seq<E2>,
) -> bool {
    &&& events1.len() == events2.len()
    &&& forall|i: int| 0 <= i < events1.len() ==> (#[trigger] events1[i].label()) == events2[i].label()
    &&& forall|i: int, c: ContextView|
        0 <= i < events1.len() ==> (#[trigger] events1[i].effect(c)) == events2[i].effect(c)
}

/// Determinism: a run is decided by what its events and middleware do, by the mode
/// and by the store it starts from. Two runs that agree in these leave the same
/// store and report the same outcome.
pub proof fn lemma_runs_agree<
    E1: ChainableEvent,
    E2: ChainableEvent,
    M1: EventMiddleware,
    M2: EventMiddleware,
>(
    events1: Seq<E1>,
    events2: Seq<E2>,
    middlewares1: Seq<M1>,
    middlewares2: Seq<M2>,
    mode: FaultToleranceMode,
    context: ContextView,
    count: nat,
)
    requires
        events_alike(events1, events2),
        middlewares_alike(middlewares1, middlewares2),
    ensures
        run_prefix(events1, middlewares1, mode, context, count) == run_prefix(
            events2,
            middlewares2,
            mode,
            context,
            count,
        ),
        count == events1.len() ==> run_chain(events1, middlewares1, mode, context) == run_chain(
            events2,
            middlewares2,
            mode,
            context,
        ) && report(run_chain(events1, middlewares1, mode, context)) == report(
            run_chain(events2, middlewares2, mode, context),
        ),
    decreases count,
{
    if count > 0 {
        lemma_runs_agree(
            events1,
            events2,
            middlewares1,
            middlewares2,
            mode,
            context,
            (count - 1) as nat,
        );
        let before = run_prefix(events1, middlewares1, mode, context, (count - 1) as nat);
        if !before.aborted && count <= events1.len() {
            let i = count - 1;
            assert(events1[i].label() == events2[i].label());
            assert forall|c: ContextView| #[trigger] events1[i].effect(c) == events2[i].effect(
                c,
            ) by {}
            lemma_wrapped_agree(
                middlewares1,
                middlewares2,
                events1[i],
                events2[i],
                before.context,
            );
        }
    }
}

impl<E: ChainableEvent, M: EventMiddleware> Default for EventChain<E, M> {
    fn default() -> (chain: Self)
        ensures
            chain.events() == Seq::<E>::empty(),
            chain.middlewares() == Seq::<M>::empty(),
            chain.mode() == FaultToleranceMode::Strict,
    {
        EventChain::new()
    }
}

} // verus!
