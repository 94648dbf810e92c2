use eventchains::context::{ContextValue, ContextView, EventContext, EventResult, LogLine, Outcome};
use eventchains::text::Characters;
use eventchains::eventchains::{
    ChainableEvent, ChainResult, ChainStatus, EventChain, EventFailure, EventMiddleware,
    FaultToleranceMode, Flow,
};

struct Mark {
    name: &'static str,
    fails: bool,
}

impl ChainableEvent for Mark {
    fn label(&self) -> Characters {
        unreachable!()
    }

    fn effect(&self, _context: ContextView) -> (ContextView, Outcome) {
        unreachable!()
    }

    fn execute(&self, context: &mut EventContext) -> EventResult<()> {
        context.log(LogLine::Text(format!("{} runs", self.name)));
        if self.fails {
            EventResult::Failure(format!("{} broke", self.name))
        } else {
            EventResult::Success(())
        }
    }

    fn name(&self) -> &str {
        self.name
    }
}

struct Trace {
    label: &'static str,
    cut: bool,
}

impl EventMiddleware for Trace {
    fn enter(&self, _event: Characters, _context: ContextView) -> (ContextView, Option<Outcome>) {
        unreachable!()
    }

    fn leave(
        &self,
        _event: Characters,
        _context: ContextView,
        _outcome: Outcome,
    ) -> (ContextView, Outcome) {
        unreachable!()
    }

    fn before(&self, _event: &str, context: &mut EventContext) -> Flow {
        context.log(LogLine::Text(format!("{}-before", self.label)));
        if self.cut {
            Flow::ShortCircuit(EventResult::Failure(format!("{} cut", self.label)))
        } else {
            Flow::Proceed
        }
    }

    fn after(
        &self,
        _event: &str,
        context: &mut EventContext,
        result: EventResult<()>,
    ) -> EventResult<()> {
        context.log(LogLine::Text(format!("{}-after", self.label)));
        result
    }
}

fn lines(context: &EventContext) -> Vec<String> {
    match context.get_log() {
        Some(lines) => lines
            .iter()
            .map(|line| match line {
                LogLine::Text(text) => text.clone(),
                LogLine::Took(event, _) => format!("took {}", event),
            })
            .collect(),
        None => Vec::new(),
    }
}

fn names(result: &ChainResult) -> Vec<(String, String)> {
    result
        .failures
        .iter()
        .map(|f| (f.event_name.clone(), f.error_message.clone()))
        .collect()
}

#[test]
fn middleware_nests_last_registered_outermost() {
    let mut chain: EventChain<Mark, Trace> = EventChain::new();
    chain.use_middleware(Trace { label: "A", cut: false });
    chain.use_middleware(Trace { label: "B", cut: false });
    chain.use_middleware(Trace { label: "C", cut: false });
    chain.add_event(Mark { name: "event", fails: false });
    let mut context = EventContext::new();
    let result = chain.execute(&mut context);
    assert!(result.success);
    assert_eq!(
        lines(&context),
        vec![
            "C-before", "B-before", "A-before", "event runs", "A-after", "B-after", "C-after"
        ]
    );
}

#[test]
fn short_circuit_skips_inner_middleware_and_event() {
    let mut chain: EventChain<Mark, Trace> = EventChain::new();
    chain.use_middleware(Trace { label: "A", cut: false });
    chain.use_middleware(Trace { label: "B", cut: true });
    chain.use_middleware(Trace { label: "C", cut: false });
    chain.add_event(Mark { name: "event", fails: false });
    let mut context = EventContext::new();
    let result = chain.execute(&mut context);
    assert!(!result.success);
    assert_eq!(lines(&context), vec!["C-before", "B-before", "C-after"]);
    assert_eq!(names(&result), vec![("event".to_string(), "B cut".to_string())]);
}

#[test]
fn strict_stops_at_first_failure() {
    let mut chain: EventChain<Mark, Trace> = EventChain::new();
    chain.add_event(Mark { name: "one", fails: false });
    chain.add_event(Mark { name: "two", fails: true });
    chain.add_event(Mark { name: "three", fails: false });
    let mut context = EventContext::new();
    let result = chain.execute(&mut context);
    assert!(!result.success);
    assert_eq!(result.status, ChainStatus::Failed);
    assert_eq!(names(&result), vec![("two".to_string(), "two broke".to_string())]);
    assert_eq!(lines(&context), vec!["one runs", "two runs"]);
}

#[test]
fn lenient_runs_every_event_and_keeps_failures_in_order() {
    let mut chain: EventChain<Mark, Trace> =
        EventChain::new().with_fault_tolerance(FaultToleranceMode::Lenient);
    chain.add_event(Mark { name: "one", fails: true });
    chain.add_event(Mark { name: "two", fails: false });
    chain.add_event(Mark { name: "three", fails: true });
    let mut context = EventContext::new();
    let result = chain.execute(&mut context);
    assert!(result.success);
    assert_eq!(result.status, ChainStatus::CompletedWithWarnings);
    assert_eq!(
        names(&result),
        vec![
            ("one".to_string(), "one broke".to_string()),
            ("three".to_string(), "three broke".to_string())
        ]
    );
    assert_eq!(lines(&context), vec!["one runs", "two runs", "three runs"]);
}

#[test]
fn best_effort_goes_on_like_lenient() {
    let mut chain: EventChain<Mark, Trace> =
        EventChain::new().with_fault_tolerance(FaultToleranceMode::BestEffort);
    chain.add_event(Mark { name: "one", fails: true });
    chain.add_event(Mark { name: "two", fails: false });
    let mut context = EventContext::new();
    let result = chain.execute(&mut context);
    assert!(result.success);
    assert_eq!(result.status, ChainStatus::CompletedWithWarnings);
    assert_eq!(lines(&context), vec!["one runs", "two runs"]);
}

#[test]
fn run_without_failures_is_completed() {
    let mut chain: EventChain<Mark, Trace> = EventChain::new();
    chain.add_event(Mark { name: "one", fails: false });
    let mut context = EventContext::new();
    let result = chain.execute(&mut context);
    assert!(result.success);
    assert_eq!(result.status, ChainStatus::Completed);
    assert!(result.failures.is_empty());
}

#[test]
fn empty_chain_is_completed() {
    let chain: EventChain<Mark, Trace> = EventChain::new();
    let mut context = EventContext::new();
    let result = chain.execute(&mut context);
    assert!(result.success);
    assert_eq!(result.status, ChainStatus::Completed);
}

#[test]
fn two_runs_give_the_same_outcome() {
    let run = || {
        let mut chain: EventChain<Mark, Trace> =
            EventChain::new().with_fault_tolerance(FaultToleranceMode::Lenient);
        chain.use_middleware(Trace { label: "A", cut: false });
        chain.add_event(Mark { name: "one", fails: true });
        chain.add_event(Mark { name: "two", fails: false });
        let mut context = EventContext::new();
        let result = chain.execute(&mut context);
        (result.success, result.status, names(&result), lines(&context))
    };
    assert_eq!(run(), run());
}

#[test]
fn result_constructors_set_flag_and_status() {
    let ok = ChainResult::success();
    assert!(ok.success && ok.failures.is_empty());
    assert_eq!(ok.status, ChainStatus::Completed);
    let failure = EventFailure::at("e".to_string(), "m".to_string(), 7);
    assert_eq!(failure.timestamp, 7);
    let partial = ChainResult::partial_success(vec![failure.clone()]);
    assert!(partial.success);
    assert_eq!(partial.status, ChainStatus::CompletedWithWarnings);
    let failed = ChainResult::failure(vec![failure]);
    assert!(!failed.success);
    assert_eq!(failed.status, ChainStatus::Failed);
    assert_eq!(failed.failures[0].event_name, "e");
    assert_eq!(failed.failures[0].error_message, "m");
}

#[test]
fn failure_record_is_stamped() {
    let failure = EventFailure::new("event".to_string(), "message".to_string());
    assert_eq!(failure.event_name, "event");
    assert_eq!(failure.error_message, "message");
    assert!(failure.timestamp > 1_600_000_000);
}

#[test]
fn status_is_shown_in_capitals() {
    assert_eq!(ChainStatus::Completed.to_string(), "COMPLETED");
    assert_eq!(ChainStatus::CompletedWithWarnings.to_string(), "COMPLETED_WITH_WARNINGS");
    assert_eq!(ChainStatus::Failed.to_string(), "FAILED");
}

#[test]
fn event_result_accessors() {
    let ok: EventResult<u32> = EventResult::Success(5);
    assert!(ok.is_success());
    assert!(!ok.is_failure());
    assert_eq!(ok.get_error(), None);
    assert_eq!(ok.get_data(), Some(5));
    let bad: EventResult<u32> = EventResult::Failure("no".to_string());
    assert!(bad.is_failure());
    assert!(!bad.is_success());
    assert_eq!(bad.get_error(), Some("no"));
    assert_eq!(bad.get_data(), None);
}

#[test]
fn store_set_get_take_has() {
    let mut context = EventContext::new();
    assert!(!context.has("n"));
    assert!(context.get("n").is_none());
    context.set("n", ContextValue::Count(3));
    assert!(context.has("n"));
    assert_eq!(context.get_count("n"), Some(3));
    context.set("n", ContextValue::Count(4));
    assert_eq!(context.get_count("n"), Some(4));
    context.set("m", ContextValue::Count(9));
    assert_eq!(context.get_count("n"), Some(4));
    assert_eq!(context.get_count("m"), Some(9));
    assert!(matches!(context.take("n"), Some(ContextValue::Count(4))));
    assert!(!context.has("n"));
    assert!(context.take("n").is_none());
    assert_eq!(context.get_count("m"), Some(9));
}

#[test]
fn reading_another_kind_is_absent() {
    let mut context = EventContext::new();
    context.set("state", ContextValue::Count(1));
    assert!(context.has("state"));
    assert!(context.get_state().is_none());
    assert!(context.take_state().is_none());
    assert!(context.has("state"));
    context.set("n", ContextValue::Timing(5));
    assert_eq!(context.get_count("n"), None);
    assert_eq!(context.get_timing("n"), Some(5));
}

#[test]
fn builders_hand_the_chain_back() {
    let mut chain: EventChain<Mark, Trace> = EventChain::default();
    chain
        .use_middleware(Trace { label: "A", cut: false })
        .use_middleware(Trace { label: "B", cut: false });
    chain
        .add_event(Mark { name: "one", fails: false })
        .add_event(Mark { name: "two", fails: false });
    let mut context = EventContext::default();
    let result = chain.execute(&mut context);
    assert!(result.success);
    assert_eq!(
        lines(&context),
        vec![
            "B-before", "A-before", "one runs", "A-after", "B-after", "B-before", "A-before",
            "two runs", "A-after", "B-after"
        ]
    );
}
