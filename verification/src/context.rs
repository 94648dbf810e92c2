use vstd::prelude::*;
use std::sync::Arc;
use crate::graph::{
    DijkstraState, Edge, Graph, NodeId, QueueNode, ResultView, ShortestPathResult, StateView,
};
use crate::queue::PriorityQueue;
use crate::search::{
    exhaust, fits, relax_neighbors, run_to_exhaustion, state_fits, step, visit, Search,
};
use crate::text::{same_text, text};

verus! {

/// Result of an event execution.
#[derive(Debug, Clone)]
pub enum EventResult<T> {
    Success(T),
    Failure(String),
}

/// How an event ended, as plain data: with success, or with a failure and its message.
pub enum Outcome {
    Success,
    Failure(Seq<char>),
}

impl View for EventResult<()> {
    type V = Outcome;

    open spec fn view(&self) -> Outcome {
        match self {
            EventResult::Success(_) => Outcome::Success,
            EventResult::Failure(message) => Outcome::Failure(message@),
        }
    }
}

impl<T> EventResult<T> {
    pub fn is_success(&self) -> (r: bool)
        ensures
            r == (self is Success),
    {
        match self {
            EventResult::Success(_) => true,
            EventResult::Failure(_) => false,
        }
    }

    pub fn is_failure(&self) -> (r: bool)
        ensures
            r == (self is Failure),
    {
        match self {
            EventResult::Success(_) => false,
            EventResult::Failure(_) => true,
        }
    }

    /// The data of a success; nothing for a failure.
    pub fn get_data(self) -> (r: Option<T>)
        ensures
            r == match self {
                EventResult::Success(data) => Some(data),
                EventResult::Failure(_) => None,
            },
    {
        match self {
            EventResult::Success(data) => Some(data),
            EventResult::Failure(_) => None,
        }
    }

    /// The message of a failure; nothing for a success.
    pub fn get_error(&self) -> (r: Option<&str>)
        ensures
            match self {
                EventResult::Success(_) => r.is_none(),
                EventResult::Failure(message) => r.is_some() && r.unwrap()@ == message@,
            },
    {
        match self {
            EventResult::Success(_) => None,
            EventResult::Failure(message) => Some(message.as_str()),
        }
    }
}

/// A line of the log that middleware keeps in the store.
#[derive(Debug, Clone)]
pub enum LogLine {
    /// A line of text.
    Text(String),
    /// The named event took this many microseconds.
    Took(String, u64),
}

/// A line of the log as plain data. What a clock measured is left out.
pub enum LineView {
    Text(Seq<char>),
    Took(Seq<char>),
}

impl View for LogLine {
    type V = LineView;

    open spec fn view(&self) -> LineView {
        match self {
            LogLine::Text(line) => LineView::Text(line@),
            LogLine::Took(event, _) => LineView::Took(event@),
        }
    }
}

/// A value of the store, tagged with its kind.
#[derive(Debug)]
pub enum ContextValue {
    Graph(Arc<Graph>),
    State(DijkstraState),
    Queue(PriorityQueue),
    Node(NodeId),
    Result(ShortestPathResult),
    Count(u64),
    /// A reading or a difference of readings of a clock, in nanoseconds.
    Timing(u64),
    Log(Vec<LogLine>),
}

/// A stored value as plain data. What a clock measured is left out.
pub enum ValueView {
    Graph(Seq<Seq<Edge>>),
    State(StateView),
    Queue(Seq<QueueNode>),
    Node(NodeId),
    Result(ResultView),
    Count(u64),
    Timing,
    Log(Seq<LineView>),
}

/// The lines as plain data.
pub open spec fn line_views(lines: Seq<LogLine>) -> Seq<LineView> {
    Seq::new(lines.len(), |i: int| lines[i]@)
}

impl View for ContextValue {
    type V = ValueView;

    open spec fn view(&self) -> ValueView {
        match self {
            ContextValue::Graph(g) => ValueView::Graph(g@),
            ContextValue::State(s) => ValueView::State(s@),
            ContextValue::Queue(q) => ValueView::Queue(q@),
            ContextValue::Node(n) => ValueView::Node(*n),
            ContextValue::Result(r) => ValueView::Result(r@),
            ContextValue::Count(c) => ValueView::Count(*c),
            ContextValue::Timing(_) => ValueView::Timing,
            ContextValue::Log(lines) => ValueView::Log(line_views(lines@)),
        }
    }
}

/// The store as plain data: each key with the value held under it.
pub type ContextView = Map<Seq<char>, ValueView>;

/// The key under which the graph is held.
pub open spec fn key_graph() -> Seq<char> {
    "graph"@
}

/// The key under which the working state is held.
pub open spec fn key_state() -> Seq<char> {
    "state"@
}

/// The key under which the source node is held.
pub open spec fn key_source() -> Seq<char> {
    "source"@
}

/// The key under which the result is held.
pub open spec fn key_result() -> Seq<char> {
    "result"@
}

/// The key under which the priority queue is held.
pub open spec fn key_queue() -> Seq<char> {
    "queue"@
}

/// The key under which middleware keeps its log.
pub open spec fn key_log() -> Seq<char> {
    "log"@
}

/// The lines of the log that the store holds; none where it holds no log.
pub open spec fn lines_in(c: ContextView) -> Seq<LineView> {
    if c.contains_key(key_log()) {
        match c[key_log()] {
            ValueView::Log(lines) => lines,
            _ => Seq::empty(),
        }
    } else {
        Seq::empty()
    }
}

/// The store with `line` added to its log.
pub open spec fn logged(c: ContextView, line: LineView) -> ContextView {
    c.insert(key_log(), ValueView::Log(lines_in(c).push(line)))
}

/// The count that the store holds under `key`, absent also where the key holds
/// another kind.
pub open spec fn count_in(c: ContextView, key: Seq<char>) -> Option<u64> {
    if c.contains_key(key) {
        match c[key] {
            ValueView::Count(n) => Some(n),
            _ => None,
        }
    } else {
        None
    }
}

/// The five keys of the shortest-path pipeline differ from one another.
pub proof fn lemma_keys_differ()
    ensures
        key_graph() != key_state(),
        key_graph() != key_source(),
        key_graph() != key_result(),
        key_graph() != key_queue(),
        key_state() != key_source(),
        key_state() != key_result(),
        key_state() != key_queue(),
        key_source() != key_result(),
        key_source() != key_queue(),
        key_result() != key_queue(),
{
    reveal_strlit("graph");
    reveal_strlit("state");
    reveal_strlit("source");
    reveal_strlit("result");
    reveal_strlit("queue");
    assert("graph"@[0] == 'g');
    assert("state"@[0] == 's');
    assert("source"@[1] == 'o');
    assert("state"@[1] == 't');
    assert("result"@[0] == 'r');
    assert("queue"@[0] == 'q');
    assert("source"@[0] == 's');
}

/// The graph that the store holds, absent also where the key holds another kind.
pub open spec fn graph_in(c: ContextView) -> Option<Seq<Seq<Edge>>> {
    if c.contains_key(key_graph()) {
        match c[key_graph()] {
            ValueView::Graph(g) => Some(g),
            _ => None,
        }
    } else {
        None
    }
}

/// The working state that the store holds.
pub open spec fn state_in(c: ContextView) -> Option<StateView> {
    if c.contains_key(key_state()) {
        match c[key_state()] {
            ValueView::State(s) => Some(s),
            _ => None,
        }
    } else {
        None
    }
}

/// The source node that the store holds.
pub open spec fn source_in(c: ContextView) -> Option<NodeId> {
    if c.contains_key(key_source()) {
        match c[key_source()] {
            ValueView::Node(n) => Some(n),
            _ => None,
        }
    } else {
        None
    }
}

/// The result that the store holds.
pub open spec fn result_in(c: ContextView) -> Option<ResultView> {
    if c.contains_key(key_result()) {
        match c[key_result()] {
            ValueView::Result(r) => Some(r),
            _ => None,
        }
    } else {
        None
    }
}

/// The queue entries that the store holds.
pub open spec fn queue_in(c: ContextView) -> Option<Seq<QueueNode>> {
    if c.contains_key(key_queue()) {
        match c[key_queue()] {
            ValueView::Queue(q) => Some(q),
            _ => None,
        }
    } else {
        None
    }
}

/// The store after the first entry of its queue has left it.
pub open spec fn after_pop(c: ContextView) -> ContextView {
    match queue_in(c) {
        Some(q) => if q.len() > 0 {
            c.insert(key_queue(), ValueView::Queue(q.drop_last()))
        } else {
            c
        },
        None => c,
    }
}

/// The entry that leaves the queue of the store first, if there is one.
pub open spec fn next_entry(c: ContextView) -> Option<QueueNode> {
    match queue_in(c) {
        Some(q) => if q.len() > 0 {
            Some(q.last())
        } else {
            None
        },
        None => None,
    }
}

/// What processing the entry `e` does to the store and how it ends: it fails where
/// state, queue or graph is missing, in that order, or where the state is not of the
/// graph's size; otherwise state and queue are replaced by what the visit leaves.
pub open spec fn process_entry(c: ContextView, e: QueueNode) -> (ContextView, Outcome) {
    match (state_in(c), queue_in(c), graph_in(c)) {
        (None, _, _) => (c, Outcome::Failure("State not found in context"@)),
        (Some(_), None, _) => (c, Outcome::Failure("Queue not found in context"@)),
        (Some(_), Some(_), None) => (c, Outcome::Failure("Graph not found in context"@)),
        (Some(state), Some(queue), Some(graph)) => if state_fits(state, graph.len()) {
            (with_search(c, visit(graph, Search { state, queue }, e)), Outcome::Success)
        } else {
            (c, Outcome::Failure("State does not match the graph"@))
        },
    }
}

/// The store with the state and the queue of `s` in place of its own.
pub open spec fn with_search(c: ContextView, s: Search) -> ContextView {
    c.insert(key_state(), ValueView::State(s.state)).insert(key_queue(), ValueView::Queue(s.queue))
}

/// What one pop does to the store and how it ends: it fails where state, queue or
/// graph is missing, in that order, or where the state is not of the graph's size;
/// otherwise the entry that leaves first is processed. An empty queue is no failure.
pub open spec fn process_next(c: ContextView) -> (ContextView, Outcome) {
    match (state_in(c), queue_in(c), graph_in(c)) {
        (None, _, _) => (c, Outcome::Failure("State not found in context"@)),
        (Some(_), None, _) => (c, Outcome::Failure("Queue not found in context"@)),
        (Some(_), Some(_), None) => (c, Outcome::Failure("Graph not found in context"@)),
        (Some(state), Some(queue), Some(graph)) => if state_fits(state, graph.len()) {
            (with_search(c, step(graph, Search { state, queue })), Outcome::Success)
        } else {
            (c, Outcome::Failure("State does not match the graph"@))
        },
    }
}

/// What popping to exhaustion does to the store and how it ends: it fails where
/// queue, state or graph is missing, in that order, or where the state is not of the
/// graph's size; otherwise state and queue are what is left when the queue is empty.
pub open spec fn process_all(c: ContextView) -> (ContextView, Outcome) {
    match (queue_in(c), state_in(c), graph_in(c)) {
        (None, _, _) => (c, Outcome::Failure("Queue not found"@)),
        (Some(_), None, _) => (c, Outcome::Failure("State not found"@)),
        (Some(_), Some(_), None) => (c, Outcome::Failure("Graph not found"@)),
        (Some(queue), Some(state), Some(graph)) => if state_fits(state, graph.len()) {
            (with_search(c, exhaust(graph, Search { state, queue })), Outcome::Success)
        } else {
            (c, Outcome::Failure("State does not match the graph"@))
        },
    }
}

struct Entry {
    key: String,
    value: ContextValue,
}

/// Where `key` stands in `entries`, if anywhere.
spec fn position(entries: Seq<Entry>, key: Seq<char>) -> int {
    choose|i: int| 0 <= i < entries.len() && entries[i].key@ == key
}

spec fn holds(entries: Seq<Entry>, key: Seq<char>) -> bool {
    exists|i: int| 0 <= i < entries.len() && entries[i].key@ == key
}

spec fn distinct_keys(entries: Seq<Entry>) -> bool {
    forall|i: int, j: int|
        0 <= i < entries.len() && 0 <= j < entries.len() && entries[i].key@ == entries[j].key@
            ==> i == j
}

spec fn store_of(entries: Seq<Entry>) -> ContextView {
    Map::new(|k: Seq<char>| holds(entries, k), |k: Seq<char>| entries[position(entries, k)].value@)
}

/// The keyed store that flows through a chain run: the one channel between events
/// and middleware. A key holds at most one value at a time.
///
/// Values are tagged with their kind, one of the closed set of `ContextValue`, so
/// that events written apart can share the store and new keys can be added freely.
/// A reader names the kind it wants: under a key that is free or holds another kind
/// it finds nothing, which is a miss and no failure. The five values of the
/// shortest-path pipeline have keys of their own and accessors to match.
pub struct EventContext {
    entries: Vec<Entry>,
}

impl View for EventContext {
    type V = ContextView;

    closed spec fn view(&self) -> ContextView {
        store_of(self.entries@)
    }
}

impl EventContext {
    #[verifier::type_invariant]
    closed spec fn keys_are_distinct(&self) -> bool {
        distinct_keys(self.entries@)
    }

    /// The empty store.
    pub fn new() -> (c: EventContext)
        ensures
            c@ == Map::<Seq<char>, ValueView>::empty(),
    {
        let c = EventContext { entries: Vec::new() };
        assert(c@ =~= Map::<Seq<char>, ValueView>::empty());
        c
    }

    fn find(&self, key: &str) -> (r: Option<usize>)
        ensures
            r.is_some() == holds(self.entries@, key@),
            r matches Some(i) ==> i < self.entries@.len() && self.entries@[i as int].key@ == key@
                && i == position(self.entries@, key@),
    {
        proof {
            use_type_invariant(self);
        }
        let mut i: usize = 0;
        while i < self.entries.len()
            invariant
                i <= self.entries.len(),
                distinct_keys(self.entries@),
                forall|k: int| 0 <= k < i ==> self.entries@[k].key@ != key@,
            decreases self.entries.len() - i,
        {
            if same_text(self.entries[i].key.as_str(), key) {
                return Some(i);
            }
            i = i + 1;
        }
        None
    }

    /// Whether a value is held under `key`, whatever its kind.
    pub fn has(&self, key: &str) -> (r: bool)
        ensures
            r == self@.contains_key(key@),
    {
        self.find(key).is_some()
    }

    /// The value held under `key`, if any.
    pub fn get(&self, key: &str) -> (r: Option<&ContextValue>)
        ensures
            r.is_some() == self@.contains_key(key@),
            r matches Some(v) ==> v@ == self@[key@],
    {
        match self.find(key) {
            Some(i) => Some(&self.entries[i].value),
            None => None,
        }
    }

    /// Holds `value` under `key`, in place of whatever was held there.
    pub fn set(&mut self, key: &str, value: ContextValue)
        ensures
            final(self)@ == old(self)@.insert(key@, value@),
    {
        proof {
            use_type_invariant(&*self);
        }
        let found = self.find(key);
        let mut held = EventContext { entries: Vec::new() };
        std::mem::swap(self, &mut held);
        let mut entries = held.entries;
        let ghost before = entries@;
        match found {
            Some(i) => {
                let k = text(key);
                entries[i] = Entry { key: k, value };
                proof {
                    let after = entries@;
                    assert(distinct_keys(after)) by {
                        assert forall|a: int, b: int|
                            0 <= a < after.len() && 0 <= b < after.len() && after[a].key@
                                == after[b].key@ implies a == b by {
                            assert(before[a].key@ == after[a].key@);
                            assert(before[b].key@ == after[b].key@);
                        }
                    }
                    assert forall|k2: Seq<char>| holds(after, k2) == holds(before, k2) by {
                        if holds(before, k2) {
                            let a = position(before, k2);
                            assert(after[a].key@ == k2);
                        }
                        if holds(after, k2) {
                            let a = position(after, k2);
                            assert(before[a].key@ == k2);
                        }
                    }
                    assert forall|k2: Seq<char>| holds(after, k2) implies #[trigger] store_of(
                        after,
                    )[k2] == store_of(before).insert(key@, value@)[k2] by {
                        let a = position(after, k2);
                        let b = position(before, k2);
                        assert(before[a].key@ == k2);
                        assert(a == b);
                    }
                    assert(store_of(after) =~= store_of(before).insert(key@, value@));
                }
            },
            None => {
                let k = text(key);
                entries.push(Entry { key: k, value });
                proof {
                    let after = entries@;
                    let last = after.len() - 1;
                    assert(distinct_keys(after)) by {
                        assert forall|a: int, b: int|
                            0 <= a < after.len() && 0 <= b < after.len() && after[a].key@
                                == after[b].key@ implies a == b by {
                            if a < last {
                                assert(before[a].key@ == after[a].key@);
                            }
                            if b < last {
                                assert(before[b].key@ == after[b].key@);
                            }
                        }
                    }
                    assert(after[last].key@ == key@);
                    assert forall|k2: Seq<char>| holds(after, k2) == (holds(before, k2) || k2
                        == key@) by {
                        if holds(before, k2) {
                            let a = position(before, k2);
                            assert(after[a].key@ == k2);
                        }
                        if holds(after, k2) {
                            let a = position(after, k2);
                            if a < last {
                                assert(before[a].key@ == k2);
                            }
                        }
                    }
                    assert forall|k2: Seq<char>| holds(after, k2) implies #[trigger] store_of(
                        after,
                    )[k2] == store_of(before).insert(key@, value@)[k2] by {
                        let a = position(after, k2);
                        if k2 != key@ {
                            let b = position(before, k2);
                            assert(after[b].key@ == k2);
                            assert(a == b);
                        } else {
                            assert(a == last);
                        }
                    }
                    assert(store_of(after) =~= store_of(before).insert(key@, value@));
                }
            },
        }
        *self = EventContext { entries };
    }

    /// Removes and returns the value held under `key`, if any.
    pub fn take(&mut self, key: &str) -> (r: Option<ContextValue>)
        ensures
            r.is_some() == old(self)@.contains_key(key@),
            r matches Some(v) ==> v@ == old(self)@[key@],
            final(self)@ == old(self)@.remove(key@),
    {
        proof {
            use_type_invariant(&*self);
        }
        match self.find(key) {
            Some(i) => {
                let mut held = EventContext { entries: Vec::new() };
                std::mem::swap(self, &mut held);
                let mut entries = held.entries;
                let ghost before = entries@;
                let entry = entries.remove(i);
                proof {
                    let after = entries@;
                    assert forall|a: int| 0 <= a < after.len() implies after[a] == before[if a
                        < i {
                        a
                    } else {
                        a + 1
                    }] by {}
                    assert(distinct_keys(after)) by {
                        assert forall|a: int, b: int|
                            0 <= a < after.len() && 0 <= b < after.len() && after[a].key@
                                == after[b].key@ implies a == b by {
                            let a2 = if a < i { a } else { a + 1 };
                            let b2 = if b < i { b } else { b + 1 };
                            assert(before[a2].key@ == before[b2].key@);
                        }
                    }
                    assert forall|k2: Seq<char>| holds(after, k2) == (holds(before, k2) && k2
                        != key@) by {
                        if holds(before, k2) && k2 != key@ {
                            let b = position(before, k2);
                            let a = if b < i { b } else { b - 1 };
                            assert(after[a].key@ == k2);
                        }
                        if holds(after, k2) {
                            let a = position(after, k2);
                            let a2 = if a < i { a } else { a + 1 };
                            assert(before[a2].key@ == k2);
                        }
                    }
                    assert forall|k2: Seq<char>| holds(after, k2) implies #[trigger] store_of(
                        after,
                    )[k2] == store_of(before)[k2] by {
                        let a = position(after, k2);
                        let a2 = if a < i { a } else { a + 1 };
                        assert(before[a2].key@ == k2);
                        assert(position(before, k2) == a2);
                    }
                    assert(store_of(after) =~= store_of(before).remove(key@));
                }
                *self = EventContext { entries };
                Some(entry.value)
            },
            None => {
                assert(self@ =~= self@.remove(key@));
                None
            },
        }
    }

    /// The count held under `key`; none where the key is free or holds another kind.
    pub fn get_count(&self, key: &str) -> (r: Option<u64>)
        ensures
            r == count_in(self@, key@),
    {
        match self.get(key) {
            Some(ContextValue::Count(n)) => Some(*n),
            _ => None,
        }
    }

    /// A clock reading held under `key`; none where the key is free or holds another
    /// kind. Nothing is claimed of the number.
    pub fn get_timing(&self, key: &str) -> (r: Option<u64>)
        ensures
            r.is_some() == (self@.contains_key(key@) && self@[key@] is Timing),
    {
        match self.get(key) {
            Some(ContextValue::Timing(n)) => Some(*n),
            _ => None,
        }
    }

    /// Adds `line` to the log held in the store; a store without log gets one.
    pub fn log(&mut self, line: LogLine)
        ensures
            final(self)@ == logged(old(self)@, line@),
    {
        let mut lines = match self.take("log") {
            Some(ContextValue::Log(lines)) => lines,
            _ => Vec::new(),
        };
        let ghost before = line_views(lines@);
        assert(before =~= lines_in(old(self)@));
        lines.push(line);
        assert(line_views(lines@) =~= before.push(line@));
        self.set("log", ContextValue::Log(lines));
        assert(self@ =~= logged(old(self)@, line@));
    }

    /// The log held in the store; none where its key is free or holds another kind.
    pub fn get_log(&self) -> (r: Option<&Vec<LogLine>>)
        ensures
            r.is_some() == (self@.contains_key(key_log()) && self@[key_log()] is Log),
            r matches Some(lines) ==> line_views(lines@) == lines_in(self@),
    {
        match self.get("log") {
            Some(ContextValue::Log(lines)) => Some(lines),
            _ => None,
        }
    }

    pub fn set_graph(&mut self, graph: Arc<Graph>)
        ensures
            final(self)@ == old(self)@.insert(key_graph(), ValueView::Graph(graph@)),
    {
        self.set("graph", ContextValue::Graph(graph));
    }

    /// The graph held under its key; none where the key is free or holds another kind.
    pub fn get_graph(&self) -> (r: Option<&Arc<Graph>>)
        ensures
            r.is_some() == graph_in(self@).is_some(),
            r matches Some(g) ==> graph_in(self@) == Some(g@),
    {
        match self.get("graph") {
            Some(ContextValue::Graph(g)) => Some(g),
            _ => None,
        }
    }

    pub fn set_state(&mut self, state: DijkstraState)
        ensures
            final(self)@ == old(self)@.insert(key_state(), ValueView::State(state@)),
    {
        self.set("state", ContextValue::State(state));
    }

    /// The working state held under its key; none where the key is free or holds
    /// another kind.
    pub fn get_state(&self) -> (r: Option<&DijkstraState>)
        ensures
            r.is_some() == state_in(self@).is_some(),
            r matches Some(s) ==> state_in(self@) == Some(s@),
    {
        match self.get("state") {
            Some(ContextValue::State(s)) => Some(s),
            _ => None,
        }
    }

    pub fn set_source(&mut self, source: NodeId)
        ensures
            final(self)@ == old(self)@.insert(key_source(), ValueView::Node(source)),
    {
        self.set("source", ContextValue::Node(source));
    }

    /// The source held under its key; none where the key is free or holds another kind.
    pub fn get_source(&self) -> (r: Option<&NodeId>)
        ensures
            r.is_some() == source_in(self@).is_some(),
            r matches Some(n) ==> source_in(self@) == Some(*n),
    {
        match self.get("source") {
            Some(ContextValue::Node(n)) => Some(n),
            _ => None,
        }
    }

    pub fn set_result(&mut self, result: ShortestPathResult)
        ensures
            final(self)@ == old(self)@.insert(key_result(), ValueView::Result(result@)),
    {
        self.set("result", ContextValue::Result(result));
    }

    /// The result held under its key; none where the key is free or holds another kind.
    pub fn get_result(&self) -> (r: Option<&ShortestPathResult>)
        ensures
            r.is_some() == result_in(self@).is_some(),
            r matches Some(p) ==> result_in(self@) == Some(p@),
    {
        match self.get("result") {
            Some(ContextValue::Result(p)) => Some(p),
            _ => None,
        }
    }

    pub fn set_queue(&mut self, queue: PriorityQueue)
        ensures
            final(self)@ == old(self)@.insert(key_queue(), ValueView::Queue(queue@)),
    {
        self.set("queue", ContextValue::Queue(queue));
    }

    /// Takes the working state out of the store; where its key holds another kind,
    /// nothing is removed.
    pub fn take_state(&mut self) -> (r: Option<DijkstraState>)
        ensures
            r.is_some() == state_in(old(self)@).is_some(),
            r matches Some(s) ==> state_in(old(self)@) == Some(s@),
            final(self)@ == if r.is_some() {
                old(self)@.remove(key_state())
            } else {
                old(self)@
            },
    {
        if self.get_state().is_none() {
            return None;
        }
        match self.take("state") {
            Some(ContextValue::State(s)) => Some(s),
            _ => None,
        }
    }

    /// Takes the result out of the store; where its key holds another kind, nothing is
    /// removed.
    pub fn take_result(&mut self) -> (r: Option<ShortestPathResult>)
        ensures
            r.is_some() == result_in(old(self)@).is_some(),
            r matches Some(p) ==> result_in(old(self)@) == Some(p@),
            final(self)@ == if r.is_some() {
                old(self)@.remove(key_result())
            } else {
                old(self)@
            },
    {
        if self.get_result().is_none() {
            return None;
        }
        match self.take("result") {
            Some(ContextValue::Result(p)) => Some(p),
            _ => None,
        }
    }

    /// Takes the queue out of the store; where its key holds another kind, nothing is
    /// removed.
    pub fn take_queue(&mut self) -> (r: Option<PriorityQueue>)
        ensures
            r.is_some() == queue_in(old(self)@).is_some(),
            r matches Some(q) ==> queue_in(old(self)@) == Some(q@),
            final(self)@ == if r.is_some() {
                old(self)@.remove(key_queue())
            } else {
                old(self)@
            },
    {
        if !self.has_queue() {
            return None;
        }
        match self.take("queue") {
            Some(ContextValue::Queue(q)) => Some(q),
            _ => None,
        }
    }

    /// Takes the entry that leaves first off the queue held in the store; none where
    /// there is no queue or it is empty.
    pub fn queue_pop(&mut self) -> (r: Option<QueueNode>)
        ensures
            r == next_entry(old(self)@),
            final(self)@ == after_pop(old(self)@),
    {
        match self.take_queue() {
            Some(mut queue) => {
                let r = queue.pop();
                self.set_queue(queue);
                proof {
                    let before = old(self)@;
                    let q = queue_in(before).unwrap();
                    if q.len() > 0 {
                        assert(self@ =~= before.insert(key_queue(), ValueView::Queue(q.drop_last())));
                    } else {
                        assert(self@ =~= before);
                    }
                }
                r
            },
            None => None,
        }
    }

    /// Processes the queue entry `(node, distance)` against the state, queue and graph
    /// held in the store.
    pub fn process_node(&mut self, node: NodeId, distance: u32) -> (r: EventResult<()>)
        ensures
            (final(self)@, r@) == process_entry(old(self)@, QueueNode { node, distance }),
    {
        proof {
            lemma_keys_differ();
        }
        if self.get_state().is_none() {
            return EventResult::Failure(text("State not found in context"));
        }
        if !self.has_queue() {
            return EventResult::Failure(text("Queue not found in context"));
        }
        if self.get_graph().is_none() {
            return EventResult::Failure(text("Graph not found in context"));
        }
        if !self.state_fits_graph() {
            return EventResult::Failure(text("State does not match the graph"));
        }
        let mut state = self.take_state().unwrap();
        let mut queue = self.take_queue().unwrap();
        match self.get_graph() {
            Some(graph) => {
                relax_neighbors(graph, &mut state, &mut queue, node, distance);
            },
            None => {},
        }
        let ghost s = Search { state: state@, queue: queue@ };
        self.set_state(state);
        self.set_queue(queue);
        proof {
            assert(self@ =~= with_search(old(self)@, s));
        }
        EventResult::Success(())
    }

    /// Whether the store holds a queue under its key.
    pub fn has_queue(&self) -> (r: bool)
        ensures
            r == queue_in(self@).is_some(),
    {
        match self.get("queue") {
            Some(ContextValue::Queue(_)) => true,
            _ => false,
        }
    }

    /// Whether the state held in the store has one entry per node of the graph held
    /// in it; false where either is missing.
    fn state_fits_graph(&self) -> (r: bool)
        ensures
            r == match (state_in(self@), graph_in(self@)) {
                (Some(state), Some(graph)) => state_fits(state, graph.len()),
                _ => false,
            },
    {
        match self.get_graph() {
            Some(graph) => {
                let nodes = graph.nodes();
                match self.get_state() {
                    Some(state) => fits(state, nodes),
                    None => false,
                }
            },
            None => false,
        }
    }

    /// Pops one entry off the queue held in the store and processes it.
    pub fn process_one_node(&mut self) -> (r: EventResult<()>)
        ensures
            (final(self)@, r@) == process_next(old(self)@),
    {
        proof {
            lemma_keys_differ();
        }
        if self.get_state().is_none() {
            return EventResult::Failure(text("State not found in context"));
        }
        if !self.has_queue() {
            return EventResult::Failure(text("Queue not found in context"));
        }
        if self.get_graph().is_none() {
            return EventResult::Failure(text("Graph not found in context"));
        }
        if !self.state_fits_graph() {
            return EventResult::Failure(text("State does not match the graph"));
        }
        let mut state = self.take_state().unwrap();
        let mut queue = self.take_queue().unwrap();
        match self.get_graph() {
            Some(graph) => {
                match queue.pop() {
                    Some(e) => {
                        relax_neighbors(graph, &mut state, &mut queue, e.node, e.distance);
                    },
                    None => {},
                }
            },
            None => {},
        }
        let ghost s = Search { state: state@, queue: queue@ };
        self.set_state(state);
        self.set_queue(queue);
        proof {
            assert(self@ =~= with_search(old(self)@, s));
        }
        EventResult::Success(())
    }

    /// Pops and processes entries until the queue held in the store is empty.
    pub fn process_all_nodes(&mut self) -> (r: EventResult<()>)
        ensures
            (final(self)@, r@) == process_all(old(self)@),
    {
        proof {
            lemma_keys_differ();
        }
        if !self.has_queue() {
            return EventResult::Failure(text("Queue not found"));
        }
        if self.get_state().is_none() {
            return EventResult::Failure(text("State not found"));
        }
        if self.get_graph().is_none() {
            return EventResult::Failure(text("Graph not found"));
        }
        if !self.state_fits_graph() {
            return EventResult::Failure(text("State does not match the graph"));
        }
        let mut state = self.take_state().unwrap();
        let mut queue = self.take_queue().unwrap();
        match self.get_graph() {
            Some(graph) => {
                run_to_exhaustion(graph, &mut state, &mut queue);
            },
            None => {},
        }
        let ghost s = Search { state: state@, queue: queue@ };
        self.set_state(state);
        self.set_queue(queue);
        proof {
            assert(self@ =~= with_search(old(self)@, s));
        }
        EventResult::Success(())
    }
}

impl Default for EventContext {
    fn default() -> (c: EventContext)
        ensures
            c@ == Map::<Seq<char>, ValueView>::empty(),
    {
        EventContext::new()
    }
}

} // verus!
