use vstd::prelude::*;
use crate::graph::{pops_before, QueueNode};

verus! {

/// The entries of `q` stand in the order in which they leave, the next one last.
pub open spec fn queue_sorted(q: Seq<QueueNode>) -> bool {
    forall|i: int, j: int| 0 <= i < j < q.len() ==> pops_before(q[j], q[i])
}

/// `q` with `e` put at its place: behind every entry that leaves no later than `e`.
pub open spec fn queue_push(q: Seq<QueueNode>, e: QueueNode) -> Seq<QueueNode>
    decreases q.len(),
{
    if q.len() == 0 {
        seq![e]
    } else if pops_before(q.last(), e) {
        queue_push(q.drop_last(), e).push(q.last())
    } else {
        q.push(e)
    }
}

/// Pushing keeps every old entry and adds exactly `e`.
pub proof fn lemma_push_entries(q: Seq<QueueNode>, e: QueueNode)
    ensures
        queue_push(q, e).len() == q.len() + 1,
        queue_push(q, e).contains(e),
        forall|x: QueueNode| q.contains(x) ==> queue_push(q, e).contains(x),
        forall|x: QueueNode| queue_push(q, e).contains(x) ==> x == e || q.contains(x),
    decreases q.len(),
{
    let r = queue_push(q, e);
    if q.len() == 0 {
        assert(r[0] == e);
    } else if pops_before(q.last(), e) {
        let front = q.drop_last();
        let inner = queue_push(front, e);
        lemma_push_entries(front, e);
        assert(r == inner.push(q.last()));
        assert forall|x: QueueNode| q.contains(x) implies r.contains(x) by {
            let i = choose|i: int| 0 <= i < q.len() && q[i] == x;
            if i == q.len() - 1 {
                assert(r[r.len() - 1] == x);
            } else {
                assert(front[i] == x);
                assert(front.contains(x));
                assert(inner.contains(x));
                let k = choose|k: int| 0 <= k < inner.len() && inner[k] == x;
                assert(r[k] == x);
            }
        }
        assert forall|x: QueueNode| r.contains(x) implies x == e || q.contains(x) by {
            let k = choose|k: int| 0 <= k < r.len() && r[k] == x;
            if k == r.len() - 1 {
                assert(q[q.len() - 1] == x);
            } else {
                assert(inner[k] == x);
                assert(inner.contains(x));
                if x != e {
                    assert(front.contains(x));
                    let i = choose|i: int| 0 <= i < front.len() && front[i] == x;
                    assert(q[i] == x);
                }
            }
        }
        let k = choose|k: int| 0 <= k < inner.len() && inner[k] == e;
        assert(r[k] == e);
    } else {
        assert(r[r.len() - 1] == e);
        assert forall|x: QueueNode| q.contains(x) implies r.contains(x) by {
            let i = choose|i: int| 0 <= i < q.len() && q[i] == x;
            assert(r[i] == x);
        }
        assert forall|x: QueueNode| r.contains(x) implies x == e || q.contains(x) by {
            let k = choose|k: int| 0 <= k < r.len() && r[k] == x;
            if k < q.len() {
                assert(q[k] == x);
            }
        }
    }
}

/// Pushing into a sorted queue leaves it sorted.
pub proof fn lemma_push_sorted(q: Seq<QueueNode>, e: QueueNode)
    requires
        queue_sorted(q),
    ensures
        queue_sorted(queue_push(q, e)),
    decreases q.len(),
{
    let r = queue_push(q, e);
    if q.len() == 0 {
    } else if pops_before(q.last(), e) {
        let front = q.drop_last();
        let inner = queue_push(front, e);
        assert(queue_sorted(front)) by {
            assert forall|i: int, j: int| 0 <= i < j < front.len() implies pops_before(
                front[j],
                front[i],
            ) by {
                assert(pops_before(q[j], q[i]));
            }
        }
        lemma_push_sorted(front, e);
        lemma_push_entries(front, e);
        assert forall|i: int, j: int| 0 <= i < j < r.len() implies pops_before(r[j], r[i]) by {
            if j < r.len() - 1 {
                assert(pops_before(inner[j], inner[i]));
            } else {
                assert(r[j] == q.last());
                assert(r[i] == inner[i]);
                assert(inner.contains(inner[i]));
                if inner[i] != e {
                    assert(front.contains(inner[i]));
                    let k = choose|k: int| 0 <= k < front.len() && front[k] == inner[i];
                    assert(pops_before(q[q.len() - 1], q[k]));
                }
            }
        }
    } else {
        assert forall|i: int, j: int| 0 <= i < j < r.len() implies pops_before(r[j], r[i]) by {
            if j < q.len() {
                assert(pops_before(q[j], q[i]));
            } else {
                assert(pops_before(q[q.len() - 1], q[i]) || i == q.len() - 1);
            }
        }
    }
}

/// Where every entry from `place` on leaves no later than `e`, and the entry
/// before `place` does not, `e` is pushed to `place`.
pub proof fn lemma_push_place(q: Seq<QueueNode>, e: QueueNode, place: int)
    requires
        0 <= place <= q.len(),
        place > 0 ==> !pops_before(q[place - 1], e),
        forall|j: int| place <= j < q.len() ==> pops_before(#[trigger] q[j], e),
    ensures
        queue_push(q, e) == q.insert(place, e),
    decreases q.len() - place,
{
    if place == q.len() {
        assert(q.insert(place, e) =~= q.push(e));
    } else {
        let front = q.drop_last();
        assert(pops_before(q[q.len() - 1], e));
        assert forall|j: int| place <= j < front.len() implies pops_before(
            #[trigger] front[j],
            e,
        ) by {
            assert(front[j] == q[j]);
        }
        lemma_push_place(front, e, place);
        assert(front.insert(place, e).push(q.last()) =~= q.insert(place, e));
    }
}

/// A queue of `QueueNode`s that hands out the entry with the least distance first,
/// the least node among equal distances.
#[derive(Debug)]
pub struct PriorityQueue {
    entries: Vec<QueueNode>,
}

impl View for PriorityQueue {
    type V = Seq<QueueNode>;

    /// The entries in the order in which they leave, the next one last.
    closed spec fn view(&self) -> Seq<QueueNode> {
        self.entries@
    }
}

impl PriorityQueue {
    #[verifier::type_invariant]
    closed spec fn sorted(&self) -> bool {
        queue_sorted(self.entries@)
    }

    /// The empty queue.
    pub fn new() -> (q: PriorityQueue)
        ensures
            q@ == Seq::<QueueNode>::empty(),
    {
        PriorityQueue { entries: Vec::new() }
    }

    /// The number of entries.
    pub fn len(&self) -> (n: usize)
        ensures
            n == self@.len(),
    {
        self.entries.len()
    }

    /// Whether no entry is left.
    pub fn is_empty(&self) -> (r: bool)
        ensures
            r == (self@.len() == 0),
    {
        self.entries.len() == 0
    }

    /// Adds `e`. Its place is found by halving the stretch in which it can lie.
    pub fn push(&mut self, e: QueueNode)
        ensures
            final(self)@ == queue_push(old(self)@, e),
            queue_sorted(final(self)@),
    {
        proof {
            use_type_invariant(&*self);
            lemma_push_sorted(self.entries@, e);
        }
        let ghost before = self.entries@;
        let mut low: usize = 0;
        let mut high: usize = self.entries.len();
        while low < high
            invariant
                low <= high <= self.entries.len(),
                self.entries@ == before,
                queue_sorted(before),
                forall|j: int| 0 <= j < low ==> !pops_before(#[trigger] before[j], e),
                forall|j: int| high <= j < before.len() ==> pops_before(#[trigger] before[j], e),
            decreases high - low,
        {
            let middle = low + (high - low) / 2;
            if self.entries[middle].pops_before(&e) {
                proof {
                    assert forall|j: int| middle <= j < before.len() implies pops_before(
                        #[trigger] before[j],
                        e,
                    ) by {
                        if j > middle {
                            assert(pops_before(before[j], before[middle as int]));
                        }
                    }
                }
                high = middle;
            } else {
                proof {
                    assert forall|j: int| 0 <= j < middle + 1 implies !pops_before(
                        #[trigger] before[j],
                        e,
                    ) by {
                        if j < middle {
                            assert(pops_before(before[middle as int], before[j]));
                        }
                    }
                }
                low = middle + 1;
            }
        }
        proof {
            lemma_push_place(before, e, low as int);
        }
        let mut held = PriorityQueue { entries: Vec::new() };
        std::mem::swap(self, &mut held);
        let mut entries = held.entries;
        entries.insert(low, e);
        *self = PriorityQueue { entries };
    }

    /// Removes and returns the entry that leaves first; `None` when the queue is empty.
    pub fn pop(&mut self) -> (r: Option<QueueNode>)
        ensures
            old(self)@.len() == 0 ==> r.is_none() && final(self)@ == old(self)@,
            old(self)@.len() > 0 ==> r == Some(old(self)@.last()),
            old(self)@.len() > 0 ==> final(self)@ == old(self)@.drop_last(),
            queue_sorted(old(self)@),
            queue_sorted(final(self)@),
    {
        proof {
            use_type_invariant(&*self);
        }
        let mut held = PriorityQueue { entries: Vec::new() };
        std::mem::swap(self, &mut held);
        let mut entries = held.entries;
        let r = entries.pop();
        proof {
            assert forall|i: int, j: int| 0 <= i < j < entries@.len() implies pops_before(
                entries@[j],
                entries@[i],
            ) by {
                assert(pops_before(old(self).entries@[j], old(self).entries@[i]));
            }
        }
        *self = PriorityQueue { entries };
        r
    }
}

impl Clone for PriorityQueue {
    /// A queue with the same entries.
    fn clone(&self) -> (q: PriorityQueue)
        ensures
            q@ == self@,
    {
        proof {
            use_type_invariant(self);
        }
        let mut entries: Vec<QueueNode> = Vec::new();
        let mut i: usize = 0;
        while i < self.entries.len()
            invariant
                i <= self.entries@.len(),
                entries@ == self.entries@.take(i as int),
            decreases self.entries@.len() - i,
        {
            entries.push(self.entries[i]);
            assert(entries@ =~= self.entries@.take(i + 1));
            i = i + 1;
        }
        assert(self.entries@.take(self.entries@.len() as int) =~= self.entries@);
        PriorityQueue { entries }
    }
}

} // verus!
