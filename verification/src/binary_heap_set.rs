//! A min-priority queue that does not allow duplicate entries.
//!
//! The propagation queue of the solver: entries carry a node id and the
//! node's entropy at the time it was enqueued, smaller entropy is served
//! first, and a second push of an id that is still enqueued is rejected.

use vstd::prelude::*;

use crate::node::Index2D;

verus! {

/// An entry of the queue: a priority and the id it was enqueued under.
#[derive(Clone, Copy, Debug)]
pub struct HeapEntry {
    /// The priority of the entry; smaller is served first.
    pub priority: u32,
    /// The id of the node this entry stands for.
    pub id: Index2D,
}

/// Whether `k` is the position `pop` serves next: the first position whose
/// priority is minimal over the whole queue.
pub open spec fn is_first_min(s: Seq<HeapEntry>, k: int) -> bool {
    &&& 0 <= k < s.len()
    &&& forall|j: int| 0 <= j < s.len() ==> s[k].priority <= #[trigger] s[j].priority
    &&& forall|j: int| 0 <= j < k ==> #[trigger] s[j].priority > s[k].priority
}

/// A priority queue over node ids, keyed by entropy, that rejects an id that
/// is already enqueued.  Smaller priority is served first; among equal
/// priorities the entry enqueued first is served first.
pub struct BinaryHeapSet {
    entries: Vec<HeapEntry>,
}

impl View for BinaryHeapSet {
    type V = Seq<HeapEntry>;

    closed spec fn view(&self) -> Seq<HeapEntry> {
        self.entries@
    }
}

/// Whether some entry of `s` carries the id.
pub open spec fn contains_id(s: Seq<HeapEntry>, id: Index2D) -> bool {
    exists|k: int| 0 <= k < s.len() && #[trigger] s[k].id == id
}

impl BinaryHeapSet {
    /// The ids of distinct entries are distinct.
    pub open spec fn wf(&self) -> bool {
        forall|i: int, j: int|
            0 <= i < j < self@.len() ==> (#[trigger] self@[i].id) != (#[trigger] self@[j].id)
    }

    /// An empty queue.
    pub fn new() -> (r: BinaryHeapSet)
        ensures
            r@ == Seq::<HeapEntry>::empty(),
            r.wf(),
    {
        BinaryHeapSet { entries: Vec::new() }
    }

    /// Whether no entry is enqueued.
    pub fn is_empty(&self) -> (r: bool)
        ensures
            r == (self@.len() == 0),
    {
        self.entries.len() == 0
    }

    /// Enqueues `value` unless its id is already enqueued; reports whether it
    /// was admitted.  A rejected push leaves the queue unchanged, so its
    /// size never grows on a duplicate.
    pub fn push(&mut self, value: HeapEntry) -> (admitted: bool)
        requires
            old(self).wf(),
        ensures
            final(self).wf(),
            admitted == !contains_id(old(self)@, value.id),
            final(self)@ == if admitted {
                old(self)@.push(value)
            } else {
                old(self)@
            },
    {
        let mut i: usize = 0;
        while i < self.entries.len()
            invariant
                old(self).wf(),
                i <= self@.len(),
                forall|k: int| 0 <= k < i ==> (#[trigger] self@[k].id) != value.id,
                self@ == old(self)@,
            decreases self@.len() - i,
        {
            let e = self.entries[i];
            if e.id.0 == value.id.0 && e.id.1 == value.id.1 {
                proof {
                    assert(self@[i as int].id == value.id);
                }
                return false;
            }
            i = i + 1;
        }
        self.entries.push(value);
        true
    }

    /// Removes and returns the first entry of minimal priority, or `None`
    /// when the queue is empty.
    pub fn pop(&mut self) -> (r: Option<HeapEntry>)
        requires
            old(self).wf(),
        ensures
            final(self).wf(),
            match r {
                Option::None => old(self)@.len() == 0 && final(self)@ == old(self)@,
                Option::Some(e) => exists|k: int|
                    #[trigger] is_first_min(old(self)@, k) && e == old(self)@[k] && final(self)@
                        == old(self)@.remove(k),
            },
    {
        if self.entries.len() == 0 {
            return None;
        }
        let mut best: usize = 0;
        let mut i: usize = 1;
        while i < self.entries.len()
            invariant
                best < i <= self@.len(),
                self@ == old(self)@,
                forall|j: int|
                    0 <= j < i ==> self@[best as int].priority <= #[trigger] self@[j].priority,
                forall|j: int|
                    0 <= j < best ==> #[trigger] self@[j].priority > self@[best as int].priority,
            decreases self@.len() - i,
        {
            if self.entries[i].priority < self.entries[best].priority {
                best = i;
            }
            i = i + 1;
        }
        proof {
            assert(is_first_min(old(self)@, best as int));
        }
        let e = self.entries.remove(best);
        proof {
            lemma_remove_keeps_distinct(old(self)@, best as int);
        }
        Some(e)
    }
}

/// Removing one entry keeps the remaining ids pairwise distinct.
proof fn lemma_remove_keeps_distinct(s: Seq<HeapEntry>, k: int)
    requires
        0 <= k < s.len(),
        forall|i: int, j: int|
            0 <= i < j < s.len() ==> (#[trigger] s[i].id) != (#[trigger] s[j].id),
    ensures
        forall|i: int, j: int|
            0 <= i < j < s.remove(k).len() ==> (#[trigger] s.remove(k)[i].id) != (
            #[trigger] s.remove(k)[j].id),
{
    let t = s.remove(k);
    assert forall|i: int, j: int| 0 <= i < j < t.len() implies (#[trigger] t[i].id) != (
    #[trigger] t[j].id) by {
        let si = if i < k {
            i
        } else {
            i + 1
        };
        let sj = if j < k {
            j
        } else {
            j + 1
        };
        assert(t[i] == s[si] && t[j] == s[sj]);
    }
}


} // verus!
