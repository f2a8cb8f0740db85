//! A priority queue of edges that hands out the least edge first.

use crate::edge::Edge;
use std::collections::VecDeque;
use vstd::prelude::*;

verus! {

/// Every element of the sequence precedes all that follow it.
pub open spec fn ascending(s: Seq<Edge>) -> bool {
    forall|i: int, j: int| 0 <= i <= j < s.len() ==> s[i].precedes(s[j])
}

/// A queue of edges kept in the order in which it will hand them out.
///
/// The view of a queue is the sequence of its edges, the next one to leave at
/// index 0. The edges are held sorted: the place of a new edge is found by
/// bisection, and an edge that goes to the front (one that was popped and is
/// put back) moves no other edge.
pub struct EdgeQueue {
    items: VecDeque<Edge>,
}

impl View for EdgeQueue {
    type V = Seq<Edge>;

    closed spec fn view(&self) -> Seq<Edge> {
        self.items@
    }
}

impl EdgeQueue {
    /// The invariant of the queue: its edges stand in ascending order.
    pub open spec fn wf(&self) -> bool {
        ascending(self@)
    }

    /// An empty queue.
    pub fn new() -> (q: EdgeQueue)
        ensures
            q.wf(),
            q@ == Seq::<Edge>::empty(),
    {
        EdgeQueue { items: VecDeque::new() }
    }

    /// The number of edges in the queue.
    pub fn len(&self) -> (n: usize)
        ensures
            n == self@.len(),
    {
        self.items.len()
    }

    /// Whether the queue holds no edge.
    pub fn is_empty(&self) -> (b: bool)
        ensures
            b == (self@.len() == 0),
    {
        self.items.len() == 0
    }

    /// Adds an edge. It goes in front of the edges that it precedes, so the
    /// queue stays sorted and holds exactly one edge more.
    pub fn push(&mut self, e: Edge)
        requires
            old(self).wf(),
        ensures
            final(self).wf(),
            final(self)@.to_multiset() == old(self)@.to_multiset().insert(e),
            final(self)@.len() == old(self)@.len() + 1,
            forall|x: Edge| final(self)@.contains(x) <==> (x == e || old(self)@.contains(x)),
    {
        let ghost before = self.items@;
        let n = self.items.len();
        let mut k: usize = 0;
        let mut end: usize = n;
        while k < end
            invariant
                k <= end <= n,
                n == self.items@.len(),
                self.items@ == before,
                ascending(before),
                forall|i: int| 0 <= i < k ==> !e.precedes(#[trigger] before[i]),
                forall|i: int| end <= i < n ==> e.precedes(#[trigger] before[i]),
            decreases end - k,
        {
            let mid = k + (end - k) / 2;
            if e.comes_before(&self.items[mid]) {
                assert forall|i: int| mid <= i < n implies e.precedes(#[trigger] before[i]) by {
                    assert(before[mid as int].precedes(before[i]));
                }
                end = mid;
            } else {
                assert forall|i: int| 0 <= i <= mid implies !e.precedes(#[trigger] before[i]) by {
                    assert(before[i].precedes(before[mid as int]));
                }
                k = mid + 1;
            }
        }
        self.items.insert(k, e);
        proof {
            let after = self.items@;
            before.insert_ensures(k as int, e);
            vstd::seq_lib::to_multiset_insert(before, k as int, e);
            assert forall|i: int, j: int| 0 <= i <= j < after.len() implies after[i].precedes(
                after[j],
            ) by {
                if j < k {
                } else if i < k && j == k {
                    assert(!e.precedes(before[i]));
                } else if i < k {
                    assert(after[j] == before[j - 1]);
                } else if i == k && j == k {
                } else if i == k {
                    assert(after[j] == before[j - 1]);
                    assert(e.precedes(before[k as int]));
                    assert(before[k as int].precedes(before[j - 1]));
                } else {
                    assert(after[i] == before[i - 1]);
                    assert(after[j] == before[j - 1]);
                }
            }
            assert forall|x: Edge| after.contains(x) <==> (x == e || before.contains(x)) by {
                if after.contains(x) {
                    let i = choose|i: int| 0 <= i < after.len() && after[i] == x;
                    if i < k {
                        assert(before[i] == x);
                    } else if i > k {
                        assert(before[i - 1] == x);
                    }
                }
                if before.contains(x) {
                    let i = choose|i: int| 0 <= i < before.len() && before[i] == x;
                    if i < k {
                        assert(after[i] == x);
                    } else {
                        assert(after[i + 1] == x);
                    }
                }
                if x == e {
                    assert(after[k as int] == x);
                }
            }
        }
    }

    /// Takes the least edge out of the queue, if there is one.
    pub fn pop_min(&mut self) -> (r: Option<Edge>)
        requires
            old(self).wf(),
        ensures
            final(self).wf(),
            match r {
                Some(e) => {
                    &&& old(self)@.len() > 0
                    &&& e == old(self)@[0]
                    &&& final(self)@ == old(self)@.skip(1)
                    &&& forall|x: Edge| old(self)@.contains(x) ==> e.precedes(x)
                    &&& forall|x: Edge|
                        old(self)@.contains(x) <==> (x == e || final(self)@.contains(x))
                },
                None => old(self)@.len() == 0 && final(self)@ == old(self)@,
            },
    {
        let ghost before = self.items@;
        let r = self.items.pop_front();
        proof {
            let after = self.items@;
            if before.len() > 0 {
                let e = before[0];
                assert(after =~= before.skip(1));
                assert forall|x: Edge| before.contains(x) implies e.precedes(x) by {
                    let i = choose|i: int| 0 <= i < before.len() && before[i] == x;
                    assert(before[0].precedes(before[i]));
                }
                assert forall|x: Edge| before.contains(x) <==> (x == e || after.contains(x)) by {
                    if before.contains(x) {
                        let i = choose|i: int| 0 <= i < before.len() && before[i] == x;
                        if i > 0 {
                            assert(after[i - 1] == x);
                        }
                    }
                    if after.contains(x) {
                        let i = choose|i: int| 0 <= i < after.len() && after[i] == x;
                        assert(before[i + 1] == x);
                    }
                    if x == e {
                        assert(before[0] == x);
                    }
                }
            }
        }
        r
    }
}

/// A sorted queue is determined by the edges it holds, whatever the order in
/// which they were pushed.
pub proof fn lemma_ascending_unique(a: Seq<Edge>, b: Seq<Edge>)
    requires
        ascending(a),
        ascending(b),
        a.to_multiset() == b.to_multiset(),
    ensures
        a == b,
{
    let leq = |x: Edge, y: Edge| x.precedes(y);
    assert(vstd::relations::sorted_by(a, leq));
    assert(vstd::relations::sorted_by(b, leq));
    assert(vstd::relations::total_ordering(leq)) by {
        assert forall|x: Edge, y: Edge| #[trigger] leq(x, y) && #[trigger] leq(y, x) implies x == y by {
            crate::edge::lemma_precedes_total_order(x, y, x);
        }
    }
    vstd::seq_lib::lemma_sorted_unique(a, b, leq);
}

} // verus!
