//! The search frontier: a minimum-cost-first queue of search node ids.
//!
//! The queue itself comes from the `priority_queue` crate; this module
//! declares its type, wraps the handful of operations the planner calls,
//! and states their effect over the multiset of `(node id, cost)`
//! entries held.

use vstd::prelude::*;
use vstd::multiset::Multiset;

verus! {

#[verifier::external_type_specification]
#[verifier::external_body]
#[verifier::reject_recursive_types(T)]
pub struct ExReverse<T>(core::cmp::Reverse<T>);

#[verifier::external_type_specification]
#[verifier::external_body]
#[verifier::reject_recursive_types(I)]
#[verifier::reject_recursive_types(P)]
#[verifier::reject_recursive_types(H)]
pub struct ExPriorityQueue<I, P, H>(priority_queue::PriorityQueue<I, P, H>);

/// A priority queue of arena node ids keyed by total cost, popping the
/// least cost first.  Node ids are assigned monotonically by the planner,
/// so distinct entries never collide, which keeps the underlying
/// item-updating queue a plain insert-and-remove structure.
pub type SearchQueue = priority_queue::PriorityQueue<usize, core::cmp::Reverse<u32>>;

/// The `(node id, cost)` entries a frontier currently holds.
pub uninterp spec fn frontier_entries(q: SearchQueue) -> Multiset<(usize, u32)>;

/// Relies on priority_queue::PriorityQueue::new: creates an empty queue.
#[verifier::external_body]
pub fn frontier_new() -> (q: SearchQueue)
    ensures
        frontier_entries(q) == Multiset::<(usize, u32)>::empty(),
{
    priority_queue::PriorityQueue::new()
}

/// Relies on priority_queue::PriorityQueue::push: a node id not yet in
/// the queue is inserted with the given priority.  (An id already present
/// would instead have its priority updated, so insertion of a fresh id is
/// required.)
#[verifier::external_body]
pub fn frontier_push(q: &mut SearchQueue, node: usize, cost: u32)
    requires
        forall|e: (usize, u32)| frontier_entries(*old(q)).contains(e) ==> e.0 != node,
    ensures
        frontier_entries(*final(q)) == frontier_entries(*old(q)).insert((node, cost)),
{
    q.push(node, core::cmp::Reverse(cost));
}

/// Relies on priority_queue::PriorityQueue::pop: removes and returns a
/// pair with the greatest priority, or `None` if the queue is empty.
/// Since priorities are reversed costs, the pair returned carries a cost
/// no greater than that of any entry left behind; among equal costs the
/// choice is arbitrary.
#[verifier::external_body]
pub fn frontier_pop(q: &mut SearchQueue) -> (r: Option<(usize, u32)>)
    ensures
        match r {
            None => frontier_entries(*old(q)) == Multiset::<(usize, u32)>::empty()
                && frontier_entries(*final(q)) == Multiset::<(usize, u32)>::empty(),
            Some(e) => frontier_entries(*old(q)).contains(e) && frontier_entries(*final(q))
                == frontier_entries(*old(q)).remove(e) && forall|o: (usize, u32)|
                frontier_entries(*old(q)).contains(o) ==> e.1 <= o.1,
        },
{
    match q.pop() {
        None => None,
        Some((node, core::cmp::Reverse(cost))) => Some((node, cost)),
    }
}

} // verus!
