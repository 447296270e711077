//! Trusted view of the outside priority queue that `dijkstra` drives.
//!
//! The queue holds vertex indices keyed by a `usize` priority. Its contents
//! are modelled as a map from each queued index to its current priority;
//! nothing else about the queue (in particular its tie-breaking among equal
//! priorities) is assumed.

use priority_queue::PriorityQueue;
use vstd::prelude::*;

verus! {

#[verifier::external_type_specification]
#[verifier::external_body]
#[verifier::reject_recursive_types(I)]
#[verifier::reject_recursive_types(P)]
#[verifier::reject_recursive_types(H)]
pub struct ExPriorityQueue<I, P, H>(PriorityQueue<I, P, H>);

/// The contents of a queue of vertex indices: each queued index, mapped to
/// its current priority.
pub uninterp spec fn pq_view(q: PriorityQueue<usize, usize>) -> Map<usize, usize>;

/// Relies on priority_queue::PriorityQueue::new: creates an empty queue.
#[verifier::external_body]
pub(crate) fn pq_new() -> (q: PriorityQueue<usize, usize>)
    ensures
        pq_view(q) =~= Map::empty(),
{
    PriorityQueue::new()
}

/// Relies on priority_queue::PriorityQueue::push: queues the item with the
/// given priority; an item already queued just has its priority replaced.
#[verifier::external_body]
pub(crate) fn pq_push(
    q: &mut PriorityQueue<usize, usize>,
    item: usize,
    priority: usize,
)
    ensures
        pq_view(*final(q)) == pq_view(*old(q)).insert(item, priority),
{
    q.push(item, priority);
}

/// Relies on priority_queue::PriorityQueue::is_empty: true exactly when
/// nothing is queued.
#[verifier::external_body]
pub(crate) fn pq_is_empty(q: &PriorityQueue<usize, usize>) -> (b: bool)
    ensures
        b == pq_view(*q).dom().is_empty(),
{
    q.is_empty()
}

/// Relies on priority_queue::PriorityQueue::pop: removes and returns an item
/// carrying the greatest queued priority, or nothing when the queue is
/// empty. Which of several items tied at the greatest priority leaves is not
/// specified.
#[verifier::external_body]
pub(crate) fn pq_pop(q: &mut PriorityQueue<usize, usize>) -> (r: Option<
    (usize, usize),
>)
    ensures
        match r {
            None => {
                &&& pq_view(*old(q)).dom().is_empty()
                &&& pq_view(*final(q)) == pq_view(*old(q))
            },
            Some(pair) => {
                &&& pq_view(*old(q)).contains_pair(pair.0, pair.1)
                &&& pq_view(*final(q)) == pq_view(*old(q)).remove(pair.0)
                &&& forall|j: usize| pq_view(*old(q)).dom().contains(j)
                    ==> pq_view(*old(q))[j] <= pair.1
            },
        },
{
    q.pop()
}

/// Relies on priority_queue::PriorityQueue::change_priority: replaces the
/// priority of an item already queued; an absent item leaves the queue
/// untouched.
#[verifier::external_body]
pub(crate) fn pq_change_priority(
    q: &mut PriorityQueue<usize, usize>,
    item: usize,
    new_priority: usize,
)
    ensures
        pq_view(*old(q)).dom().contains(item) ==> pq_view(*final(q)) == pq_view(*old(q)).insert(
            item,
            new_priority,
        ),
        !pq_view(*old(q)).dom().contains(item) ==> pq_view(*final(q)) == pq_view(*old(q)),
{
    q.change_priority(&item, new_priority);
}

} // verus!
