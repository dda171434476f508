//! The open set of the propagation: an indexed max-priority queue of the
//! `priority_queue` crate, keyed by cell, holding at most one priority per
//! cell.

use vstd::prelude::*;
use priority_queue::PriorityQueue;

verus! {

#[verifier::external_type_specification]
#[verifier::external_body]
#[verifier::reject_recursive_types(I)]
#[verifier::reject_recursive_types(P)]
#[verifier::reject_recursive_types(H)]
pub struct ExPriorityQueue<I: std::hash::Hash + Eq, P: Ord, H>(PriorityQueue<I, P, H>);

/// The queue seen as a finite map from each queued cell to its priority.
pub type CellQueue = PriorityQueue<(i32, i32), u32>;

/// What a queue holds: each queued cell with its current priority.
pub uninterp spec fn queue_entries(q: CellQueue) -> Map<(i32, i32), u32>;

/// Relies on `PriorityQueue::new`: the new queue is empty.
#[verifier::external_body]
pub(crate) fn queue_new() -> (r: CellQueue)
    ensures
        queue_entries(r).dom() == Set::<(i32, i32)>::empty(),
{
    PriorityQueue::new()
}

/// Relies on `PriorityQueue::push`: an item already queued has its priority
/// replaced and the old one returned; otherwise the item is added.
#[verifier::external_body]
pub(crate) fn queue_push(q: &mut CellQueue, item: (i32, i32), priority: u32) -> (r: Option<u32>)
    ensures
        queue_entries(*final(q)) == queue_entries(*old(q)).insert(item, priority),
        queue_entries(*old(q)).dom().contains(item) ==> r == Some(queue_entries(*old(q))[item]),
        !queue_entries(*old(q)).dom().contains(item) ==> r.is_none(),
{
    q.push(item, priority)
}

/// Relies on `PriorityQueue::pop`: removes and returns an item of greatest
/// priority, with that priority, or `None` when the queue is empty. Which of
/// several items of equal priority leaves is not specified.
#[verifier::external_body]
pub(crate) fn queue_pop(q: &mut CellQueue) -> (r: Option<((i32, i32), u32)>)
    ensures
        queue_entries(*old(q)).dom().len() == 0 ==> r.is_none(),
        r.is_none() ==> queue_entries(*final(q)) == queue_entries(*old(q))
            && queue_entries(*old(q)).dom().len() == 0,
        r matches Some((item, p)) ==> {
            &&& queue_entries(*old(q)).dom().contains(item)
            &&& queue_entries(*old(q))[item] == p
            &&& forall|j| #[trigger] queue_entries(*old(q)).dom().contains(j)
                ==> queue_entries(*old(q))[j] <= p
            &&& queue_entries(*final(q)) == queue_entries(*old(q)).remove(item)
        },
{
    q.pop()
}

} // verus!
