//! Trusted interface to the keyed priority queue of the `priority_queue`
//! crate, specialised to cell indices keyed by tentative distance.
//!
//! The queue behaves as a map from item to priority: `push` inserts an item
//! or, when it is already queued, changes its priority; `pop_min` removes an
//! entry whose priority is least. `queue_entries` names that map; every
//! contract here speaks over it.

use priority_queue::DoublePriorityQueue;
use vstd::prelude::*;

verus! {

#[verifier::external_type_specification]
#[verifier::external_body]
#[verifier::reject_recursive_types(I)]
#[verifier::reject_recursive_types(P)]
#[verifier::reject_recursive_types(H)]
pub struct ExDoublePriorityQueue<I, P, H>(DoublePriorityQueue<I, P, H>);

/// The queue of cells ordered by tentative distance.
pub type NodeQueue = DoublePriorityQueue<usize, usize>;

/// The entries of the queue: each queued item mapped to its priority.
pub uninterp spec fn queue_entries(q: NodeQueue) -> Map<int, int>;

/// Relies on `DoublePriorityQueue::new`: it returns an empty queue.
#[verifier::external_body]
pub fn queue_new() -> (r: NodeQueue)
    ensures
        queue_entries(r) =~= Map::empty(),
{
    DoublePriorityQueue::new()
}

/// Relies on `DoublePriorityQueue::push`: it inserts the item with the given
/// priority or, when an equal item is already queued, replaces that item's
/// priority.
#[verifier::external_body]
pub fn queue_push(q: &mut NodeQueue, item: usize, priority: usize)
    ensures
        queue_entries(*final(q)) == queue_entries(*old(q)).insert(item as int, priority as int),
{
    q.push(item, priority);
}

/// Relies on `DoublePriorityQueue::pop_min`: it removes and returns an entry
/// whose priority is least among all queued entries, or returns `None` when
/// the queue is empty. Which entry leaves on a tie is left open.
#[verifier::external_body]
pub fn queue_pop_min(q: &mut NodeQueue) -> (r: Option<(usize, usize)>)
    ensures
        (match r {
            Some(entry) => {
                &&& queue_entries(*old(q)).dom().contains(entry.0 as int)
                &&& queue_entries(*old(q))[entry.0 as int] == entry.1 as int
                &&& forall|j: int|
                    queue_entries(*old(q)).dom().contains(j) ==> entry.1 as int <= queue_entries(
                        *old(q),
                    )[j]
                &&& queue_entries(*final(q)) == queue_entries(*old(q)).remove(entry.0 as int)
            },
            None => {
                &&& queue_entries(*old(q)).dom() == Set::<int>::empty()
                &&& queue_entries(*final(q)) == queue_entries(*old(q))
            },
        }),
{
    q.pop_min()
}

} // verus!
