//! The best-first search frontier: a max-priority queue from the
//! `priority_queue` crate, holding arena indices keyed by `(depth, score)`
//! priorities.  The queue's behaviour is taken on trust through the contracts
//! below, stated over the named entry map `frontier_entries`; everything that
//! uses the frontier is verified against these contracts alone.

use priority_queue::PriorityQueue;
use std::collections::hash_map::RandomState;
use vstd::prelude::*;

verus! {

#[verifier::external_type_specification]
#[verifier::external_body]
#[verifier::reject_recursive_types(I)]
#[verifier::reject_recursive_types(P)]
#[verifier::reject_recursive_types(H)]
pub struct ExPriorityQueue<I, P, H>(PriorityQueue<I, P, H>);

/// The entries of a frontier queue: each stored item with its priority.
pub uninterp spec fn frontier_entries(q: PriorityQueue<u64, (u64, u64), RandomState>) -> Map<
    u64,
    (u64, u64),
>;

/// Lexicographic order on `(depth, score)` priorities: the order the derived
/// `Ord` of a pair of unsigned integers gives, which the queue pops by.
pub open spec fn prio_le(a: (u64, u64), b: (u64, u64)) -> bool {
    a.0 < b.0 || (a.0 == b.0 && a.1 <= b.1)
}

/// Relies on `priority_queue::PriorityQueue::new`: creates an empty queue.
#[verifier::external_body]
pub(crate) fn frontier_new() -> (r: PriorityQueue<u64, (u64, u64), RandomState>)
    ensures
        forall|j: u64| !frontier_entries(r).dom().contains(j),
{
    PriorityQueue::new()
}

/// Relies on `priority_queue::PriorityQueue::push`: inserts an item that is
/// not yet stored, with the given priority.
#[verifier::external_body]
pub(crate) fn frontier_push(
    q: &mut PriorityQueue<u64, (u64, u64), RandomState>,
    item: u64,
    prio: (u64, u64),
)
    requires
        !frontier_entries(*old(q)).dom().contains(item),
    ensures
        frontier_entries(*final(q)) == frontier_entries(*old(q)).insert(item, prio),
{
    q.push(item, prio);
}

/// Relies on `priority_queue::PriorityQueue::pop`: removes and returns an
/// entry of greatest priority, or `None` exactly when the queue is empty.
#[verifier::external_body]
pub(crate) fn frontier_pop(q: &mut PriorityQueue<u64, (u64, u64), RandomState>) -> (r: Option<
    (u64, (u64, u64)),
>)
    ensures
        match r {
            None => {
                &&& forall|j: u64| !frontier_entries(*old(q)).dom().contains(j)
                &&& frontier_entries(*final(q)) == frontier_entries(*old(q))
            },
            Some(entry) => {
                &&& frontier_entries(*old(q)).contains_pair(entry.0, entry.1)
                &&& frontier_entries(*final(q)) == frontier_entries(*old(q)).remove(entry.0)
                &&& forall|j: u64|
                    frontier_entries(*old(q)).dom().contains(j) ==> prio_le(
                        #[trigger] frontier_entries(*old(q))[j],
                        entry.1,
                    )
            },
        },
{
    q.pop()
}

} // verus!
