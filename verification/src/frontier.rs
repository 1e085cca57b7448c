//! The open set of the shortest-path search: a priority queue of cells, each
//! under its estimated total cost, that hands out a cheapest cell first.

use core::cmp::Reverse;
use priority_queue::PriorityQueue;
use vstd::prelude::*;

verus! {

/// `priority_queue::PriorityQueue`, carried as a value whose inside is not
/// looked into.
#[verifier::external_type_specification]
#[verifier::external_body]
#[verifier::reject_recursive_types(I)]
#[verifier::reject_recursive_types(P)]
#[verifier::reject_recursive_types(H)]
pub struct ExPriorityQueue<I, P, H>(PriorityQueue<I, P, H>);

/// `core::cmp::Reverse`, the priority that puts the least cost first,
/// carried as a value whose inside is not looked into.
#[verifier::external_type_specification]
#[verifier::external_body]
#[verifier::reject_recursive_types(T)]
pub struct ExReverse<T>(Reverse<T>);

/// The queue of the search: cells by row-major index, cheapest first.
pub type Frontier = PriorityQueue<u32, Reverse<u128>>;

/// The cells that the queue holds, each with the cost it is queued under.
pub uninterp spec fn frontier_entries(queue: PriorityQueue<u32, Reverse<u128>>) -> Map<u32, u128>;

/// `PriorityQueue::new`: the new queue holds nothing.
#[verifier::external_body]
pub(crate) fn frontier_new() -> (queue: PriorityQueue<u32, Reverse<u128>>)
    ensures
        frontier_entries(queue) == (Map::<u32, u128>::empty()),
{
    PriorityQueue::new()
}

/// `PriorityQueue::push` with the cost reversed into a priority: afterwards
/// `cell` is queued under `cost`, whether or not it was queued before, and
/// every other cell is queued as it was.
#[verifier::external_body]
pub(crate) fn frontier_push(queue: &mut PriorityQueue<u32, Reverse<u128>>, cell: u32, cost: u128)
    ensures
        frontier_entries(*final(queue)) == frontier_entries(*old(queue)).insert(cell, cost),
{
    let _ = queue.push(cell, Reverse(cost));
}

/// `PriorityQueue::pop`: `None` on an empty queue, which stays as it was;
/// otherwise a queued cell with its cost, no other queued cell being cheaper,
/// and that cell is no longer queued.
#[verifier::external_body]
pub(crate) fn frontier_pop(queue: &mut PriorityQueue<u32, Reverse<u128>>) -> (next: Option<
    (u32, u128),
>)
    ensures
        next is None ==> frontier_entries(*old(queue)).dom() == (Set::<u32>::empty()),
        next is None ==> frontier_entries(*final(queue)) == frontier_entries(*old(queue)),
        next matches Some(e) ==> frontier_entries(*old(queue)).contains_key(e.0)
            && frontier_entries(*old(queue))[e.0] == e.1,
        next matches Some(e) ==> frontier_entries(*final(queue)) == frontier_entries(
            *old(queue),
        ).remove(e.0),
        forall|other: u32|
            next is Some && frontier_entries(*old(queue)).contains_key(other) ==> next.unwrap().1
                <= #[trigger] frontier_entries(*old(queue))[other],
{
    match queue.pop() {
        Some((cell, Reverse(cost))) => Some((cell, cost)),
        None => None,
    }
}

} // verus!
