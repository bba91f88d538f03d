//! The priority index over match keys, kept in an outside priority queue.
use vstd::prelude::*;
use priority_queue::PriorityQueue;
use std::hash::Hash;

verus! {

/// A scheduled match is identified by its first player, second player and round.
pub type MatchKey = (u16, u16, u16);

/// The queue type that the tournament keeps its priorities in.
pub type MatchQueue = PriorityQueue<MatchKey, i64>;

#[verifier::external_type_specification]
#[verifier::external_body]
#[verifier::reject_recursive_types(I)]
#[verifier::reject_recursive_types(P)]
#[verifier::reject_recursive_types(H)]
pub struct ExPriorityQueue<I: Hash + Eq, P: Ord, H>(PriorityQueue<I, P, H>);

/// The priority that the queue holds for each of its items.
pub uninterp spec fn queue_entries(q: MatchQueue) -> Map<MatchKey, i64>;

/// The contents of a queue that holds no item.
pub open spec fn no_entries() -> Map<MatchKey, i64> {
    Map::empty()
}

/// Relies on `PriorityQueue::new`: a new queue holds no item.
#[verifier::external_body]
pub(crate) fn queue_new() -> (r: MatchQueue)
    ensures
        queue_entries(r) == no_entries(),
{
    PriorityQueue::new()
}

/// Relies on `PriorityQueue::clone` (derived): the copy holds the same items
/// with the same priorities.
#[verifier::external_body]
pub(crate) fn queue_clone(q: &MatchQueue) -> (r: MatchQueue)
    ensures
        queue_entries(r) == queue_entries(*q),
{
    q.clone()
}

/// Relies on `PriorityQueue::push`: the item is inserted with the priority, or
/// its priority replaced when it is already there.
#[verifier::external_body]
pub(crate) fn queue_push(q: &mut MatchQueue, k: MatchKey, p: i64)
    ensures
        queue_entries(*final(q)) == queue_entries(*old(q)).insert(k, p),
{
    q.push(k, p);
}

/// Relies on `PriorityQueue::change_priority`: the priority of an item that is
/// there is replaced; the queue is left alone when the item is not there.
#[verifier::external_body]
pub(crate) fn queue_change_priority(q: &mut MatchQueue, k: &MatchKey, p: i64)
    ensures
        queue_entries(*old(q)).contains_key(*k) ==> queue_entries(*final(q))
            == queue_entries(*old(q)).insert(*k, p),
        !queue_entries(*old(q)).contains_key(*k) ==> queue_entries(*final(q))
            == queue_entries(*old(q)),
{
    q.change_priority(k, p);
}

/// Relies on `PriorityQueue::get_priority`: the priority of the item, if it is there.
#[verifier::external_body]
pub(crate) fn queue_get_priority(q: &MatchQueue, k: &MatchKey) -> (r: Option<i64>)
    ensures
        r == (if queue_entries(*q).contains_key(*k) {
            Some(queue_entries(*q)[*k])
        } else {
            None
        }),
{
    q.get_priority(k).copied()
}

/// Relies on `PriorityQueue::peek`: an item with the greatest priority, or
/// `None` when the queue is empty.
#[verifier::external_body]
pub(crate) fn queue_peek(q: &MatchQueue) -> (r: Option<(MatchKey, i64)>)
    ensures
        r is None <==> queue_entries(*q).dom() == Set::<MatchKey>::empty(),
        r matches Some((k, p)) ==> queue_entries(*q).contains_key(k) && queue_entries(*q)[k] == p,
        r matches Some((k, p)) ==> forall|j: MatchKey| #[trigger]
            queue_entries(*q).contains_key(j) ==> queue_entries(*q)[j] <= p,
{
    q.peek().map(|(k, p)| (*k, *p))
}

/// Relies on `PriorityQueue::pop`: an item with the greatest priority is taken
/// out and returned; `None` when the queue is empty.
#[verifier::external_body]
pub(crate) fn queue_pop(q: &mut MatchQueue) -> (r: Option<(MatchKey, i64)>)
    ensures
        r is None <==> queue_entries(*old(q)).dom() == Set::<MatchKey>::empty(),
        r is None ==> queue_entries(*final(q)) == queue_entries(*old(q)),
        r matches Some((k, p)) ==> queue_entries(*old(q)).contains_key(k)
            && queue_entries(*old(q))[k] == p
            && queue_entries(*final(q)) == queue_entries(*old(q)).remove(k),
        r matches Some((k, p)) ==> forall|j: MatchKey| #[trigger]
            queue_entries(*old(q)).contains_key(j) ==> queue_entries(*old(q))[j] <= p,
{
    q.pop()
}

/// Relies on `PriorityQueue::clear`: no item is left.
#[verifier::external_body]
pub(crate) fn queue_clear(q: &mut MatchQueue)
    ensures
        queue_entries(*final(q)) == no_entries(),
{
    q.clear();
}

} // verus!
