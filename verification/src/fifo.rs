//! The first-in first-out queue of the flood fill, kept in a `queues::Queue`.

use vstd::prelude::*;
use queues::{IsQueue, Queue};
use crate::board::Coordinate;

verus! {

/// A square together with its distance from the nearest source.
#[derive(Copy, Clone, PartialEq, Eq, Structural, Debug)]
pub struct CoordinateDistance {
    pub coord: Coordinate,
    pub distance: i8,
}

/// `queues::Queue`, a growable first-in first-out queue. Nothing is known
/// of its inside; what it holds is named by `queue_items`.
#[verifier::external_type_specification]
#[verifier::external_body]
#[verifier::reject_recursive_types(T)]
pub struct ExQueue<T: Clone>(Queue<T>);

/// What a queue holds, oldest element first.
pub uninterp spec fn queue_items(q: Queue<CoordinateDistance>) -> Seq<CoordinateDistance>;

/// `queues::Queue::new`: trusted to return a queue that holds nothing.
#[verifier::external_body]
pub(crate) fn queue_new() -> (q: Queue<CoordinateDistance>)
    ensures
        queue_items(q) == Seq::<CoordinateDistance>::empty(),
{
    Queue::new()
}

/// `queues::Queue::add`: trusted to put `item` behind all the elements that
/// the queue holds, and to leave those as they are. The crate's own result,
/// which is always `Ok(None)`, is dropped.
#[verifier::external_body]
pub(crate) fn queue_add(q: &mut Queue<CoordinateDistance>, item: CoordinateDistance)
    ensures
        queue_items(*final(q)) == queue_items(*old(q)).push(item),
{
    let _ = q.add(item);
}

/// `queues::Queue::remove`: trusted to take out and return the oldest
/// element, and to return nothing and change nothing when the queue is empty
/// (the crate's error for that case becomes `None`).
#[verifier::external_body]
pub(crate) fn queue_remove(q: &mut Queue<CoordinateDistance>) -> (item: Option<CoordinateDistance>)
    ensures
        match item {
            Some(first) => queue_items(*old(q)).len() > 0 && first == queue_items(*old(q))[0]
                && queue_items(*final(q)) == queue_items(*old(q)).drop_first(),
            None => queue_items(*old(q)).len() == 0 && queue_items(*final(q)) == queue_items(
                *old(q),
            ),
        },
{
    q.remove().ok()
}

/// `queues::Queue::size`: trusted to return the number of elements held.
#[verifier::external_body]
pub(crate) fn queue_size(q: &Queue<CoordinateDistance>) -> (n: usize)
    ensures
        n == queue_items(*q).len(),
{
    q.size()
}

} // verus!
