//! The queue of pending active pairs.
//!
//! The queue is `crossbeam_queue::SegQueue`. Verus does not look inside it:
//! what it holds is named by [`queue_items`], and the functions below state
//! what `new`, `push` and `pop` do to that sequence when the caller has the
//! queue to itself.
use crossbeam_queue::SegQueue;
use vstd::prelude::*;

verus! {

/// `crossbeam_queue::SegQueue`, of which nothing but the functions below is
/// known here.
#[verifier::external_type_specification]
#[verifier::external_body]
#[verifier::reject_recursive_types(T)]
pub struct ExSegQueue<T>(SegQueue<T>);

/// The pairs that wait in the queue, oldest first.
pub uninterp spec fn queue_items(q: SegQueue<(usize, usize)>) -> Seq<(usize, usize)>;

/// `SegQueue::new`: the new queue is empty.
#[verifier::external_body]
pub(crate) fn queue_new() -> (q: SegQueue<(usize, usize)>)
    ensures
        queue_items(q) == Seq::<(usize, usize)>::empty(),
{
    SegQueue::new()
}

/// `SegQueue::push`: the pair is appended behind everything already queued.
#[verifier::external_body]
pub(crate) fn queue_push(q: &mut SegQueue<(usize, usize)>, pair: (usize, usize))
    ensures
        queue_items(*final(q)) == queue_items(*old(q)).push(pair),
{
    q.push(pair)
}

/// `SegQueue::pop`: an empty queue gives `None` and stays empty; otherwise
/// the oldest pair leaves the queue and is returned.
#[verifier::external_body]
pub(crate) fn queue_pop(q: &mut SegQueue<(usize, usize)>) -> (r: Option<(usize, usize)>)
    ensures
        match r {
            None => queue_items(*old(q)).len() == 0 && queue_items(*final(q)) == queue_items(
                *old(q),
            ),
            Some(pair) => queue_items(*old(q)).len() > 0 && pair == queue_items(*old(q)).first()
                && queue_items(*final(q)) == queue_items(*old(q)).drop_first(),
        },
{
    q.pop()
}

} // verus!
