//! The bounded queue of pending tasks.
//!
//! The queue is `crossbeam_queue::ArrayQueue`, whose methods take it by
//! shared reference so that threads can share it. Here one owner holds it and
//! changes it through `&mut`, so that a contract can tell the queue before a
//! call from the queue after it, and nothing changes it in between.

use crate::task::{Task, TaskView};
use crossbeam_queue::ArrayQueue;
use vstd::prelude::*;

verus! {

/// `crossbeam_queue::ArrayQueue`, of which nothing is known but what the
/// functions below say.
#[verifier::external_type_specification]
#[verifier::external_body]
#[verifier::reject_recursive_types(T)]
pub struct ExArrayQueue<T>(ArrayQueue<T>);

/// The tasks that wait in the queue, the oldest first.
pub uninterp spec fn waiting(q: ArrayQueue<Task>) -> Seq<TaskView>;

/// The number of tasks that the queue was made to hold.
pub uninterp spec fn room(q: ArrayQueue<Task>) -> nat;

/// `ArrayQueue::new` makes an empty queue for `cap` tasks. It panics on a
/// capacity of zero and on one so large that its lap counter overflows,
/// which no capacity up to `isize::MAX` does.
#[verifier::external_body]
pub(crate) fn queue_new(cap: usize) -> (q: ArrayQueue<Task>)
    requires
        0 < cap <= isize::MAX,
    ensures
        waiting(q) == Seq::<TaskView>::empty(),
        room(q) == cap,
{
    ArrayQueue::new(cap)
}

/// `ArrayQueue::push` puts the task at the tail, or hands it back when the
/// queue is full. The queue's capacity never changes.
#[verifier::external_body]
pub(crate) fn queue_push(q: &mut ArrayQueue<Task>, task: Task) -> (r: Result<(), Task>)
    ensures
        room(*final(q)) == room(*old(q)),
        r is Ok <==> waiting(*old(q)).len() < room(*old(q)),
        r is Ok ==> waiting(*final(q)) == waiting(*old(q)).push(task@),
        r is Err ==> r->Err_0 == task && waiting(*final(q)) == waiting(*old(q)),
{
    q.push(task)
}

/// `ArrayQueue::pop` takes the task at the head, the oldest, or returns
/// `None` when the queue is empty.
#[verifier::external_body]
pub(crate) fn queue_pop(q: &mut ArrayQueue<Task>) -> (r: Option<Task>)
    ensures
        room(*final(q)) == room(*old(q)),
        r is Some <==> waiting(*old(q)).len() > 0,
        r is Some ==> r->0@ == waiting(*old(q))[0],
        r is Some ==> waiting(*final(q)) == waiting(*old(q)).skip(1),
        r is None ==> waiting(*final(q)) == waiting(*old(q)),
{
    q.pop()
}

/// `ArrayQueue::is_empty` tells whether no task waits.
#[verifier::external_body]
pub(crate) fn queue_is_empty(q: &ArrayQueue<Task>) -> (b: bool)
    ensures
        b == (waiting(*q).len() == 0),
{
    q.is_empty()
}

/// `ArrayQueue::len` counts the tasks that wait.
#[verifier::external_body]
pub(crate) fn queue_len(q: &ArrayQueue<Task>) -> (n: usize)
    ensures
        n == waiting(*q).len(),
{
    q.len()
}

} // verus!
