//! The queue of scancodes between the keyboard interrupt and its reader.
use vstd::prelude::*;

use crossbeam_queue::ArrayQueue;
use futures_util::task::AtomicWaker;

verus! {

#[verifier::external_type_specification]
#[verifier::external_body]
#[verifier::reject_recursive_types(T)]
pub struct ExArrayQueue<T>(ArrayQueue<T>);

#[verifier::external_type_specification]
#[verifier::external_body]
pub struct ExAtomicWaker(AtomicWaker);

/// The bytes a queue holds, oldest first.
pub uninterp spec fn queue_items(q: ArrayQueue<u8>) -> Seq<u8>;

/// How many bytes a queue can hold.
pub uninterp spec fn queue_capacity(q: ArrayQueue<u8>) -> nat;

/// `ArrayQueue::new`: an empty queue of the given capacity. It panics on
/// a capacity of zero or one too large to count laps with.
#[verifier::external_body]
fn queue_new(cap: usize) -> (r: ArrayQueue<u8>)
    requires
        0 < cap <= isize::MAX,
    ensures
        queue_items(r) == Seq::<u8>::empty() && queue_capacity(r) == cap,
{
    ArrayQueue::new(cap)
}

/// `ArrayQueue::push`: appends `value` where the queue is not full, and
/// hands it back where it is.
#[verifier::external_body]
fn queue_push(q: &mut ArrayQueue<u8>, value: u8) -> (r: Result<(), u8>)
    ensures
        queue_capacity(*final(q)) == queue_capacity(*old(q)) && match r {
            Ok(()) => queue_items(*old(q)).len() < queue_capacity(*old(q))
                && queue_items(*final(q)) == queue_items(*old(q)).push(value),
            Err(v) => v == value && queue_items(*old(q)).len() >= queue_capacity(*old(q))
                && queue_items(*final(q)) == queue_items(*old(q)),
        },
{
    q.push(value)
}

/// `ArrayQueue::pop`: takes the oldest byte, or `None` from an empty queue.
#[verifier::external_body]
fn queue_pop(q: &mut ArrayQueue<u8>) -> (r: Option<u8>)
    ensures
        queue_capacity(*final(q)) == queue_capacity(*old(q)) && match r {
            None => queue_items(*old(q)).len() == 0 && queue_items(*final(q)) == queue_items(*old(q)),
            Some(v) => queue_items(*old(q)).len() > 0 && v == queue_items(*old(q))[0]
                && queue_items(*final(q)) == queue_items(*old(q)).drop_first(),
        },
{
    q.pop()
}

/// `ArrayQueue::len`: the number of bytes in the queue.
#[verifier::external_body]
fn queue_len(q: &ArrayQueue<u8>) -> (r: usize)
    ensures
        r == queue_items(*q).len(),
{
    q.len()
}

/// `AtomicWaker::new`: no task is registered yet.
#[verifier::external_body]
fn waker_new() -> (r: AtomicWaker) {
    AtomicWaker::new()
}

/// `AtomicWaker::wake`: wakes the task registered, if there is one.
#[verifier::external_body]
fn waker_wake(w: &AtomicWaker) {
    w.wake()
}

/// Scancodes the keyboard sent that nobody has read yet.
pub const QUEUE_CAPACITY: usize = 4;

/// The keyboard's scancode queue, and the task waiting for it.
pub struct Keyboard {
    queue: ArrayQueue<u8>,
    waker: AtomicWaker,
}

impl Keyboard {
    /// The scancodes queued, oldest first.
    pub closed spec fn spec_queue(&self) -> Seq<u8> {
        queue_items(self.queue)
    }

    /// The waker the reader registers with.
    pub closed spec fn spec_waker(&self) -> AtomicWaker {
        self.waker
    }

    pub closed spec fn wf(&self) -> bool {
        &&& queue_capacity(self.queue) == QUEUE_CAPACITY
        &&& queue_items(self.queue).len() <= QUEUE_CAPACITY
    }

    pub fn new() -> (r: Self)
        ensures
            r.wf(),
            r.spec_queue() == Seq::<u8>::empty(),
    {
        Keyboard { queue: queue_new(QUEUE_CAPACITY), waker: waker_new() }
    }

    /// Queues a scancode and wakes the reader; the queue must have room.
    pub fn add_value(&mut self, value: u8)
        requires
            old(self).wf(),
            old(self).spec_queue().len() < QUEUE_CAPACITY,
        ensures
            final(self).wf(),
            final(self).spec_queue() == old(self).spec_queue().push(value),
    {
        let r = queue_push(&mut self.queue, value);
        waker_wake(&self.waker);
    }

    /// The oldest scancode, taken off the queue.
    pub fn read_value(&mut self) -> (r: Option<u8>)
        requires
            old(self).wf(),
        ensures
            final(self).wf(),
            old(self).spec_queue().len() == 0 ==> r is None && final(self).spec_queue() == old(self).spec_queue(),
            old(self).spec_queue().len() > 0 ==> r == Some(old(self).spec_queue()[0])
                && final(self).spec_queue() == old(self).spec_queue().drop_first(),
    {
        queue_pop(&mut self.queue)
    }

    /// The task waiting for a scancode, to register with.
    pub fn waker(&self) -> (r: &AtomicWaker)
        ensures
            *r == self.spec_waker(),
    {
        &self.waker
    }

    /// How many scancodes are queued.
    pub fn len(&self) -> (r: usize)
        ensures
            r == self.spec_queue().len(),
    {
        queue_len(&self.queue)
    }
}

} // verus!
