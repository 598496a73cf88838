//! A round robin scheduler of tasks. Polling a task is the caller's work:
//! each turn of `Scheduler::run` takes how the last poll ended and hands
//! out the next task to poll.
use vstd::prelude::*;

use std::collections::VecDeque;

use crate::kcore::kalloc::SharedAllocator;

verus! {

/// A task, kept with the allocator it lives in.
pub struct Task<T, A> {
    pub task: T,
    pub alloc: SharedAllocator<A>,
}

impl<T, A> Task<T, A> {
    pub fn new(task: T, alloc: SharedAllocator<A>) -> (r: Self)
        ensures
            r.task == task,
            r.alloc == alloc,
    {
        Task { task, alloc }
    }
}

/// How polling a task ended.
#[derive(Clone, Copy, PartialEq, Eq, Structural, Debug)]
pub enum Poll {
    /// The task is done.
    Ready,
    /// The task waits for something and is to be polled again.
    Pending,
}

/// Tasks waiting to be polled, first in first out, and the allocator new
/// tasks live in.
pub struct Scheduler<T, A> {
    tasks: VecDeque<Task<T, A>>,
    alloc: SharedAllocator<A>,
}

impl<T, A> Scheduler<T, A> {
    /// The tasks, in the order they will be polled.
    pub closed spec fn spec_tasks(&self) -> Seq<Task<T, A>> {
        self.tasks@
    }

    /// The allocator new tasks live in.
    pub closed spec fn spec_alloc(&self) -> A {
        self.alloc.spec_inner()
    }

    pub fn new(alloc: A) -> (r: Self)
        ensures
            r.spec_tasks() == Seq::<Task<T, A>>::empty(),
            r.spec_alloc() == alloc,
    {
        Scheduler { tasks: VecDeque::new(), alloc: SharedAllocator::new(alloc) }
    }

    /// Queues `task` behind the others, living in the scheduler's shared
    /// allocator.
    pub fn spawn(&mut self, task: T)
        ensures
            final(self).spec_tasks().len() == old(self).spec_tasks().len() + 1,
            final(self).spec_tasks().take(old(self).spec_tasks().len() as int) == old(self).spec_tasks(),
            final(self).spec_tasks().last().task == task,
            final(self).spec_tasks().last().alloc.spec_inner() == old(self).spec_alloc(),
            final(self).spec_alloc() == old(self).spec_alloc(),
    {
        let t = Task::new(task, self.alloc.clone());
        self.tasks.push_back(t);
        proof {
            assert(self.tasks@.take(old(self).tasks@.len() as int) =~= old(self).tasks@);
        }
    }

    /// One turn of the run loop: the task polled last goes to the back of
    /// the queue if it is still pending, and the task at the front is taken
    /// to be polled next; `None` once no task is left.
    pub fn run(&mut self, polled: Option<(Task<T, A>, Poll)>) -> (r: Option<Task<T, A>>)
        ensures
            final(self).spec_alloc() == old(self).spec_alloc(),
            ({
                let queue = match polled {
                    Some((t, Poll::Pending)) => old(self).spec_tasks().push(t),
                    _ => old(self).spec_tasks(),
                };
                if queue.len() == 0 {
                    r is None && final(self).spec_tasks() == queue
                } else {
                    r == Some(queue[0]) && final(self).spec_tasks() == queue.drop_first()
                }
            }),
    {
        match polled {
            Some((t, Poll::Pending)) => {
                self.tasks.push_back(t);
            },
            _ => {},
        }
        self.tasks.pop_front()
    }
}

} // verus!
