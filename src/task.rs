//! The queue of the simple executor: tasks are polled in the order they were
//! spawned, and a task that is still pending goes to the back of the queue.
//! Polling itself happens where the futures live; this module decides what is
//! polled next.

use std::collections::VecDeque;
use vstd::prelude::*;

verus! {

pub struct SimpleExecutor<T> {
    task_queue: VecDeque<T>,
}

impl<T> SimpleExecutor<T> {
    /// The tasks waiting to be polled, front first.
    pub closed spec fn queue(&self) -> Seq<T> {
        self.task_queue@
    }

    pub fn new() -> (r: Self)
        ensures
            r.queue() == Seq::<T>::empty(),
    {
        SimpleExecutor { task_queue: VecDeque::new() }
    }

    /// Adds a task at the back of the queue.
    pub fn spawn(&mut self, task: T)
        ensures
            final(self).queue() == old(self).queue().push(task),
    {
        self.task_queue.push_back(task);
    }

    /// Takes the task at the front of the queue, the next one to poll.
    pub fn next_task(&mut self) -> (r: Option<T>)
        ensures
            old(self).queue().len() == 0 ==> r is None && final(self).queue() == old(self).queue(),
            old(self).queue().len() > 0 ==> r == Some(old(self).queue()[0]) && final(self).queue()
                == old(self).queue().drop_first(),
    {
        self.task_queue.pop_front()
    }

    /// Takes back a task that was just polled: a finished one is dropped, a
    /// pending one goes to the back of the queue.
    pub fn requeue(&mut self, task: T, finished: bool)
        ensures
            final(self).queue() == if finished {
                old(self).queue()
            } else {
                old(self).queue().push(task)
            },
    {
        if !finished {
            self.task_queue.push_back(task);
        }
    }

    pub fn is_empty(&self) -> (r: bool)
        ensures
            r == (self.queue().len() == 0),
    {
        self.task_queue.len() == 0
    }
}

} // verus!
