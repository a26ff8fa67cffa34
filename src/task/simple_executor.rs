use vstd::prelude::*;

use std::collections::VecDeque;

verus! {

/// A first-in first-out queue of tasks, run one after the other. A task that
/// is not finished when polled goes back to the end of the queue.
pub struct SimpleExecutor<T> {
    task_queue: VecDeque<T>,
}

impl<T> SimpleExecutor<T> {
    /// The tasks waiting to be polled, the next one first.
    pub closed spec fn queue(&self) -> Seq<T> {
        self.task_queue@
    }

    /// Creates an executor with no task.
    pub fn new() -> (r: SimpleExecutor<T>)
        ensures
            r.queue() == Seq::<T>::empty(),
    {
        SimpleExecutor { task_queue: VecDeque::new() }
    }

    /// Adds a task at the end of the queue.
    pub fn spawn(&mut self, task: T)
        ensures
            final(self).queue() == old(self).queue().push(task),
    {
        self.task_queue.push_back(task)
    }

    /// Takes back a task after its poll: a finished task is dropped, a
    /// pending one goes to the end of the queue.
    pub fn polled(&mut self, task: T, finished: bool)
        ensures
            finished ==> final(self).queue() == old(self).queue(),
            !finished ==> final(self).queue() == old(self).queue().push(task),
    {
        if !finished {
            self.task_queue.push_back(task);
        }
    }

    /// Takes the next task to poll off the front of the queue; `None` when
    /// every task has finished. A task goes back with `polled` after its poll.
    pub fn next_task(&mut self) -> (r: Option<T>)
        ensures
            old(self).queue().len() == 0 ==> r is None && final(self).queue() == old(self).queue(),
            old(self).queue().len() > 0 ==> r == Some(old(self).queue()[0]) && final(self).queue()
                == old(self).queue().drop_first(),
    {
        self.task_queue.pop_front()
    }
}

} // verus!
