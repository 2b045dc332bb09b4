use std::collections::VecDeque;
use vstd::prelude::*;

verus! {

/// A round-robin run queue: tasks are polled in the order they were spawned, and a task that is
/// not finished goes to the back of the queue.
pub struct SimpleExecutor<T> {
    queue: VecDeque<T>,
}

impl<T> View for SimpleExecutor<T> {
    type V = Seq<T>;

    closed spec fn view(&self) -> Seq<T> {
        self.queue@
    }
}

impl<T> SimpleExecutor<T> {
    /// An executor with no tasks.
    pub fn new() -> (r: Self)
        ensures
            r@ == Seq::<T>::empty(),
    {
        SimpleExecutor { queue: VecDeque::new() }
    }

    /// Puts `task` at the back of the queue.
    pub fn spawn(&mut self, task: T)
        ensures
            final(self)@ == old(self)@.push(task),
    {
        self.queue.push_back(task);
    }

    /// Takes the task at the front of the queue, the next one to poll.
    pub fn next_task(&mut self) -> (r: Option<T>)
        ensures
            old(self)@.len() == 0 ==> r is None && final(self)@ == old(self)@,
            old(self)@.len() > 0 ==> r == Some(old(self)@[0]) && final(self)@ == old(self)@.drop_first(),
    {
        self.queue.pop_front()
    }

    /// Settles a task that was just polled: a finished task is dropped, one still pending goes
    /// to the back of the queue.
    pub fn settle(&mut self, task: T, ready: bool)
        ensures
            ready ==> final(self)@ == old(self)@,
            !ready ==> final(self)@ == old(self)@.push(task),
    {
        if !ready {
            self.queue.push_back(task);
        }
    }
}

} // verus!
