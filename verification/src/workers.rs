//! The task store of a worker pool: posted tasks wait on a stack, and an
//! idle worker takes the one posted last.
use vstd::prelude::*;

verus! {

/// Tasks waiting for a worker, the one posted last on top.
pub struct TaskStack<T> {
    tasks: Vec<T>,
}

impl<T> View for TaskStack<T> {
    type V = Seq<T>;

    /// The waiting tasks, in the order they were posted.
    closed spec fn view(&self) -> Seq<T> {
        self.tasks@
    }
}

impl<T> TaskStack<T> {
    /// An empty stack.
    pub fn new() -> (s: Self)
        ensures
            s@ == Seq::<T>::empty(),
    {
        TaskStack { tasks: Vec::new() }
    }

    /// Posts `task`: it now waits on top of the others.
    pub fn post(&mut self, task: T)
        ensures
            final(self)@ == old(self)@.push(task),
    {
        self.tasks.push(task);
    }

    /// Takes the task posted last, if any task waits.
    pub fn take(&mut self) -> (r: Option<T>)
        ensures
            old(self)@.len() == 0 ==> r is None && final(self)@ == old(self)@,
            old(self)@.len() > 0 ==> r == Some(old(self)@.last()) && final(self)@ == old(
                self,
            )@.drop_last(),
    {
        self.tasks.pop()
    }

    /// How many tasks wait.
    pub fn len(&self) -> (r: usize)
        ensures
            r == self@.len(),
    {
        self.tasks.len()
    }
}

/// Taking right after posting gives back the task just posted and leaves
/// the stack as it was.
pub proof fn lemma_take_after_post<T>(waiting: Seq<T>, task: T)
    ensures
        waiting.push(task).len() > 0,
        waiting.push(task).last() == task,
        waiting.push(task).drop_last() == waiting,
{
    assert(waiting.push(task).drop_last() =~= waiting);
}

/// Of two tasks posted while neither has been taken, the one posted
/// second is taken first, then the one posted first, and the stack is left
/// as it was before both.
pub proof fn lemma_last_posted_first_taken<T>(waiting: Seq<T>, first: T, second: T)
    ensures
        waiting.push(first).push(second).last() == second,
        waiting.push(first).push(second).drop_last().last() == first,
        waiting.push(first).push(second).drop_last().drop_last() == waiting,
{
    lemma_take_after_post(waiting.push(first), second);
    lemma_take_after_post(waiting, first);
}

} // verus!
