//! The task queue of a fixed pool of workers. The queue decides what a
//! worker does next; running the workers is left to the caller.

use std::collections::VecDeque;
use vstd::prelude::*;

verus! {

/// Why the pool refused a request.
#[derive(Clone, Copy, Debug, PartialEq, Eq, Structural)]
pub enum PoolError {
    /// A pool needs at least one worker.
    NoWorkers,
    /// The pool was shut down and takes no more tasks.
    Closed,
}

impl PoolError {
    /// The failure in words.
    pub fn message(&self) -> (text: &'static str)
        ensures
            text@ == match *self {
                PoolError::NoWorkers => "a pool needs at least one worker"@,
                PoolError::Closed => "pool closed"@,
            },
    {
        match self {
            PoolError::NoWorkers => "a pool needs at least one worker",
            PoolError::Closed => "pool closed",
        }
    }
}

/// What a worker does next.
#[derive(Debug)]
pub enum WorkerStep<T> {
    /// A task to run; the worker asks again when it has run.
    Run(T),
    /// Nothing is queued: wait for a task or for the shutdown.
    Wait,
    /// The pool was shut down and the queue is drained: stop.
    Exit,
}

/// A queue as the contracts see it: the tasks that wait, oldest first, and
/// whether the pool was shut down.
pub struct QueueState<T> {
    pub pending: Seq<T>,
    pub closed: bool,
}

/// The queue after `task` is submitted: an open queue takes it at its end,
/// a closed one stays as it is.
pub open spec fn submit_to<T>(state: QueueState<T>, task: T) -> QueueState<T> {
    if state.closed {
        state
    } else {
        QueueState { pending: state.pending.push(task), closed: false }
    }
}

/// The queue after each of `tasks` is submitted, in order.
pub open spec fn submit_all<T>(state: QueueState<T>, tasks: Seq<T>) -> QueueState<T>
    decreases tasks.len(),
{
    if tasks.len() == 0 {
        state
    } else {
        submit_to(submit_all(state, tasks.drop_last()), tasks.last())
    }
}

/// What the next worker to ask is told.
pub open spec fn step_of<T>(state: QueueState<T>) -> WorkerStep<T> {
    if state.pending.len() > 0 {
        WorkerStep::Run(state.pending[0])
    } else if state.closed {
        WorkerStep::Exit
    } else {
        WorkerStep::Wait
    }
}

/// The queue after a worker asked: the task that it was given has left.
pub open spec fn after_step<T>(state: QueueState<T>) -> QueueState<T> {
    if state.pending.len() > 0 {
        QueueState { pending: state.pending.drop_first(), closed: state.closed }
    } else {
        state
    }
}

/// The tasks that workers are given when they ask `asks` times in all, in
/// the order in which they are given.
pub open spec fn handed_out<T>(state: QueueState<T>, asks: nat) -> Seq<T>
    decreases asks,
{
    if asks == 0 {
        Seq::empty()
    } else {
        match step_of(state) {
            WorkerStep::Run(task) => seq![task] + handed_out(
                after_step(state),
                (asks - 1) as nat,
            ),
            _ => handed_out(after_step(state), (asks - 1) as nat),
        }
    }
}

/// The queue that the workers of a pool share.
pub struct TaskQueue<T> {
    pending: VecDeque<T>,
    closed: bool,
    workers: u8,
}

impl<T> View for TaskQueue<T> {
    type V = QueueState<T>;

    closed spec fn view(&self) -> QueueState<T> {
        QueueState { pending: self.pending@, closed: self.closed }
    }
}

impl<T> TaskQueue<T> {
    /// The number of workers that the pool was made for.
    pub closed spec fn worker_count(self) -> u8 {
        self.workers
    }

    /// An open, empty queue for a pool of `num_workers` workers. A pool
    /// without workers is refused.
    pub fn new(num_workers: u8) -> (made: Result<Self, PoolError>)
        ensures
            match made {
                Ok(queue) => num_workers > 0 && queue.worker_count() == num_workers && queue@
                    == (QueueState { pending: Seq::<T>::empty(), closed: false }),
                Err(e) => num_workers == 0 && e == PoolError::NoWorkers,
            },
    {
        if num_workers == 0 {
            return Err(PoolError::NoWorkers);
        }
        Ok(TaskQueue { pending: VecDeque::new(), closed: false, workers: num_workers })
    }

    /// The number of workers that the pool was made for.
    pub fn workers(&self) -> (count: u8)
        ensures
            count == self.worker_count(),
    {
        self.workers
    }

    /// Queues `task` behind those that wait. A closed queue refuses it and
    /// stays as it is.
    pub fn submit(&mut self, task: T) -> (taken: Result<(), PoolError>)
        ensures
            final(self)@ == submit_to(old(self)@, task),
            final(self).worker_count() == old(self).worker_count(),
            match taken {
                Ok(_) => !old(self)@.closed,
                Err(e) => old(self)@.closed && e == PoolError::Closed,
            },
    {
        if self.closed {
            return Err(PoolError::Closed);
        }
        self.pending.push_back(task);
        Ok(())
    }

    /// Shuts the pool down: no task is taken from now on, and the tasks that
    /// wait are still handed out.
    pub fn close(&mut self)
        ensures
            final(self)@ == (QueueState { pending: old(self)@.pending, closed: true }),
            final(self).worker_count() == old(self).worker_count(),
    {
        self.closed = true;
    }

    /// Tells a worker what to do next, and takes the task that it is given
    /// off the queue.
    pub fn next(&mut self) -> (step: WorkerStep<T>)
        ensures
            step == step_of(old(self)@),
            final(self)@ == after_step(old(self)@),
            final(self).worker_count() == old(self).worker_count(),
    {
        match self.pending.pop_front() {
            Some(task) => {
                assert(self.pending@ == old(self).pending@.drop_first());
                WorkerStep::Run(task)
            },
            None => if self.closed {
                WorkerStep::Exit
            } else {
                WorkerStep::Wait
            },
        }
    }
}

/// Submitting to an open queue leaves it open, with the tasks at its end in
/// the order in which they came.
pub proof fn lemma_submit_all<T>(state: QueueState<T>, tasks: Seq<T>)
    requires
        !state.closed,
    ensures
        submit_all(state, tasks) == (QueueState {
            pending: state.pending + tasks,
            closed: false,
        }),
    decreases tasks.len(),
{
    if tasks.len() == 0 {
        assert(state.pending + tasks == state.pending);
    } else {
        lemma_submit_all(state, tasks.drop_last());
        assert((state.pending + tasks.drop_last()).push(tasks.last()) == state.pending + tasks);
    }
}

/// However often the workers ask, they are given the first tasks of the
/// queue in order, each once, and no task that is not queued.
pub proof fn lemma_handed_out<T>(state: QueueState<T>, asks: nat)
    ensures
        handed_out(state, asks) == if asks <= state.pending.len() {
            state.pending.take(asks as int)
        } else {
            state.pending
        },
    decreases asks,
{
    if asks > 0 {
        lemma_handed_out(after_step(state), (asks - 1) as nat);
        if state.pending.len() > 0 {
            let rest = state.pending.drop_first();
            if asks <= state.pending.len() {
                assert(seq![state.pending[0]] + rest.take(asks - 1) == state.pending.take(
                    asks as int,
                ));
            } else {
                assert(seq![state.pending[0]] + rest == state.pending);
            }
        } else {
            assert(state.pending.take(0) == state.pending);
        }
    } else {
        assert(state.pending.take(0) == Seq::<T>::empty());
    }
}

/// Every task runs exactly once: of the tasks submitted to an open queue,
/// the workers are given each one once, in the order of submission, behind
/// the tasks that waited before, as soon as they have asked often enough;
/// asking more often hands out nothing more.
pub proof fn lemma_exactly_once<T>(state: QueueState<T>, tasks: Seq<T>, asks: nat)
    requires
        !state.closed,
        asks >= state.pending.len() + tasks.len(),
    ensures
        handed_out(submit_all(state, tasks), asks) == state.pending + tasks,
{
    lemma_submit_all(state, tasks);
    lemma_handed_out(submit_all(state, tasks), asks);
    let all = state.pending + tasks;
    assert(all.take(all.len() as int) == all);
}

/// A shutdown loses no task: what waited when the pool was shut down is
/// still handed out, and then the workers are told to stop.
pub proof fn lemma_close_drains<T>(state: QueueState<T>, asks: nat)
    requires
        asks >= state.pending.len(),
    ensures
        handed_out(QueueState { pending: state.pending, closed: true }, asks) == state.pending,
        step_of(QueueState { pending: Seq::<T>::empty(), closed: true }) == WorkerStep::<T>::Exit,
{
    let shut = QueueState { pending: state.pending, closed: true };
    lemma_handed_out(shut, asks);
    assert(shut.pending.take(shut.pending.len() as int) == shut.pending);
}

} // verus!
