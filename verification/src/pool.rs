//! The pool of workers around one bounded queue, as the steps that its
//! threads take. Each step runs to its end without waiting; starting the
//! threads, putting them to sleep and waking them is the caller's part.

use vstd::prelude::*;
use crate::queue::{QueueState, TaskQueue, ThreadStatus};
use crate::task::Task;

verus! {

/// The handle that a submission returns. It names the completion flag of the
/// submitted unit of work.
#[derive(Clone, Copy, Debug, PartialEq, Eq, Structural)]
pub struct Future {
    ticket: usize,
}

/// How a submission ended.
pub enum Submission<H> {
    /// The unit of work is queued; the handle awaits it.
    Accepted(Future),
    /// The queue is full. Nothing changed, and the handler comes back: the
    /// caller waits for room and submits again.
    NoRoom(H),
    /// The pool was shut down. Nothing was queued.
    Interrupted(ThreadStatus),
}

/// What a worker does after one round.
pub enum WorkerStep<H: Fn(usize)> {
    /// It ran this unit of work to its end, and reports it to the pool.
    Finished(Task<H>),
    /// There was nothing to take: it sleeps until work arrives.
    Idle,
    /// The queue was shut down: its thread ends with this exit code.
    Exit(u32),
}

/// One worker of a pool.
#[derive(Clone, Copy, Debug, PartialEq, Eq, Structural)]
pub struct Worker {
    id: usize,
    is_running: bool,
}

impl Worker {
    pub closed spec fn id(self) -> usize {
        self.id
    }

    /// The worker has not left its loop.
    pub closed spec fn running(self) -> bool {
        self.is_running
    }

    /// A worker that is about to enter its loop.
    pub fn new(id: usize) -> (worker: Worker)
        ensures
            worker.id() == id,
            worker.running(),
    {
        Worker { id, is_running: true }
    }

    /// One round of the worker's loop, given what the queue handed out. A unit
    /// of work is run to its end and reported as finished; on an empty queue
    /// the worker idles; on a shutdown it leaves the loop with exit code 0.
    pub fn run<H: Fn(usize)>(
        &mut self,
        fetched: Result<Option<Task<H>>, ThreadStatus>,
    ) -> (step: WorkerStep<H>)
        ensures
            final(self).id() == old(self).id(),
            final(self).running() == (old(self).running() && fetched.is_ok()),
            match fetched {
                Ok(Some(task)) => step matches WorkerStep::Finished(finished) && {
                    &&& finished.done()
                    &&& finished.handler() == task.handler()
                    &&& finished.param() == task.param()
                    &&& finished.ticket() == task.ticket()
                    &&& call_ensures(task.handler(), (task.param(),), ())
                },
                Ok(None) => step is Idle,
                Err(_) => step == WorkerStep::<H>::Exit(0),
            },
    {
        match fetched {
            Ok(Some(task)) => {
                let mut task = task;
                task.invoke();
                WorkerStep::Finished(task)
            },
            Ok(None) => WorkerStep::Idle,
            Err(_) => {
                self.is_running = false;
                WorkerStep::Exit(0)
            },
        }
    }

    pub fn get_id(&self) -> (id: usize)
        ensures
            id == self.id(),
    {
        self.id
    }

    pub fn is_running(&self) -> (running: bool)
        ensures
            running == self.running(),
    {
        self.is_running
    }
}

/// A pool: its workers, its queue, and one completion flag for every unit of
/// work that was ever accepted. A unit's ticket is the number of its flag.
pub struct ThreadPool<H: Fn(usize)> {
    workers: Vec<Worker>,
    queue: TaskQueue<H>,
    flags: Vec<bool>,
    issued: Ghost<Seq<(H, usize)>>,
}

impl<H: Fn(usize)> ThreadPool<H> {
    /// The queue of pending work.
    pub closed spec fn pending(self) -> QueueState<Task<H>> {
        self.queue@
    }

    /// The completion flags, by ticket.
    pub closed spec fn flags(self) -> Seq<bool> {
        self.flags@
    }

    /// The handler and the parameter of every accepted unit of work, by ticket.
    pub closed spec fn issued(self) -> Seq<(H, usize)> {
        self.issued@
    }

    /// The workers, in the order of their numbers.
    pub closed spec fn workers(self) -> Seq<Worker> {
        self.workers@
    }

    /// The number of workers.
    pub open spec fn worker_count(self) -> nat {
        self.workers().len()
    }

    /// `task` is a unit of work that this pool accepted.
    pub open spec fn knows(self, task: Task<H>) -> bool {
        &&& task.ticket() < self.issued().len()
        &&& self.issued()[task.ticket() as int] == (task.handler(), task.param())
    }

    /// The queue is within its bounds; every accepted unit has a flag; each
    /// queued unit is one that the pool accepted; and a flag is up only when
    /// the handler of its unit has returned.
    pub open spec fn wf(self) -> bool {
        &&& self.pending().wf()
        &&& self.flags().len() == self.issued().len()
        &&& forall|i: int|
            0 <= i < self.pending().items.len() ==> self.knows(#[trigger] self.pending().items[i])
        &&& forall|t: int|
            0 <= t < self.flags().len() && #[trigger] self.flags()[t] ==> call_ensures(
                self.issued()[t].0,
                (self.issued()[t].1,),
                (),
            )
    }

    /// A pool with `worker_count` workers around an empty queue of `queue_size`
    /// slots.
    pub fn new(queue_size: usize, worker_count: usize) -> (pool: ThreadPool<H>)
        requires
            queue_size != 0,
        ensures
            pool.wf(),
            pool.pending().items.len() == 0,
            pool.pending().capacity == queue_size,
            !pool.pending().interrupted,
            pool.flags().len() == 0,
            pool.worker_count() == worker_count,
            forall|i: int|
                0 <= i < worker_count ==> {
                    &&& (#[trigger] pool.workers()[i]).id() == i
                    &&& pool.workers()[i].running()
                },
    {
        let queue = TaskQueue::new(queue_size);
        let mut workers: Vec<Worker> = Vec::with_capacity(worker_count);
        let mut id: usize = 0;
        while id < worker_count
            invariant
                workers.len() == id <= worker_count,
                forall|i: int|
                    0 <= i < id ==> {
                        &&& (#[trigger] workers@[i]).id() == i
                        &&& workers@[i].running()
                    },
            decreases worker_count - id,
        {
            workers.push(Worker::new(id));
            id += 1;
        }
        ThreadPool { workers, queue, flags: Vec::new(), issued: Ghost(Seq::empty()) }
    }

    /// One attempt to queue a unit of work. Where it is accepted, a new flag
    /// is lowered for it and the handle names that flag.
    pub fn submit(&mut self, handler: H, param: usize) -> (outcome: Submission<H>)
        requires
            old(self).wf(),
            call_requires(handler, (param,)),
        ensures
            final(self).wf(),
            final(self).workers() == old(self).workers(),
            old(self).pending().interrupted ==> {
                &&& outcome matches Submission::Interrupted(status)
                &&& status == ThreadStatus(crate::queue::INTERRUPTED)
                &&& final(self).pending() == old(self).pending()
                &&& final(self).flags() == old(self).flags()
                &&& final(self).issued() == old(self).issued()
            },
            old(self).pending().put_waits() ==> {
                &&& outcome matches Submission::NoRoom(back)
                &&& back == handler
                &&& final(self).pending() == old(self).pending()
                &&& final(self).flags() == old(self).flags()
                &&& final(self).issued() == old(self).issued()
            },
            !old(self).pending().interrupted && !old(self).pending().put_waits() ==> {
                &&& outcome matches Submission::Accepted(future)
                &&& future.ticket() == old(self).flags().len()
                &&& final(self).flags() == old(self).flags().push(false)
                &&& final(self).issued() == old(self).issued().push((handler, param))
                &&& final(self).pending().items.len() == old(self).pending().items.len() + 1
                &&& final(self).pending().items.drop_last() == old(self).pending().items
                &&& final(self).pending().items.last().handler() == handler
                &&& final(self).pending().items.last().param() == param
                &&& final(self).pending().items.last().ticket() == future.ticket()
                &&& !final(self).pending().items.last().done()
                &&& final(self).pending().capacity == old(self).pending().capacity
                &&& !final(self).pending().interrupted
            },
    {
        if self.queue.is_interrupted() {
            return Submission::Interrupted(ThreadStatus(crate::queue::INTERRUPTED));
        }
        if self.queue.get_size() == self.queue.capacity() {
            return Submission::NoRoom(handler);
        }
        let ticket = self.flags.len();
        let ghost before = *self;
        let task = Task::new(handler, param, ticket);
        let ghost queued = task;
        let _ = self.queue.put(task);
        self.flags.push(false);
        proof {
            self.issued@ = self.issued@.push((handler, param));
            assert(self.pending().items =~= before.pending().items.push(queued));
            assert(self.pending().items.drop_last() =~= before.pending().items);
            assert forall|i: int| 0 <= i < self.pending().items.len() implies self.knows(
                #[trigger] self.pending().items[i],
            ) by {
                if i < before.pending().items.len() {
                    assert(before.knows(before.pending().items[i]));
                }
            }
        }
        Submission::Accepted(Future { ticket })
    }

    /// Whether the queue is drained. In-flight work, taken from the queue and
    /// not yet reported, does not count.
    pub fn wait(&self) -> (drained: bool)
        ensures
            drained == (self.pending().items.len() == 0),
    {
        self.queue.get_size() == 0
    }

    /// One attempt of a worker to take a unit of work from the queue.
    pub fn fetch(&mut self) -> (fetched: Result<Option<Task<H>>, ThreadStatus>)
        requires
            old(self).wf(),
        ensures
            final(self).wf(),
            final(self).pending() == old(self).pending().after_get(),
            final(self).flags() == old(self).flags(),
            final(self).issued() == old(self).issued(),
            final(self).workers() == old(self).workers(),
            old(self).pending().interrupted <==> fetched == Err::<Option<Task<H>>, ThreadStatus>(
                ThreadStatus(crate::queue::INTERRUPTED),
            ),
            old(self).pending().get_waits() <==> fetched == Ok::<Option<Task<H>>, ThreadStatus>(
                None,
            ),
            !old(self).pending().interrupted && !old(self).pending().get_waits() <==> fetched
                == Ok::<Option<Task<H>>, ThreadStatus>(Some(old(self).pending().items.last())),
            fetched matches Ok(Some(task)) ==> old(self).knows(task),
    {
        let ghost before = *self;
        let fetched = self.queue.get();
        proof {
            assert forall|i: int| 0 <= i < self.pending().items.len() implies self.knows(
                #[trigger] self.pending().items[i],
            ) by {
                assert(before.knows(before.pending().items[i]));
            }
            if !before.pending().interrupted && !before.pending().get_waits() {
                assert(before.knows(before.pending().items[before.pending().items.len() - 1]));
            }
        }
        fetched
    }

    /// Takes the report of a finished unit of work and raises its flag.
    pub fn complete(&mut self, task: Task<H>)
        requires
            old(self).wf(),
            old(self).knows(task),
            task.done(),
        ensures
            final(self).wf(),
            final(self).flags() == old(self).flags().update(task.ticket() as int, true),
            final(self).pending() == old(self).pending(),
            final(self).issued() == old(self).issued(),
            final(self).workers() == old(self).workers(),
    {
        let ghost before = *self;
        let done = task.is_done();
        let ticket = task.get_ticket();
        self.flags.set(ticket, true);
        proof {
            assert forall|i: int| 0 <= i < self.pending().items.len() implies self.knows(
                #[trigger] self.pending().items[i],
            ) by {
                assert(before.knows(before.pending().items[i]));
            }
            assert forall|t: int| 0 <= t < self.flags().len() && #[trigger] self.flags()[t]
                implies call_ensures(self.issued()[t].0, (self.issued()[t].1,), ()) by {
                if t != ticket {
                    assert(before.flags()[t]);
                }
            }
        }
    }

    /// Runs one pending unit of work on the caller's own thread: takes it from
    /// the queue, calls its handler, and raises its flag. Returns whether there
    /// was one to run. A caller that finds the queue full, or waits for a
    /// handle, can go on by this without any worker being free.
    pub fn run_pending(&mut self) -> (ran: bool)
        requires
            old(self).wf(),
        ensures
            final(self).wf(),
            ran == (!old(self).pending().interrupted && old(self).pending().items.len() > 0),
            final(self).pending() == old(self).pending().after_get(),
            final(self).issued() == old(self).issued(),
            final(self).workers() == old(self).workers(),
            ran ==> {
                let task = old(self).pending().items.last();
                &&& final(self).flags() == old(self).flags().update(task.ticket() as int, true)
                &&& call_ensures(task.handler(), (task.param(),), ())
            },
            !ran ==> final(self).flags() == old(self).flags(),
    {
        match self.fetch() {
            Ok(Some(task)) => {
                let mut task = task;
                task.invoke();
                self.complete(task);
                true
            },
            _ => false,
        }
    }

    /// Shuts the queue down: every later submission and every later attempt
    /// to take work is turned away. The caller wakes all sleepers and joins
    /// the workers.
    pub fn shutdown(&mut self)
        requires
            old(self).wf(),
        ensures
            final(self).wf(),
            final(self).pending() == old(self).pending().after_shutdown(),
            final(self).flags() == old(self).flags(),
            final(self).issued() == old(self).issued(),
            final(self).workers() == old(self).workers(),
    {
        let ghost before = *self;
        self.queue.notify_all();
        proof {
            assert forall|i: int| 0 <= i < self.pending().items.len() implies self.knows(
                #[trigger] self.pending().items[i],
            ) by {
                assert(before.knows(before.pending().items[i]));
            }
        }
    }

    pub fn get_worker_count(&self) -> (count: usize)
        ensures
            count == self.worker_count(),
    {
        self.workers.len()
    }

    /// The worker with the number `index`, as the pool made it.
    pub fn worker(&self, index: usize) -> (worker: Option<Worker>)
        ensures
            worker == if index < self.worker_count() {
                Some(self.workers()[index as int])
            } else {
                None
            },
    {
        if index < self.workers.len() {
            Some(self.workers[index])
        } else {
            None
        }
    }
}

impl Future {
    /// The number of the completion flag that the handle names.
    pub closed spec fn ticket(self) -> usize {
        self.ticket
    }

    /// The flag that the handle names is raised in `pool`.
    pub open spec fn resolved<H: Fn(usize)>(self, pool: ThreadPool<H>) -> bool {
        self.ticket() < pool.flags().len() && pool.flags()[self.ticket() as int]
    }

    /// One look at the completion flag. The caller yields and looks again
    /// until it is raised. Once it is, the handler that was submitted for this
    /// handle has returned.
    pub fn get<H: Fn(usize)>(&self, pool: &ThreadPool<H>) -> (done: bool)
        requires
            pool.wf(),
        ensures
            done == self.resolved(*pool),
            done ==> call_ensures(
                pool.issued()[self.ticket() as int].0,
                (pool.issued()[self.ticket() as int].1,),
                (),
            ),
    {
        self.ticket < pool.flags.len() && pool.flags[self.ticket]
    }
}

} // verus!
