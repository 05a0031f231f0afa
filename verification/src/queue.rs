//! The bounded queue of pending work, as the steps that run under its lock.
//!
//! A step never waits. Where a caller would have to wait, the step changes
//! nothing and says so; the caller sleeps until it is woken and tries again.

use vstd::prelude::*;
use crate::task::Task;

verus! {

/// The status bit of a thread that was released by a shutdown.
pub const INTERRUPTED: usize = 1;

/// The status with which a thread leaves a queue that was shut down.
#[derive(Clone, Copy, Debug, PartialEq, Eq, Structural)]
pub struct ThreadStatus(pub usize);

/// What a queue holds, as a plain value.
pub struct QueueState<T> {
    /// The buffered items, oldest first.
    pub items: Seq<T>,
    /// The number of items that fit.
    pub capacity: nat,
    /// Whether the queue was shut down.
    pub interrupted: bool,
}

impl<T> QueueState<T> {
    /// The queue holds no more than fits, and at least one item fits.
    pub open spec fn wf(self) -> bool {
        0 < self.capacity && self.items.len() <= self.capacity
    }

    /// A producer has to wait: the queue is full and was not shut down.
    pub open spec fn put_waits(self) -> bool {
        !self.interrupted && self.items.len() == self.capacity
    }

    /// A consumer has to wait: the queue is empty and was not shut down.
    pub open spec fn get_waits(self) -> bool {
        !self.interrupted && self.items.len() == 0
    }

    /// The queue after `put`: the item is buffered where a producer neither
    /// waits nor is turned away.
    pub open spec fn after_put(self, item: T) -> QueueState<T> {
        if self.interrupted || self.put_waits() {
            self
        } else {
            QueueState { items: self.items.push(item), ..self }
        }
    }

    /// The queue after `get`: the newest item is gone where a consumer neither
    /// waits nor is turned away.
    pub open spec fn after_get(self) -> QueueState<T> {
        if self.interrupted || self.get_waits() {
            self
        } else {
            QueueState { items: self.items.drop_last(), ..self }
        }
    }

    /// The queue after a shutdown.
    pub open spec fn after_shutdown(self) -> QueueState<T> {
        QueueState { interrupted: true, ..self }
    }
}

/// Every step keeps the number of buffered items between zero and the capacity.
pub proof fn lemma_steps_keep_capacity<T>(state: QueueState<T>, item: T)
    requires
        state.wf(),
    ensures
        state.after_put(item).wf(),
        state.after_get().wf(),
        state.after_shutdown().wf(),
{
}

/// A producer that waits on a full queue goes on as soon as a consumer has
/// taken an item: the consumer's step does not wait, and after it the
/// producer's step buffers its item.
pub proof fn lemma_get_releases_put<T>(state: QueueState<T>, item: T)
    requires
        state.wf(),
        state.put_waits(),
    ensures
        !state.get_waits(),
        state.after_get().items.len() == state.capacity - 1,
        !state.after_get().put_waits(),
        state.after_get().after_put(item).items == state.after_get().items.push(item),
{
}

/// A consumer that waits on an empty queue goes on as soon as a producer has
/// buffered an item, and it takes that item.
pub proof fn lemma_put_releases_get<T>(state: QueueState<T>, item: T)
    requires
        state.wf(),
        state.get_waits(),
    ensures
        !state.put_waits(),
        !state.after_put(item).get_waits(),
        state.after_put(item).items.last() == item,
        state.after_put(item).after_get() == state,
{
    assert(state.items.push(item).drop_last() =~= state.items);
}

/// After a shutdown nobody waits and nothing moves, whatever steps follow: a
/// shut-down queue stays shut down and keeps its items.
pub proof fn lemma_shutdown_is_final<T>(state: QueueState<T>, item: T)
    ensures
        !state.after_shutdown().put_waits(),
        !state.after_shutdown().get_waits(),
        state.after_shutdown().after_put(item) == state.after_shutdown(),
        state.after_shutdown().after_get() == state.after_shutdown(),
        state.after_shutdown().after_shutdown() == state.after_shutdown(),
{
}

/// A queue of at most `capacity` pending units of work.
pub struct TaskQueue<H: Fn(usize)> {
    tasks: Vec<Task<H>>,
    capacity: usize,
    is_interrupted: bool,
}

impl<H: Fn(usize)> View for TaskQueue<H> {
    type V = QueueState<Task<H>>;

    closed spec fn view(&self) -> QueueState<Task<H>> {
        QueueState {
            items: self.tasks@,
            capacity: self.capacity as nat,
            interrupted: self.is_interrupted,
        }
    }
}

impl<H: Fn(usize)> TaskQueue<H> {
    /// An empty queue in which `size` units fit.
    pub fn new(size: usize) -> (queue: TaskQueue<H>)
        requires
            size != 0,
        ensures
            queue@.wf(),
            queue@.items.len() == 0,
            queue@.capacity == size,
            !queue@.interrupted,
    {
        TaskQueue { tasks: Vec::with_capacity(size), capacity: size, is_interrupted: false }
    }

    /// Shuts the queue down. The caller then wakes every waiting producer and
    /// consumer.
    pub fn notify_all(&mut self)
        ensures
            final(self)@ == old(self)@.after_shutdown(),
    {
        self.is_interrupted = true;
    }

    /// The number of buffered units.
    pub fn get_size(&self) -> (size: usize)
        ensures
            size == self@.items.len(),
            self@.wf() ==> size <= self@.capacity,
    {
        self.tasks.len()
    }

    /// The number of units that fit.
    pub fn capacity(&self) -> (capacity: usize)
        ensures
            capacity == self@.capacity,
    {
        self.capacity
    }

    /// Whether the queue was shut down.
    pub fn is_interrupted(&self) -> (interrupted: bool)
        ensures
            interrupted == self@.interrupted,
    {
        self.is_interrupted
    }

    /// One attempt to buffer `task`. After a shutdown it fails with
    /// `INTERRUPTED`. On a full queue it hands the task back: the caller waits
    /// for room and tries again. Otherwise the task is buffered, and the caller
    /// wakes one waiting consumer.
    pub fn put(&mut self, task: Task<H>) -> (result: Result<Option<Task<H>>, ThreadStatus>)
        requires
            old(self)@.wf(),
        ensures
            final(self)@ == old(self)@.after_put(task),
            final(self)@.wf(),
            old(self)@.interrupted <==> result == Err::<Option<Task<H>>, ThreadStatus>(
                ThreadStatus(INTERRUPTED),
            ),
            old(self)@.put_waits() <==> result == Ok::<Option<Task<H>>, ThreadStatus>(Some(task)),
            !old(self)@.interrupted && !old(self)@.put_waits() <==> result == Ok::<
                Option<Task<H>>,
                ThreadStatus,
            >(None),
    {
        if self.is_interrupted {
            return Err(ThreadStatus(INTERRUPTED));
        }
        if self.tasks.len() == self.capacity {
            return Ok(Some(task));
        }
        self.tasks.push(task);
        Ok(None)
    }

    /// One attempt to take a task. After a shutdown it fails with
    /// `INTERRUPTED`. On an empty queue it returns nothing: the caller waits for
    /// work and tries again. Otherwise it takes the task that was buffered
    /// last, and the caller wakes one waiting producer.
    pub fn get(&mut self) -> (result: Result<Option<Task<H>>, ThreadStatus>)
        requires
            old(self)@.wf(),
        ensures
            final(self)@ == old(self)@.after_get(),
            final(self)@.wf(),
            old(self)@.interrupted <==> result == Err::<Option<Task<H>>, ThreadStatus>(
                ThreadStatus(INTERRUPTED),
            ),
            old(self)@.get_waits() <==> result == Ok::<Option<Task<H>>, ThreadStatus>(None),
            !old(self)@.interrupted && !old(self)@.get_waits() <==> result == Ok::<
                Option<Task<H>>,
                ThreadStatus,
            >(Some(old(self)@.items.last())),
    {
        if self.is_interrupted {
            return Err(ThreadStatus(INTERRUPTED));
        }
        match self.tasks.pop() {
            None => Ok(None),
            Some(task) => Ok(Some(task)),
        }
    }
}

} // verus!
