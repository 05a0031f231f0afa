use sorter::pool::{Submission, ThreadPool, Worker, WorkerStep};
use sorter::queue::{TaskQueue, ThreadStatus, INTERRUPTED};
use sorter::task::Task;
use std::cell::RefCell;
use std::rc::Rc;

pub fn print_number(value: usize) {
    println!("The counter is {}", value);
}

/// Submits, and runs pending work on this thread for as long as the queue
/// has no room.
fn submit_and_wait<H: Fn(usize)>(pool: &mut ThreadPool<H>, handler: H, param: usize) -> sorter::pool::Future {
    let mut handler = handler;
    loop {
        match pool.submit(handler, param) {
            Submission::Accepted(future) => return future,
            Submission::NoRoom(back) => {
                handler = back;
                assert!(pool.run_pending());
            }
            Submission::Interrupted(_) => panic!("The put thread was interrupted"),
        }
    }
}

#[test]
fn lib_it_works() {
    let mut pool = ThreadPool::<fn(usize)>::new(5, 3);
    for number in 0..7 {
        submit_and_wait(&mut pool, print_number, number);
    }
    while !pool.wait() {
        pool.run_pending();
    }
    assert!(pool.wait());
}

#[test]
fn test_futures() {
    let mut pool = ThreadPool::<fn(usize)>::new(3, 10);
    let mut futures = Vec::with_capacity(10);
    for i in 0..10 {
        let future = submit_and_wait(&mut pool, print_number, i);
        futures.push(future);
    }
    for (index, future) in futures.iter().enumerate() {
        while !future.get(&pool) {
            assert!(pool.run_pending());
        }
        println!("Futures {} is released", index);
    }
    submit_and_wait(&mut pool, print_number, 13);
}

fn quiet(_: usize) {
}

fn task(param: usize) -> Task<fn(usize)> {
    Task::new(quiet, param, param)
}

#[test]
fn queue_holds_no_more_than_its_capacity() {
    let mut queue: TaskQueue<fn(usize)> = TaskQueue::new(2);
    assert_eq!(queue.capacity(), 2);
    assert_eq!(queue.get_size(), 0);
    assert!(matches!(queue.put(task(1)), Ok(None)));
    assert_eq!(queue.get_size(), 1);
    assert!(matches!(queue.put(task(2)), Ok(None)));
    assert_eq!(queue.get_size(), 2);
    match queue.put(task(3)) {
        Ok(Some(back)) => assert_eq!(back.get_ticket(), 3),
        _ => panic!("a full queue took a task"),
    }
    assert_eq!(queue.get_size(), 2);
}

#[test]
fn queue_hands_out_the_newest_task_first() {
    let mut queue: TaskQueue<fn(usize)> = TaskQueue::new(3);
    for ticket in 1..=3 {
        assert!(matches!(queue.put(task(ticket)), Ok(None)));
    }
    for ticket in [3, 2, 1] {
        match queue.get() {
            Ok(Some(taken)) => assert_eq!(taken.get_ticket(), ticket),
            _ => panic!("a filled queue gave nothing"),
        }
    }
    assert!(matches!(queue.get(), Ok(None)));
    assert_eq!(queue.get_size(), 0);
}

#[test]
fn put_goes_through_once_a_get_made_room() {
    let mut queue: TaskQueue<fn(usize)> = TaskQueue::new(1);
    assert!(matches!(queue.put(task(1)), Ok(None)));
    let waiting = match queue.put(task(2)) {
        Ok(Some(back)) => back,
        _ => panic!("a full queue took a task"),
    };
    assert!(matches!(queue.get(), Ok(Some(_))));
    assert!(matches!(queue.put(waiting), Ok(None)));
    match queue.get() {
        Ok(Some(taken)) => assert_eq!(taken.get_ticket(), 2),
        _ => panic!("a filled queue gave nothing"),
    }
}

#[test]
fn shutdown_turns_producers_and_consumers_away() {
    let mut queue: TaskQueue<fn(usize)> = TaskQueue::new(2);
    assert!(matches!(queue.put(task(1)), Ok(None)));
    assert!(!queue.is_interrupted());
    queue.notify_all();
    assert!(queue.is_interrupted());
    assert!(matches!(queue.put(task(2)), Err(ThreadStatus(INTERRUPTED))));
    assert!(matches!(queue.get(), Err(ThreadStatus(1))));
    assert_eq!(queue.get_size(), 1);
    queue.notify_all();
    assert!(queue.is_interrupted());
    assert!(matches!(queue.get(), Err(ThreadStatus(1))));
}

#[test]
fn invoke_calls_the_handler_once_and_raises_the_flag() {
    let seen = Rc::new(RefCell::new(Vec::new()));
    let log = Rc::clone(&seen);
    let mut task = Task::new(move |param: usize| log.borrow_mut().push(param), 42, 7);
    assert!(!task.is_done());
    assert_eq!(task.get_ticket(), 7);
    assert!(seen.borrow().is_empty());
    task.invoke();
    assert!(task.is_done());
    assert_eq!(*seen.borrow(), vec![42]);
}

#[test]
fn worker_runs_what_it_is_given_and_leaves_on_a_shutdown() {
    let seen = Rc::new(RefCell::new(Vec::new()));
    let log = Rc::clone(&seen);
    let handler = move |param: usize| log.borrow_mut().push(param);
    let mut worker = Worker::new(4);
    assert_eq!(worker.get_id(), 4);
    assert!(worker.is_running());
    match worker.run(Ok(Some(Task::new(handler.clone(), 5, 0)))) {
        WorkerStep::Finished(task) => assert!(task.is_done()),
        _ => panic!("the worker did not run the task"),
    }
    assert_eq!(*seen.borrow(), vec![5]);
    assert!(worker.is_running());
    let nothing: Result<Option<Task<fn(usize)>>, ThreadStatus> = Ok(None);
    assert!(matches!(worker.run(nothing), WorkerStep::Idle));
    assert!(worker.is_running());
    let stopped: Result<Option<Task<fn(usize)>>, ThreadStatus> = Err(ThreadStatus(INTERRUPTED));
    assert!(matches!(worker.run(stopped), WorkerStep::Exit(0)));
    assert!(!worker.is_running());
}

#[test]
fn handle_resolves_only_after_its_handler_ran() {
    let seen = Rc::new(RefCell::new(Vec::new()));
    let log = Rc::clone(&seen);
    let handler = move |param: usize| log.borrow_mut().push(param);
    let mut pool = ThreadPool::new(4, 2);
    assert_eq!(pool.get_worker_count(), 2);
    let first = submit_and_wait(&mut pool, handler.clone(), 10);
    let second = submit_and_wait(&mut pool, handler.clone(), 20);
    assert!(!first.get(&pool));
    assert!(!second.get(&pool));
    assert!(!pool.wait());
    // The queue hands out the newest task first.
    assert!(pool.run_pending());
    assert_eq!(*seen.borrow(), vec![20]);
    assert!(second.get(&pool));
    assert!(!first.get(&pool));
    assert!(pool.run_pending());
    assert_eq!(*seen.borrow(), vec![20, 10]);
    assert!(first.get(&pool));
    assert!(pool.wait());
    assert!(!pool.run_pending());
}

#[test]
fn worker_steps_drive_the_pool() {
    let seen = Rc::new(RefCell::new(Vec::new()));
    let log = Rc::clone(&seen);
    let handler = move |param: usize| log.borrow_mut().push(param);
    let mut pool = ThreadPool::new(2, 1);
    assert_eq!(pool.worker(0), Some(Worker::new(0)));
    assert_eq!(pool.worker(1), None);
    let mut worker = pool.worker(0).unwrap();
    let future = submit_and_wait(&mut pool, handler.clone(), 3);
    let fetched = pool.fetch();
    assert!(pool.wait());
    assert!(!future.get(&pool));
    match worker.run(fetched) {
        WorkerStep::Finished(task) => {
            assert!(!future.get(&pool));
            pool.complete(task);
        }
        _ => panic!("the worker did not run the task"),
    }
    assert!(future.get(&pool));
    assert_eq!(*seen.borrow(), vec![3]);
    assert!(matches!(worker.run(pool.fetch()), WorkerStep::Idle));
    pool.shutdown();
    assert!(matches!(worker.run(pool.fetch()), WorkerStep::Exit(0)));
    assert!(!worker.is_running());
}

#[test]
fn full_pool_hands_the_handler_back() {
    let mut pool = ThreadPool::<fn(usize)>::new(1, 1);
    assert!(matches!(pool.submit(quiet, 1), Submission::Accepted(_)));
    assert!(matches!(pool.submit(quiet, 2), Submission::NoRoom(_)));
    assert!(pool.run_pending());
    assert!(matches!(pool.submit(quiet, 2), Submission::Accepted(_)));
}

#[test]
fn shut_down_pool_takes_no_work() {
    let mut pool = ThreadPool::<fn(usize)>::new(2, 1);
    let future = match pool.submit(quiet, 1) {
        Submission::Accepted(future) => future,
        _ => panic!("an empty pool took no work"),
    };
    pool.shutdown();
    assert!(matches!(pool.submit(quiet, 2), Submission::Interrupted(ThreadStatus(1))));
    assert!(matches!(pool.fetch(), Err(ThreadStatus(1))));
    assert!(!pool.run_pending());
    assert!(!future.get(&pool));
    assert!(!pool.wait());
}
