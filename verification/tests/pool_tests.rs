use std::sync::Mutex;

use mini_projects::pool::FetchOutcome;
use mini_projects::pool::WorkerPool;

#[test]
fn fetch_is_fifo_and_disconnects_after_close() {
    let mut pool = WorkerPool::new(3);
    pool.submit(10);
    pool.submit(20);
    pool.submit(30);

    assert_eq!(pool.worker_fetch(), FetchOutcome::Task(10));
    assert_eq!(pool.worker_fetch(), FetchOutcome::Task(20));

    // an empty queue under an open producer blocks the worker
    assert_eq!(pool.worker_fetch(), FetchOutcome::Task(30));
    assert_eq!(pool.worker_fetch(), FetchOutcome::WouldBlock);

    // after closing the producer handle an empty queue reads as closure
    pool.close();
    assert_eq!(pool.worker_fetch(), FetchOutcome::Disconnected);
    assert_eq!(pool.worker_fetch(), FetchOutcome::Disconnected);

    pool.shutdown();
}

#[test]
fn close_lets_workers_drain_queued_tasks_first() {
    let mut pool = WorkerPool::new(1);
    pool.submit(1);
    pool.submit(2);
    pool.close();

    // tasks submitted before shutdown began are never silently dropped
    assert_eq!(pool.worker_fetch(), FetchOutcome::Task(1));
    assert_eq!(pool.worker_fetch(), FetchOutcome::Task(2));
    assert_eq!(pool.worker_fetch(), FetchOutcome::Disconnected);
    pool.shutdown();
}

#[test]
fn submitting_k_tasks_executes_each_exactly_once() {
    let k: u64 = 12;
    let mut pool = WorkerPool::new(4);
    for t in 0..k {
        pool.submit(t);
    }
    let mut executed = Vec::new();
    loop {
        match pool.worker_fetch() {
            FetchOutcome::Task(t) => executed.push(t),
            FetchOutcome::WouldBlock => break,
            FetchOutcome::Disconnected => panic!("producer handle is still open"),
        }
    }
    pool.close();
    pool.shutdown();

    assert_eq!(executed, (0..k).collect::<Vec<u64>>());
}

#[test]
fn two_workers_five_tasks_all_recorded_exactly_once() {
    // a pool of size 2 given 5 tasks, each recording its own index into a
    // shared collector under a lock; after teardown all 5 indices are
    // present exactly once, in some order
    let (sender, receiver) = crossbeam::channel::unbounded::<u64>();
    let pool = Mutex::new(WorkerPool::new(2));
    let collector: Mutex<Vec<u64>> = Mutex::new(Vec::new());

    for t in 0..5u64 {
        pool.lock().unwrap().submit(t);
        sender.send(t).unwrap();
    }
    drop(sender);
    pool.lock().unwrap().close();

    crossbeam::scope(|scope| {
        for _ in 0..2 {
            scope.spawn(|_| {
                loop {
                    match receiver.recv() {
                        Ok(_) => {
                            let fetched = pool.lock().unwrap().worker_fetch();
                            match fetched {
                                FetchOutcome::Task(t) => collector.lock().unwrap().push(t),
                                other => panic!("a sent task must be fetchable, got {:?}", other),
                            }
                        },
                        Err(_) => break,
                    }
                }
            });
        }
    })
    .unwrap();

    pool.lock().unwrap().shutdown();

    let mut got = collector.into_inner().unwrap();
    got.sort();
    assert_eq!(got, vec![0, 1, 2, 3, 4]);
}
