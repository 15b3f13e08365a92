use mini_http::pool::{JobOutcome, WorkerPool};

#[test]
fn new_pool_is_idle_and_empty() {
    let pool: WorkerPool<u32> = WorkerPool::new(3);
    assert_eq!(pool.size(), 3);
    assert_eq!(pool.pending(), 0);
    assert_eq!(pool.active(), 0);
    for worker in 0..5 {
        assert!(!pool.is_busy(worker));
    }
}

#[test]
fn jobs_are_claimed_in_arrival_order() {
    let mut pool: WorkerPool<&str> = WorkerPool::new(2);
    pool.execute("first");
    pool.execute("second");
    pool.execute("third");
    assert_eq!(pool.pending(), 3);
    assert_eq!(pool.claim(1), Some("first"));
    assert_eq!(pool.claim(0), Some("second"));
    assert_eq!(pool.pending(), 1);
    assert_eq!(pool.active(), 2);
    assert!(pool.is_busy(0));
    assert!(pool.is_busy(1));
}

#[test]
fn claim_on_an_empty_queue_gives_nothing() {
    let mut pool: WorkerPool<u8> = WorkerPool::new(1);
    assert_eq!(pool.claim(0), None);
    assert_eq!(pool.active(), 0);
    assert!(!pool.is_busy(0));
}

#[test]
fn busy_worker_is_handed_no_second_job() {
    let mut pool: WorkerPool<u8> = WorkerPool::new(2);
    pool.execute(1);
    pool.execute(2);
    assert_eq!(pool.claim(0), Some(1));
    assert_eq!(pool.claim(0), None);
    assert_eq!(pool.pending(), 1);
    assert_eq!(pool.active(), 1);
}

#[test]
fn unknown_worker_is_handed_nothing() {
    let mut pool: WorkerPool<u8> = WorkerPool::new(2);
    pool.execute(1);
    assert_eq!(pool.claim(2), None);
    assert_eq!(pool.claim(usize::MAX), None);
    assert!(!pool.finish(2, JobOutcome::Completed));
    assert_eq!(pool.pending(), 1);
    assert_eq!(pool.size(), 2);
}

#[test]
fn finish_frees_the_worker() {
    let mut pool: WorkerPool<u8> = WorkerPool::new(1);
    pool.execute(1);
    pool.execute(2);
    assert_eq!(pool.claim(0), Some(1));
    assert!(pool.finish(0, JobOutcome::Completed));
    assert!(!pool.is_busy(0));
    assert_eq!(pool.active(), 0);
    assert_eq!(pool.claim(0), Some(2));
}

#[test]
fn finish_of_an_idle_worker_changes_nothing() {
    let mut pool: WorkerPool<u8> = WorkerPool::new(2);
    pool.execute(1);
    assert!(!pool.finish(0, JobOutcome::Completed));
    assert!(!pool.finish(1, JobOutcome::Panicked));
    assert_eq!(pool.pending(), 1);
    assert_eq!(pool.active(), 0);
    assert_eq!(pool.claim(0), Some(1));
}

#[test]
fn job_beyond_the_pool_size_waits_and_is_run() {
    let size = 3;
    let mut pool: WorkerPool<usize> = WorkerPool::new(size);
    for job in 0..size {
        pool.execute(job);
    }
    for worker in 0..size {
        assert_eq!(pool.claim(worker), Some(worker));
    }
    assert_eq!(pool.active(), size);
    pool.execute(size);
    assert_eq!(pool.pending(), 1);
    for worker in 0..size {
        assert_eq!(pool.claim(worker), None);
    }
    assert_eq!(pool.pending(), 1);
    assert!(pool.finish(1, JobOutcome::Completed));
    assert_eq!(pool.claim(1), Some(size));
    assert_eq!(pool.pending(), 0);
    assert_eq!(pool.active(), size);
}

#[test]
fn worker_survives_a_panicking_job() {
    let mut pool: WorkerPool<&str> = WorkerPool::new(2);
    pool.execute("bad");
    pool.execute("good");
    assert_eq!(pool.claim(0), Some("bad"));
    assert!(pool.finish(0, JobOutcome::Panicked));
    assert_eq!(pool.size(), 2);
    assert!(!pool.is_busy(0));
    assert_eq!(pool.claim(0), Some("good"));
    assert!(pool.finish(0, JobOutcome::Completed));
    assert_eq!(pool.active(), 0);
}

#[test]
fn jobs_may_finish_in_either_order() {
    let run = |first: usize, second: usize| {
        let mut pool: WorkerPool<u8> = WorkerPool::new(2);
        pool.execute(10);
        pool.execute(20);
        pool.execute(30);
        assert_eq!(pool.claim(0), Some(10));
        assert_eq!(pool.claim(1), Some(20));
        assert!(pool.finish(first, JobOutcome::Completed));
        assert!(pool.is_busy(second));
        assert!(pool.finish(second, JobOutcome::Completed));
        (pool.pending(), pool.active(), pool.is_busy(0), pool.is_busy(1))
    };
    assert_eq!(run(0, 1), (1, 0, false, false));
    assert_eq!(run(1, 0), (1, 0, false, false));
}

#[test]
fn no_more_jobs_run_than_there_are_workers() {
    let mut pool: WorkerPool<usize> = WorkerPool::new(4);
    for job in 0..10 {
        pool.execute(job);
        for worker in 0..6 {
            let _ = pool.claim(worker);
            assert!(pool.active() <= 4);
        }
    }
    assert_eq!(pool.active(), 4);
    assert_eq!(pool.pending(), 6);
}

#[test]
fn one_free_worker_drains_the_queue() {
    let mut pool: WorkerPool<usize> = WorkerPool::new(2);
    for job in 0..5 {
        pool.execute(job);
    }
    let mut seen = Vec::new();
    while let Some(job) = pool.claim(1) {
        seen.push(job);
        assert!(pool.finish(1, JobOutcome::Completed));
    }
    assert_eq!(seen, vec![0, 1, 2, 3, 4]);
    assert_eq!(pool.pending(), 0);
    assert_eq!(pool.active(), 0);
}
