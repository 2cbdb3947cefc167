use sync_primitives::thread_pool::{PoolError, ThreadPoolInner};

#[test]
fn pool_with_zero_workers_is_rejected() {
    match ThreadPoolInner::new(0) {
        Err(e) => assert_eq!(e, PoolError::ZeroWorkers),
        Ok(_) => panic!("a pool of zero workers must be rejected"),
    }
}

#[test]
fn pool_with_workers_starts_empty() {
    let inner = ThreadPoolInner::new(4).unwrap();
    assert!(inner.is_empty());
}

#[test]
fn pool_barrier_condition_after_ten_jobs() {
    let mut inner = ThreadPoolInner::new(4).unwrap();
    for _ in 0..10 {
        inner.start_job();
    }
    assert!(!inner.is_empty());
    for _ in 0..10 {
        inner.finish_job();
    }
    assert!(inner.is_empty(), "after every job finished the barrier must open");
}

#[test]
fn pool_counts_each_job_once() {
    let mut inner = ThreadPoolInner::new(1).unwrap();
    inner.start_job();
    inner.start_job();
    inner.finish_job();
    assert!(!inner.is_empty(), "one job is still running");
    inner.finish_job();
    assert!(inner.is_empty());
}
