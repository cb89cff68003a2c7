use oics::omr::OmrError;
use oics::thread_pool::WorkerPool;

#[test]
fn zero_workers_is_refused() {
    assert_eq!(WorkerPool::<u32>::new(0).err(), Some(OmrError::InvalidConfiguration));
    let mut pool = WorkerPool::<u32>::new(2).unwrap();
    assert_eq!(pool.set_max_workers_count(0).err(), Some(OmrError::InvalidConfiguration));
    assert_eq!(pool.max_workers(), 2);
}

#[test]
fn saturated_pool_starts_queued_jobs_in_order() {
    let mut pool = WorkerPool::new(1).unwrap();
    assert_eq!(pool.request_task('x'), Some('x'));
    assert_eq!(pool.request_task('a'), None);
    assert_eq!(pool.request_task('b'), None);
    assert_eq!(pool.request_task('c'), None);
    assert_eq!(pool.waiting_len(), 3);
    assert_eq!(pool.finish_task(), vec!['a']);
    assert_eq!(pool.finish_task(), vec!['b']);
    assert_eq!(pool.finish_task(), vec!['c']);
    assert_eq!(pool.finish_task(), Vec::<char>::new());
    assert_eq!(pool.running(), 0);
}

#[test]
fn raising_limit_drains_queue_front_first() {
    let mut pool = WorkerPool::new(1).unwrap();
    assert_eq!(pool.request_task(1), Some(1));
    for job in 2..=5 {
        assert_eq!(pool.request_task(job), None);
    }
    assert_eq!(pool.set_max_workers_count(3).unwrap(), vec![2, 3]);
    assert_eq!(pool.running(), 3);
    assert_eq!(pool.waiting_len(), 2);
    assert_eq!(pool.set_max_workers_count(10).unwrap(), vec![4, 5]);
    assert_eq!(pool.running(), 5);
}

#[test]
fn lowering_limit_keeps_running_jobs() {
    let mut pool = WorkerPool::new(3).unwrap();
    for job in 0..5 {
        pool.request_task(job);
    }
    assert_eq!(pool.running(), 3);
    assert_eq!(pool.set_max_workers_count(1).unwrap(), Vec::<i32>::new());
    assert_eq!(pool.running(), 3);
    assert_eq!(pool.finish_task(), Vec::<i32>::new());
    assert_eq!(pool.finish_task(), Vec::<i32>::new());
    assert_eq!(pool.finish_task(), vec![3]);
    assert_eq!(pool.running(), 1);
}

#[test]
fn running_never_exceeds_limit_over_a_run() {
    let mut pool = WorkerPool::new(2).unwrap();
    let mut started = Vec::new();
    for job in 0..6 {
        if let Some(j) = pool.request_task(job) {
            started.push(j);
        }
        assert!(pool.running() <= pool.max_workers());
    }
    started.extend(pool.finish_task());
    assert!(pool.running() <= pool.max_workers());
    started.extend(pool.set_max_workers_count(4).unwrap());
    assert!(pool.running() <= pool.max_workers());
    while pool.running() > 0 {
        started.extend(pool.finish_task());
        assert!(pool.running() <= pool.max_workers());
    }
    assert_eq!(started, vec![0, 1, 2, 3, 4, 5]);
    assert_eq!(pool.waiting_len(), 0);
}
