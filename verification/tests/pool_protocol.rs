use thread_pool::pool::Phase;
use thread_pool::pool::ThreadPool;

#[test]
fn create_builds_requested_workers() {
    let pool = ThreadPool::new(4);
    assert_eq!(pool.worker_count(), 4);
    assert_eq!(pool.running_workers(), 4);
    for i in 0..4 {
        assert!(pool.worker_running(i));
        assert!(!pool.worker_joined(i));
        assert_eq!(pool.busy_job(i), None);
    }
    assert_eq!(pool.current_phase(), Phase::Active);
    assert_eq!(pool.queue_len(), 0);
    assert!(pool.executed_log().is_empty());
}

#[test]
fn single_worker_creates_one_thread() {
    let pool = ThreadPool::new(1);
    assert_eq!(pool.worker_count(), 1);
    assert_eq!(pool.running_workers(), 1);
}

#[test]
fn submission_is_fifo() {
    let mut pool = ThreadPool::new(2);
    pool.exec(10);
    pool.exec(20);
    pool.exec(30);
    assert_eq!(pool.queue_len(), 3);
    assert_eq!(pool.current_phase(), Phase::Active);
    assert!(pool.executed_log().is_empty());
    pool.shutdown();
}

#[test]
fn single_worker_runs_jobs_in_submission_order() {
    let mut pool = ThreadPool::new(1);
    pool.exec(1);
    pool.exec(2);
    pool.exec(3);
    pool.shutdown();
    assert_eq!(pool.executed_log(), &vec![1, 2, 3]);
    assert_eq!(pool.current_phase(), Phase::Terminated);
}

#[test]
fn every_enqueued_job_runs_exactly_once() {
    let mut pool = ThreadPool::new(2);
    let jobs: Vec<u64> = vec![10, 20, 30, 40, 50];
    for &j in &jobs {
        pool.exec(j);
    }
    pool.shutdown();
    let log = pool.executed_log();
    assert_eq!(log.len(), jobs.len());
    for &j in &jobs {
        let occurrences = log.iter().filter(|&&x| x == j).count();
        assert_eq!(occurrences, 1);
    }
}

#[test]
fn distinct_workers_claim_concurrent_jobs() {
    let mut pool = ThreadPool::new(3);
    pool.exec(7);
    pool.exec(8);
    pool.claim(0);
    pool.claim(1);
    // Both jobs are in flight at once, each on its own worker.
    assert_eq!(pool.busy_job(0), Some(7));
    assert_eq!(pool.busy_job(1), Some(8));
    assert_eq!(pool.busy_job(2), None);
    assert_eq!(pool.queue_len(), 0);
    pool.finish(0);
    pool.finish(1);
    assert_eq!(pool.executed_log(), &vec![7, 8]);
    pool.shutdown();
}

#[test]
fn teardown_with_claimed_work_still_runs_it() {
    let mut pool = ThreadPool::new(2);
    pool.exec(5);
    pool.exec(6);
    pool.claim(1);
    assert_eq!(pool.busy_job(1), Some(5));
    pool.shutdown();
    let log = pool.executed_log();
    assert_eq!(log.len(), 2);
    assert_eq!(log.iter().filter(|&&x| x == 5).count(), 1);
    assert_eq!(log.iter().filter(|&&x| x == 6).count(), 1);
}

#[test]
fn teardown_joins_every_worker() {
    let mut pool = ThreadPool::new(3);
    pool.exec(1);
    pool.exec(2);
    // shutdown returning at all is the no-deadlock observation
    pool.shutdown();
    assert_eq!(pool.running_workers(), 0);
    for i in 0..3 {
        assert!(!pool.worker_running(i));
        assert!(pool.worker_joined(i));
        assert_eq!(pool.busy_job(i), None);
    }
    assert_eq!(pool.current_phase(), Phase::Terminated);
    assert_eq!(pool.queue_len(), 0);
}

#[test]
fn teardown_of_idle_pool_terminates() {
    let mut pool = ThreadPool::new(4);
    pool.shutdown();
    assert_eq!(pool.running_workers(), 0);
    assert!(pool.executed_log().is_empty());
    assert_eq!(pool.current_phase(), Phase::Terminated);
}

#[test]
fn one_stop_signal_stops_exactly_one_worker() {
    let mut pool = ThreadPool::new(2);
    pool.begin_shutdown();
    assert_eq!(pool.current_phase(), Phase::ShuttingDown);
    assert_eq!(pool.queue_len(), 2);
    pool.claim(0);
    assert!(!pool.worker_running(0));
    assert!(pool.worker_running(1));
    assert_eq!(pool.queue_len(), 1);
    pool.claim(1);
    assert!(!pool.worker_running(1));
    assert_eq!(pool.queue_len(), 0);
    pool.join_worker(0);
    pool.join_worker(1);
    assert!(pool.worker_joined(0));
    assert!(pool.worker_joined(1));
}

#[test]
fn pending_jobs_stay_ahead_of_stop_signals() {
    let mut pool = ThreadPool::new(1);
    pool.exec(9);
    pool.begin_shutdown();
    assert_eq!(pool.queue_len(), 2);
    // The worker meets the job first, the stop signal second.
    pool.claim(0);
    assert_eq!(pool.busy_job(0), Some(9));
    assert!(pool.worker_running(0));
    pool.finish(0);
    pool.claim(0);
    assert!(!pool.worker_running(0));
    assert_eq!(pool.executed_log(), &vec![9]);
}
