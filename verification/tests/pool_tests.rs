use tinyserve::pool::{shutdown_signals, worker_step, PoolError, PoolPlan, Task, WorkerStep};

#[test]
fn zero_size_pool_is_rejected() {
    assert!(matches!(PoolPlan::new(0), Err(PoolError::ZeroSize)));
}

#[test]
fn pool_accepts_work_until_shutdown() {
    let mut plan = PoolPlan::new(4).unwrap();
    assert!(plan.accept_work().is_ok());
    let n = plan.begin_shutdown();
    assert_eq!(n, 4);
    assert!(matches!(plan.accept_work(), Err(PoolError::ShutDown)));
}

#[test]
fn one_stop_sentinel_per_worker() {
    let signals: Vec<Task<i32>> = shutdown_signals(3);
    assert_eq!(signals.len(), 3);
    for t in &signals {
        assert!(matches!(t, Task::Terminate));
    }
}

#[test]
fn no_sentinels_for_no_workers() {
    let signals: Vec<Task<i32>> = shutdown_signals(0);
    assert!(signals.is_empty());
}

#[test]
fn worker_runs_jobs_and_stops_on_sentinel() {
    assert!(matches!(worker_step(Task::New(42)), WorkerStep::Run(42)));
    assert!(matches!(worker_step(Task::<i32>::Terminate), WorkerStep::Stop));
}
