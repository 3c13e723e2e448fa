//! Bookkeeping of a fixed-size worker pool.
//!
//! The pool itself spawns threads and owns a channel outside this crate;
//! every decision it takes is made here. A plan of size N is created only
//! for N >= 1, refuses work once shutdown has begun, and tears down by
//! enqueueing exactly one stop sentinel per worker, so that each worker
//! observes exactly one termination signal.

use vstd::prelude::*;

verus! {

/// One unit of queued work: either a job to run or the stop sentinel.
pub enum Task<J> {
    New(J),
    Terminate,
}

/// The defined error outcomes of pool misuse.
#[derive(Clone, Copy, PartialEq, Eq, Structural, Debug)]
pub enum PoolError {
    /// A pool of size zero would deadlock and is refused outright.
    ZeroSize,
    /// Enqueueing after shutdown has begun is refused, not undefined.
    ShutDown,
}

/// What a worker does with one task it pulled from the queue.
pub enum WorkerStep<J> {
    Run(J),
    Stop,
}

/// The bookkeeping state of a worker pool: how many workers it runs and
/// whether shutdown has begun.
pub struct PoolPlan {
    pub size: usize,
    pub shutting_down: bool,
}

impl PoolPlan {
    /// A plan for `size` workers; a size of zero is rejected with a
    /// configuration error rather than accepted into a deadlock.
    pub fn new(size: usize) -> (r: Result<PoolPlan, PoolError>)
        ensures
            size == 0 <==> r is Err,
            r is Err ==> r->Err_0 == PoolError::ZeroSize,
            r is Ok ==> r->Ok_0.size == size && !r->Ok_0.shutting_down,
    {
        if size == 0 {
            Err(PoolError::ZeroSize)
        } else {
            Ok(PoolPlan { size, shutting_down: false })
        }
    }

    /// Whether one more job may be enqueued: allowed exactly until
    /// shutdown begins, refused with a defined error afterwards.
    pub fn accept_work(&self) -> (r: Result<(), PoolError>)
        ensures
            r is Ok <==> !self.shutting_down,
            r is Err ==> r->Err_0 == PoolError::ShutDown,
    {
        if self.shutting_down {
            Err(PoolError::ShutDown)
        } else {
            Ok(())
        }
    }

    /// Begins teardown: marks the plan as shutting down and returns how
    /// many stop sentinels are owed - exactly one per worker.
    pub fn begin_shutdown(&mut self) -> (n: usize)
        ensures
            final(self).shutting_down,
            final(self).size == old(self).size,
            n == old(self).size,
    {
        self.shutting_down = true;
        self.size
    }
}

/// The worker loop's decision for one pulled task: run the job, or stop
/// for good on the sentinel.
pub fn worker_step<J>(task: Task<J>) -> (r: WorkerStep<J>)
    ensures
        (match task {
            Task::New(j) => r == WorkerStep::Run(j),
            Task::Terminate => r == (WorkerStep::Stop::<J>),
        }),
{
    match task {
        Task::New(j) => WorkerStep::Run(j),
        Task::Terminate => WorkerStep::Stop,
    }
}

/// The stop sentinels owed at teardown: exactly one per worker.
pub fn shutdown_signals<J>(workers: usize) -> (v: Vec<Task<J>>)
    ensures
        v@.len() == workers,
        forall|i: int| 0 <= i < v@.len() ==> v@[i] is Terminate,
{
    let mut v: Vec<Task<J>> = Vec::new();
    let mut i: usize = 0;
    while i < workers
        invariant
            i <= workers,
            v@.len() == i,
            forall|i2: int| 0 <= i2 < v@.len() ==> v@[i2] is Terminate,
        decreases workers - i,
    {
        v.push(Task::Terminate);
        i = i + 1;
    }
    v
}

/// The jobs carried by a queue of tasks, in queue order.
pub open spec fn jobs_of<J>(q: Seq<Task<J>>) -> Seq<J>
    decreases q.len(),
{
    if q.len() == 0 {
        Seq::empty()
    } else {
        match q[0] {
            Task::New(j) => seq![j] + jobs_of(q.drop_first()),
            Task::Terminate => jobs_of(q.drop_first()),
        }
    }
}

/// How many stop sentinels a queue of tasks carries.
pub open spec fn stop_count<J>(q: Seq<Task<J>>) -> nat
    decreases q.len(),
{
    if q.len() == 0 {
        0
    } else {
        match q[0] {
            Task::New(j) => stop_count(q.drop_first()),
            Task::Terminate => 1 + stop_count(q.drop_first()),
        }
    }
}

proof fn lemma_jobs_of_concat<J>(a: Seq<Task<J>>, b: Seq<Task<J>>)
    ensures
        jobs_of(a + b) == jobs_of(a) + jobs_of(b),
        stop_count(a + b) == stop_count(a) + stop_count(b),
    decreases a.len(),
{
    if a.len() == 0 {
        assert(a + b =~= b);
        assert(jobs_of(a) + jobs_of(b) =~= jobs_of(b));
    } else {
        assert((a + b)[0] == a[0]);
        assert((a + b).drop_first() =~= a.drop_first() + b);
        lemma_jobs_of_concat(a.drop_first(), b);
        match a[0] {
            Task::New(j) => {
                assert(seq![j] + (jobs_of(a.drop_first()) + jobs_of(b)) =~= (seq![j] + jobs_of(
                    a.drop_first(),
                )) + jobs_of(b));
            },
            Task::Terminate => {},
        }
    }
}

proof fn lemma_jobs_of_news<J>(jobs: Seq<J>)
    ensures
        jobs_of(jobs.map_values(|j: J| Task::New(j))) == jobs,
        stop_count(jobs.map_values(|j: J| Task::New(j))) == 0,
    decreases jobs.len(),
{
    let q = jobs.map_values(|j: J| Task::New(j));
    if jobs.len() == 0 {
        assert(jobs_of(q) =~= jobs);
    } else {
        assert(q[0] == Task::New(jobs[0]));
        assert(q.drop_first() =~= jobs.drop_first().map_values(|j: J| Task::New(j)));
        lemma_jobs_of_news(jobs.drop_first());
        assert(seq![jobs[0]] + jobs.drop_first() =~= jobs);
    }
}

proof fn lemma_all_stops<J>(n: nat)
    ensures
        jobs_of(Seq::new(n, |i: int| Task::<J>::Terminate)) == Seq::<J>::empty(),
        stop_count(Seq::new(n, |i: int| Task::<J>::Terminate)) == n,
    decreases n,
{
    let q = Seq::new(n, |i: int| Task::<J>::Terminate);
    if n == 0 {
    } else {
        assert(q[0] is Terminate);
        assert(q.drop_first() =~= Seq::new((n - 1) as nat, |i: int| Task::<J>::Terminate));
        lemma_all_stops::<J>((n - 1) as nat);
    }
}

/// Law: a queue filled with some jobs and then torn down with `n` stop
/// sentinels carries each submitted job exactly once, in order, and
/// exactly `n` termination signals - none lost, none duplicated.
pub proof fn lemma_queue_teardown<J>(jobs: Seq<J>, n: nat)
    ensures
        ({
            let q = jobs.map_values(|j: J| Task::New(j)) + Seq::new(n, |i: int| Task::<J>::Terminate);
            jobs_of(q) == jobs && stop_count(q) == n
        }),
{
    let news = jobs.map_values(|j: J| Task::New(j));
    let stops = Seq::new(n, |i: int| Task::<J>::Terminate);
    lemma_jobs_of_concat(news, stops);
    lemma_jobs_of_news(jobs);
    lemma_all_stops::<J>(n);
    assert(jobs_of(news + stops) =~= jobs);
}

} // verus!
