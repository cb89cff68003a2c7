//! Admission control of a bounded worker pool.
//!
//! The pool decides which jobs start and when; running them on threads is
//! the caller's part. Every decision hands back the jobs to start now.
use vstd::prelude::*;
use std::collections::VecDeque;
use crate::omr::OmrError;

verus! {

/// Abstract state of a pool.
pub struct PoolModel<J> {
    pub max_workers: nat,
    pub running: nat,
    pub waiting: Seq<J>,
}

/// The pool's steady-state invariant: at least one worker is allowed, no
/// more jobs run than allowed, and no job waits while a slot is free.
pub open spec fn pool_inv<J>(m: PoolModel<J>) -> bool {
    &&& m.max_workers >= 1
    &&& m.running <= m.max_workers
    &&& m.waiting.len() > 0 ==> m.running == m.max_workers
}

/// Number of queued jobs that an admission sweep starts.
pub open spec fn start_count<J>(m: PoolModel<J>) -> nat {
    if m.running >= m.max_workers {
        0
    } else if m.max_workers - m.running < m.waiting.len() {
        (m.max_workers - m.running) as nat
    } else {
        m.waiting.len()
    }
}

/// Admission sweep: start queued jobs from the front while a slot is free.
/// Gives the new state and the jobs started, in order.
pub open spec fn sweep<J>(m: PoolModel<J>) -> (PoolModel<J>, Seq<J>) {
    let k = start_count(m) as int;
    (
        PoolModel { running: m.running + k as nat, waiting: m.waiting.skip(k), ..m },
        m.waiting.take(k),
    )
}

/// Submission: start the job at once when a slot is free, else queue it.
pub open spec fn submit<J>(m: PoolModel<J>, job: J) -> (PoolModel<J>, Seq<J>) {
    if m.running < m.max_workers {
        (PoolModel { running: m.running + 1, ..m }, seq![job])
    } else {
        (PoolModel { waiting: m.waiting.push(job), ..m }, Seq::empty())
    }
}

/// Completion of a running job: free its slot, then sweep.
pub open spec fn complete<J>(m: PoolModel<J>) -> (PoolModel<J>, Seq<J>) {
    sweep(PoolModel { running: (m.running - 1) as nat, ..m })
}

/// New limit on concurrent jobs, then sweep.
pub open spec fn resize<J>(m: PoolModel<J>, n: nat) -> (PoolModel<J>, Seq<J>) {
    sweep(PoolModel { max_workers: n, ..m })
}

/// A bounded pool of jobs of type `J`.
pub struct WorkerPool<J> {
    max_workers: usize,
    running: usize,
    waiting: VecDeque<J>,
}

impl<J> WorkerPool<J> {
    pub closed spec fn view(&self) -> PoolModel<J> {
        PoolModel {
            max_workers: self.max_workers as nat,
            running: self.running as nat,
            waiting: self.waiting@,
        }
    }

    /// An idle pool that runs at most `max_workers` jobs at once; zero is
    /// refused.
    pub fn new(max_workers: usize) -> (r: Result<WorkerPool<J>, OmrError>)
        ensures
            max_workers == 0 <==> r is Err,
            r is Err ==> r->Err_0 == OmrError::InvalidConfiguration,
            r is Ok ==> r->Ok_0.view() == (PoolModel::<J> { max_workers: max_workers as nat, running: 0, waiting: Seq::empty() }),
            r is Ok ==> pool_inv(r->Ok_0.view()),
    {
        if max_workers == 0 {
            return Err(OmrError::InvalidConfiguration);
        }
        Ok(WorkerPool { max_workers, running: 0, waiting: VecDeque::new() })
    }

    /// Limit on concurrent jobs.
    pub fn max_workers(&self) -> (r: usize)
        ensures
            r == self.view().max_workers,
    {
        self.max_workers
    }

    /// Jobs started and not yet completed.
    pub fn running(&self) -> (r: usize)
        ensures
            r == self.view().running,
    {
        self.running
    }

    /// Jobs waiting for a slot.
    pub fn waiting_len(&self) -> (r: usize)
        ensures
            r == self.view().waiting.len(),
    {
        self.waiting.len()
    }

    /// Admission sweep: starts queued jobs, front first, while a slot is
    /// free, and returns them in that order.
    pub fn before_execute(&mut self) -> (started: Vec<J>)
        ensures
            (final(self).view(), started@) == sweep(old(self).view()),
    {
        let ghost m = self.view();
        let mut started: Vec<J> = Vec::new();
        while self.running < self.max_workers && self.waiting.len() > 0
            invariant
                self.max_workers == m.max_workers,
                m.running <= self.running,
                self.running - m.running == started@.len(),
                started@.len() <= m.waiting.len(),
                started@ == m.waiting.take(started@.len() as int),
                self.waiting@ == m.waiting.skip(started@.len() as int),
                self.running <= self.max_workers || started@.len() == 0,
            decreases self.waiting@.len(),
        {
            let ghost k = started@.len() as int;
            let job = self.waiting.pop_front();
            match job {
                Some(j) => {
                    proof {
                        assert(j == m.waiting[k]);
                    }
                    started.push(j);
                    self.running = self.running + 1;
                    proof {
                        assert(started@ =~= m.waiting.take(k + 1));
                        assert(self.waiting@ =~= m.waiting.skip(k + 1));
                    }
                },
                None => {},
            }
        }
        proof {
            let k = started@.len() as int;
            assert(k == start_count(m));
        }
        started
    }

    /// Submits a job: returns it to be started now when a slot is free,
    /// else queues it and returns `None`.
    pub fn request_task(&mut self, job: J) -> (start: Option<J>)
        ensures
            (final(self).view(), match start {
                Some(j) => seq![j],
                None => Seq::empty(),
            }) == submit(old(self).view(), job),
    {
        if self.running < self.max_workers {
            self.running = self.running + 1;
            Some(job)
        } else {
            self.waiting.push_back(job);
            None
        }
    }

    /// Records the completion of a running job and returns the queued jobs
    /// that start in its place.
    pub fn finish_task(&mut self) -> (started: Vec<J>)
        requires
            old(self).view().running > 0,
        ensures
            (final(self).view(), started@) == complete(old(self).view()),
    {
        self.running = self.running - 1;
        self.before_execute()
    }

    /// Sets the limit on concurrent jobs and returns the queued jobs that
    /// start under the new limit. Zero is refused and changes nothing.
    /// Lowering the limit stops no running job.
    pub fn set_max_workers_count(&mut self, count: usize) -> (r: Result<Vec<J>, OmrError>)
        ensures
            count == 0 ==> r == Err::<Vec<J>, OmrError>(OmrError::InvalidConfiguration)
                && final(self).view() == old(self).view(),
            count > 0 ==> r is Ok && (final(self).view(), r->Ok_0@) == resize(
                old(self).view(),
                count as nat,
            ),
    {
        if count == 0 {
            return Err(OmrError::InvalidConfiguration);
        }
        self.max_workers = count;
        Ok(self.before_execute())
    }
}

/// An operation on a pool.
pub enum PoolOp<J> {
    Submit(J),
    Complete,
    SetMaxWorkers(nat),
}

/// Effect of one operation.
pub open spec fn apply_op<J>(m: PoolModel<J>, op: PoolOp<J>) -> (PoolModel<J>, Seq<J>) {
    match op {
        PoolOp::Submit(j) => submit(m, j),
        PoolOp::Complete => complete(m),
        PoolOp::SetMaxWorkers(n) => resize(m, n),
    }
}

/// The operation may be applied in state `m`: a completion needs a running
/// job, and a new limit is positive and no lower than the jobs running.
pub open spec fn op_allowed<J>(m: PoolModel<J>, op: PoolOp<J>) -> bool {
    match op {
        PoolOp::Submit(_) => true,
        PoolOp::Complete => m.running > 0,
        PoolOp::SetMaxWorkers(n) => n >= 1 && n >= m.running,
    }
}

/// Final state and all jobs started, in order, by a run of operations.
pub open spec fn run_ops<J>(m: PoolModel<J>, ops: Seq<PoolOp<J>>) -> (PoolModel<J>, Seq<J>)
    decreases ops.len(),
{
    if ops.len() == 0 {
        (m, Seq::empty())
    } else {
        let (m1, s1) = apply_op(m, ops[0]);
        let (m2, s2) = run_ops(m1, ops.skip(1));
        (m2, s1 + s2)
    }
}

/// Every operation of the run is allowed in the state it meets.
pub open spec fn ops_allowed<J>(m: PoolModel<J>, ops: Seq<PoolOp<J>>) -> bool
    decreases ops.len(),
{
    ops.len() == 0 || (op_allowed(m, ops[0]) && ops_allowed(apply_op(m, ops[0]).0, ops.skip(1)))
}

/// Jobs submitted by a run, in order.
pub open spec fn submitted<J>(ops: Seq<PoolOp<J>>) -> Seq<J>
    decreases ops.len(),
{
    if ops.len() == 0 {
        Seq::empty()
    } else {
        let rest = submitted(ops.skip(1));
        match ops[0] {
            PoolOp::Submit(j) => seq![j] + rest,
            _ => rest,
        }
    }
}

proof fn lemma_sweep<J>(m: PoolModel<J>)
    requires
        m.max_workers >= 1,
        m.running <= m.max_workers,
    ensures
        pool_inv(sweep(m).0),
        sweep(m).1 + sweep(m).0.waiting == m.waiting,
{
    let k = start_count(m) as int;
    assert(m.waiting.take(k) + m.waiting.skip(k) =~= m.waiting);
}

proof fn lemma_op_step<J>(m: PoolModel<J>, op: PoolOp<J>)
    requires
        pool_inv(m),
        op_allowed(m, op),
    ensures
        pool_inv(apply_op(m, op).0),
        apply_op(m, op).1 + apply_op(m, op).0.waiting == m.waiting + match op {
            PoolOp::Submit(j) => seq![j],
            _ => Seq::empty(),
        },
{
    match op {
        PoolOp::Submit(j) => {
            if m.running < m.max_workers {
                assert(m.waiting.len() == 0);
                assert(seq![j] + m.waiting =~= m.waiting + seq![j]);
            } else {
                assert(Seq::<J>::empty() + m.waiting.push(j) =~= m.waiting + seq![j]);
            }
        },
        PoolOp::Complete => {
            lemma_sweep(PoolModel { running: (m.running - 1) as nat, ..m });
            assert(m.waiting + Seq::<J>::empty() =~= m.waiting);
        },
        PoolOp::SetMaxWorkers(n) => {
            lemma_sweep(PoolModel { max_workers: n, ..m });
            assert(m.waiting + Seq::<J>::empty() =~= m.waiting);
        },
    }
}

/// Over any run of allowed operations from a state that holds the pool
/// invariant, the invariant holds after every operation (so at most
/// `max_workers` jobs run, and no job waits while a slot is free), and
/// every job submitted is started exactly once, queued jobs in the order of
/// submission: the jobs started, followed by those still waiting, are the
/// jobs that were waiting, followed by those submitted.
pub proof fn lemma_pool_run<J>(m: PoolModel<J>, ops: Seq<PoolOp<J>>)
    requires
        pool_inv(m),
        ops_allowed(m, ops),
    ensures
        pool_inv(run_ops(m, ops).0),
        run_ops(m, ops).1 + run_ops(m, ops).0.waiting == m.waiting + submitted(ops),
    decreases ops.len(),
{
    if ops.len() == 0 {
        assert(Seq::<J>::empty() + m.waiting =~= m.waiting + Seq::<J>::empty());
    } else {
        let op = ops[0];
        lemma_op_step(m, op);
        let (m1, s1) = apply_op(m, op);
        lemma_pool_run(m1, ops.skip(1));
        let (m2, s2) = run_ops(m1, ops.skip(1));
        let added = match op {
            PoolOp::Submit(j) => seq![j],
            _ => Seq::<J>::empty(),
        };
        assert(submitted(ops) =~= added + submitted(ops.skip(1)));
        assert((s1 + s2) + m2.waiting =~= s1 + (s2 + m2.waiting));
        assert(s1 + (m1.waiting + submitted(ops.skip(1))) =~= (s1 + m1.waiting) + submitted(
            ops.skip(1),
        ));
        assert((m.waiting + added) + submitted(ops.skip(1)) =~= m.waiting + (added + submitted(
            ops.skip(1),
        )));
    }
}

/// A job waits only when no slot is free, and at least one worker is
/// allowed. Unlike `pool_inv`, this survives lowering the limit below the
/// jobs that run.
pub open spec fn pool_ready<J>(m: PoolModel<J>) -> bool {
    &&& m.max_workers >= 1
    &&& m.waiting.len() > 0 ==> m.running >= m.max_workers
}

/// The operation may be applied in state `m`: a completion needs a running
/// job, and a new limit is positive.
pub open spec fn op_valid<J>(m: PoolModel<J>, op: PoolOp<J>) -> bool {
    match op {
        PoolOp::Submit(_) => true,
        PoolOp::Complete => m.running > 0,
        PoolOp::SetMaxWorkers(n) => n >= 1,
    }
}

/// Every operation of the run is valid in the state it meets.
pub open spec fn ops_valid<J>(m: PoolModel<J>, ops: Seq<PoolOp<J>>) -> bool
    decreases ops.len(),
{
    ops.len() == 0 || (op_valid(m, ops[0]) && ops_valid(apply_op(m, ops[0]).0, ops.skip(1)))
}

/// `n` completions in a row.
pub open spec fn completions<J>(n: nat) -> Seq<PoolOp<J>> {
    Seq::new(n, |i: int| PoolOp::<J>::Complete)
}

proof fn lemma_sweep_ready<J>(m: PoolModel<J>)
    requires
        m.max_workers >= 1,
    ensures
        pool_ready(sweep(m).0),
        sweep(m).1 + sweep(m).0.waiting == m.waiting,
        sweep(m).0.max_workers == m.max_workers,
        sweep(m).0.running + sweep(m).0.waiting.len() == m.running + m.waiting.len(),
{
    let k = start_count(m) as int;
    assert(m.waiting.take(k) + m.waiting.skip(k) =~= m.waiting);
}

proof fn lemma_op_step_ready<J>(m: PoolModel<J>, op: PoolOp<J>)
    requires
        pool_ready(m),
        op_valid(m, op),
    ensures
        pool_ready(apply_op(m, op).0),
        apply_op(m, op).1 + apply_op(m, op).0.waiting == m.waiting + match op {
            PoolOp::Submit(j) => seq![j],
            _ => Seq::empty(),
        },
{
    match op {
        PoolOp::Submit(j) => {
            if m.running < m.max_workers {
                assert(m.waiting.len() == 0);
                assert(seq![j] + m.waiting =~= m.waiting + seq![j]);
            } else {
                assert(Seq::<J>::empty() + m.waiting.push(j) =~= m.waiting + seq![j]);
            }
        },
        PoolOp::Complete => {
            lemma_sweep_ready(PoolModel { running: (m.running - 1) as nat, ..m });
            assert(m.waiting + Seq::<J>::empty() =~= m.waiting);
        },
        PoolOp::SetMaxWorkers(n) => {
            lemma_sweep_ready(PoolModel { max_workers: n, ..m });
            assert(m.waiting + Seq::<J>::empty() =~= m.waiting);
        },
    }
}

/// For any run of valid operations, with any positive limits, raised or
/// lowered below the jobs running: a job waits only when no slot is free,
/// after every operation; and every job submitted is started at most once,
/// queued jobs in the order of submission: the jobs started, followed by
/// those still waiting, are the jobs that were waiting, followed by those
/// submitted.
pub proof fn lemma_pool_run_any_limit<J>(m: PoolModel<J>, ops: Seq<PoolOp<J>>)
    requires
        pool_ready(m),
        ops_valid(m, ops),
    ensures
        pool_ready(run_ops(m, ops).0),
        run_ops(m, ops).1 + run_ops(m, ops).0.waiting == m.waiting + submitted(ops),
    decreases ops.len(),
{
    if ops.len() == 0 {
        assert(Seq::<J>::empty() + m.waiting =~= m.waiting + Seq::<J>::empty());
    } else {
        let op = ops[0];
        lemma_op_step_ready(m, op);
        let (m1, s1) = apply_op(m, op);
        lemma_pool_run_any_limit(m1, ops.skip(1));
        let (m2, s2) = run_ops(m1, ops.skip(1));
        let added = match op {
            PoolOp::Submit(j) => seq![j],
            _ => Seq::<J>::empty(),
        };
        assert(submitted(ops) =~= added + submitted(ops.skip(1)));
        assert((s1 + s2) + m2.waiting =~= s1 + (s2 + m2.waiting));
        assert(s1 + (m1.waiting + submitted(ops.skip(1))) =~= (s1 + m1.waiting) + submitted(
            ops.skip(1),
        ));
        assert((m.waiting + added) + submitted(ops.skip(1)) =~= m.waiting + (added + submitted(
            ops.skip(1),
        )));
    }
}

/// Every waiting job is eventually run, once the jobs run terminate: from
/// a state where a job waits only when no slot is free, with `n` the jobs
/// running plus those waiting, `n` completions are each valid (a job runs
/// each time), and after them nothing runs or waits, and the jobs started
/// are exactly the waiting ones, each once, in queue order.
pub proof fn lemma_pool_drains<J>(m: PoolModel<J>)
    requires
        pool_ready(m),
    ensures
        ops_valid(m, completions::<J>(m.running + m.waiting.len())),
        run_ops(m, completions::<J>(m.running + m.waiting.len())).0.running == 0,
        run_ops(m, completions::<J>(m.running + m.waiting.len())).0.waiting.len() == 0,
        run_ops(m, completions::<J>(m.running + m.waiting.len())).1 == m.waiting,
    decreases m.running + m.waiting.len(),
{
    let n = m.running + m.waiting.len();
    let ops = completions::<J>(n);
    if n == 0 {
        assert(m.waiting =~= Seq::<J>::empty());
    } else {
        assert(m.running > 0);
        let freed = PoolModel { running: (m.running - 1) as nat, ..m };
        lemma_sweep_ready(freed);
        let (m1, s1) = complete(m);
        assert(ops[0] == PoolOp::<J>::Complete);
        assert(ops.skip(1) =~= completions::<J>((n - 1) as nat));
        lemma_pool_drains(m1);
        let (m2, s2) = run_ops(m1, ops.skip(1));
        assert(s2 == m1.waiting);
        assert(s1 + s2 == m.waiting);
    }
}

} // verus!
