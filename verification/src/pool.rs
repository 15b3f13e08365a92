//! A worker pool of fixed size and its job queue, as a state machine.
//!
//! The pool keeps the books: which jobs wait, in arrival order, and which
//! worker is busy. Whoever owns the threads asks it what to do next.
//! Submitting a job never waits for a worker; a worker that is free claims
//! the oldest waiting job; a worker that is done, however its job ended,
//! is free again.

use std::collections::VecDeque;
use vstd::prelude::*;

verus! {

/// How a job ended.
#[derive(Clone, Copy, Debug, PartialEq, Eq, Structural)]
pub enum JobOutcome {
    /// The job ran to its end.
    Completed,
    /// The job panicked; the failure stays with the job.
    Panicked,
}

/// The state of a pool: the jobs that wait, oldest first, and for each
/// worker the job that it runs, if any.
pub struct PoolView<J> {
    pub pending: Seq<J>,
    pub running: Seq<Option<J>>,
}

/// The number of workers of `running` that run a job.
pub open spec fn count_busy<J>(running: Seq<Option<J>>) -> nat
    decreases running.len(),
{
    if running.len() == 0 {
        0
    } else {
        count_busy(running.drop_last()) + if running.last() is Some {
            1nat
        } else {
            0nat
        }
    }
}

impl<J> PoolView<J> {
    /// The number of workers.
    pub open spec fn size(self) -> nat {
        self.running.len()
    }

    /// `worker` is one of the pool's workers and runs no job.
    pub open spec fn is_idle(self, worker: int) -> bool {
        0 <= worker < self.running.len() && self.running[worker] is None
    }

    /// `worker` is one of the pool's workers and runs a job.
    pub open spec fn is_busy(self, worker: int) -> bool {
        0 <= worker < self.running.len() && self.running[worker] is Some
    }

    /// The number of jobs that are being run.
    pub open spec fn active(self) -> nat {
        count_busy(self.running)
    }

    /// The state after `job` was put at the end of the queue.
    pub open spec fn submit(self, job: J) -> PoolView<J> {
        PoolView { pending: self.pending.push(job), running: self.running }
    }

    /// `worker` is idle and a job waits.
    pub open spec fn can_claim(self, worker: int) -> bool {
        self.is_idle(worker) && self.pending.len() > 0
    }

    /// The job that `worker` gets when it asks for one.
    pub open spec fn claimed(self, worker: int) -> Option<J> {
        if self.can_claim(worker) {
            Some(self.pending[0])
        } else {
            None
        }
    }

    /// The state after `worker` asked for a job: the oldest waiting job has
    /// moved to the worker, or nothing has changed.
    pub open spec fn claim(self, worker: int) -> PoolView<J> {
        if self.can_claim(worker) {
            PoolView {
                pending: self.pending.drop_first(),
                running: self.running.update(worker, Some(self.pending[0])),
            }
        } else {
            self
        }
    }

    /// The state after `worker` reported the end of its job: the worker is
    /// idle, or nothing has changed.
    pub open spec fn finish(self, worker: int) -> PoolView<J> {
        if self.is_busy(worker) {
            PoolView { pending: self.pending, running: self.running.update(worker, None) }
        } else {
            self
        }
    }
}

/// A pool of a fixed number of workers with an unbounded queue of jobs.
pub struct WorkerPool<J> {
    queue: VecDeque<J>,
    busy: Vec<bool>,
    running: Ghost<Seq<Option<J>>>,
}

impl<J> View for WorkerPool<J> {
    type V = PoolView<J>;

    closed spec fn view(&self) -> PoolView<J> {
        PoolView { pending: self.queue@, running: self.running@ }
    }
}

impl<J> WorkerPool<J> {
    /// The pool has a worker, and its flags agree with the jobs that run.
    pub closed spec fn wf(&self) -> bool {
        &&& self.busy@.len() > 0
        &&& self.busy@.len() == self.running@.len()
        &&& forall|w: int|
            0 <= w < self.busy@.len() ==> self.busy@[w] == (#[trigger] self.running@[w] is Some)
    }

    /// A pool of `size` idle workers with nothing queued.
    pub fn new(size: usize) -> (pool: WorkerPool<J>)
        requires
            size > 0,
        ensures
            pool.wf(),
            pool@.pending == Seq::<J>::empty(),
            pool@.running == Seq::new(size as nat, |w: int| None::<J>),
    {
        let mut busy: Vec<bool> = Vec::new();
        let mut i: usize = 0;
        while i < size
            invariant
                i <= size,
                busy@.len() == i,
                forall|w: int| 0 <= w < i ==> !busy@[w],
            decreases size - i,
        {
            busy.push(false);
            i += 1;
        }
        WorkerPool {
            queue: VecDeque::new(),
            busy,
            running: Ghost(Seq::new(size as nat, |w: int| None::<J>)),
        }
    }

    /// The number of workers.
    pub fn size(&self) -> (n: usize)
        requires
            self.wf(),
        ensures
            n == self@.size(),
            n > 0,
    {
        self.busy.len()
    }

    /// The number of jobs that wait.
    pub fn pending(&self) -> (n: usize)
        ensures
            n == self@.pending.len(),
    {
        self.queue.len()
    }

    /// Whether `worker` runs a job. No worker has a number from `size()` on.
    pub fn is_busy(&self, worker: usize) -> (b: bool)
        requires
            self.wf(),
        ensures
            b == self@.is_busy(worker as int),
    {
        worker < self.busy.len() && self.busy[worker]
    }

    /// The number of jobs that are being run.
    pub fn active(&self) -> (n: usize)
        requires
            self.wf(),
        ensures
            n == self@.active(),
            n <= self@.size(),
    {
        let mut n: usize = 0;
        let mut i: usize = 0;
        assert(self.running@.take(0) =~= Seq::empty());
        while i < self.busy.len()
            invariant
                self.wf(),
                i <= self.busy@.len(),
                n == count_busy(self.running@.take(i as int)),
                n <= i,
            decreases self.busy@.len() - i,
        {
            proof {
                let next = self.running@.take(i + 1);
                assert(next.drop_last() =~= self.running@.take(i as int));
                assert(next.last() == self.running@[i as int]);
            }
            if self.busy[i] {
                n += 1;
            }
            i += 1;
        }
        assert(self.running@.take(i as int) =~= self.running@);
        n
    }

    /// Puts `job` at the end of the queue. Never waits and never fails,
    /// however many workers are busy.
    pub fn execute(&mut self, job: J)
        requires
            old(self).wf(),
        ensures
            final(self).wf(),
            final(self)@ == old(self)@.submit(job),
    {
        self.queue.push_back(job);
    }

    /// Hands the oldest waiting job to `worker`, if the worker is idle and a
    /// job waits.
    pub fn claim(&mut self, worker: usize) -> (job: Option<J>)
        requires
            old(self).wf(),
        ensures
            final(self).wf(),
            job == old(self)@.claimed(worker as int),
            final(self)@ == old(self)@.claim(worker as int),
    {
        if worker >= self.busy.len() || self.busy[worker] {
            return None;
        }
        match self.queue.pop_front() {
            None => None,
            Some(job) => {
                self.busy[worker] = true;
                proof {
                    self.running@ = self.running@.update(worker as int, Some(job));
                    assert(self.queue@ =~= old(self).queue@.drop_first());
                }
                Some(job)
            },
        }
    }

    /// Takes note that `worker` is done with its job, and makes the worker
    /// idle again whether the job completed or panicked. Returns whether the
    /// worker had a job.
    pub fn finish(&mut self, worker: usize, outcome: JobOutcome) -> (was_busy: bool)
        requires
            old(self).wf(),
        ensures
            final(self).wf(),
            was_busy == old(self)@.is_busy(worker as int),
            final(self)@ == old(self)@.finish(worker as int),
    {
        if worker >= self.busy.len() || !self.busy[worker] {
            return false;
        }
        self.busy[worker] = false;
        proof {
            self.running@ = self.running@.update(worker as int, None);
        }
        true
    }
}

} // verus!
