//! Runs of a pool: sequences of events, and what holds after every one of
//! them, whatever the order in which the workers come and go.

use crate::pool::{count_busy, JobOutcome, PoolView};
use vstd::multiset::Multiset;
use vstd::prelude::*;
use vstd::seq_lib::to_multiset_build;

verus! {

/// What can happen to a pool.
pub enum PoolEvent<J> {
    /// A job is submitted.
    Submit(J),
    /// The worker of this number asks for a job.
    Claim(int),
    /// The worker of this number reports how its job ended.
    Finish(int, JobOutcome),
}

/// The state after one event.
pub open spec fn step<J>(s: PoolView<J>, e: PoolEvent<J>) -> PoolView<J> {
    match e {
        PoolEvent::Submit(job) => s.submit(job),
        PoolEvent::Claim(worker) => s.claim(worker),
        PoolEvent::Finish(worker, _) => s.finish(worker),
    }
}

/// The state after a run of events.
pub open spec fn replay<J>(s: PoolView<J>, events: Seq<PoolEvent<J>>) -> PoolView<J>
    decreases events.len(),
{
    if events.len() == 0 {
        s
    } else {
        step(replay(s, events.drop_last()), events.last())
    }
}

/// The jobs that a run submits, in order.
pub open spec fn submitted<J>(events: Seq<PoolEvent<J>>) -> Seq<J>
    decreases events.len(),
{
    if events.len() == 0 {
        Seq::empty()
    } else {
        let earlier = submitted(events.drop_last());
        match events.last() {
            PoolEvent::Submit(job) => earlier.push(job),
            _ => earlier,
        }
    }
}

/// The jobs that a run hands to workers, in order.
pub open spec fn dispatched<J>(s: PoolView<J>, events: Seq<PoolEvent<J>>) -> Seq<J>
    decreases events.len(),
{
    if events.len() == 0 {
        Seq::empty()
    } else {
        let earlier = dispatched(s, events.drop_last());
        let before = replay(s, events.drop_last());
        match events.last() {
            PoolEvent::Claim(worker) => match before.claimed(worker) {
                Some(job) => earlier.push(job),
                None => earlier,
            },
            _ => earlier,
        }
    }
}

/// The jobs that come to their end during a run, in order.
pub open spec fn finished<J>(s: PoolView<J>, events: Seq<PoolEvent<J>>) -> Seq<J>
    decreases events.len(),
{
    if events.len() == 0 {
        Seq::empty()
    } else {
        let earlier = finished(s, events.drop_last());
        let before = replay(s, events.drop_last());
        match events.last() {
            PoolEvent::Finish(worker, _) => if before.is_busy(worker) {
                earlier.push(before.running[worker].unwrap())
            } else {
                earlier
            },
            _ => earlier,
        }
    }
}

/// The jobs that the workers of `running` run.
pub open spec fn running_jobs<J>(running: Seq<Option<J>>) -> Multiset<J>
    decreases running.len(),
{
    if running.len() == 0 {
        Multiset::empty()
    } else {
        let others = running_jobs(running.drop_last());
        match running.last() {
            Some(job) => others.insert(job),
            None => others,
        }
    }
}

/// `worker` claims a job and finishes it, `rounds` times over.
pub open spec fn serve<J>(worker: int, rounds: nat) -> Seq<PoolEvent<J>>
    decreases rounds,
{
    if rounds == 0 {
        Seq::empty()
    } else {
        serve(worker, (rounds - 1) as nat).push(PoolEvent::Claim(worker)).push(
            PoolEvent::Finish(worker, JobOutcome::Completed),
        )
    }
}

/// The run in which each of `jobs` is submitted, in order, and nothing else
/// happens.
pub open spec fn submissions<J>(jobs: Seq<J>) -> Seq<PoolEvent<J>> {
    jobs.map_values(|job: J| PoolEvent::Submit(job))
}

/// Every worker of `s` runs a job.
pub open spec fn saturated<J>(s: PoolView<J>) -> bool {
    forall|w: int| 0 <= w < s.running.len() ==> (#[trigger] s.running[w]) is Some
}

/// No more workers are busy than there are.
pub proof fn lemma_count_busy_bound<J>(running: Seq<Option<J>>)
    ensures
        count_busy(running) <= running.len(),
    decreases running.len(),
{
    if running.len() > 0 {
        lemma_count_busy_bound(running.drop_last());
    }
}

/// A job that an idle worker takes up is one more job that runs.
pub proof fn lemma_running_jobs_start<J>(running: Seq<Option<J>>, worker: int, job: J)
    requires
        0 <= worker < running.len(),
        running[worker] is None,
    ensures
        running_jobs(running.update(worker, Some(job))) == running_jobs(running).insert(job),
    decreases running.len(),
{
    let after = running.update(worker, Some(job));
    if worker == running.len() - 1 {
        assert(after.drop_last() =~= running.drop_last());
    } else {
        assert(after.drop_last() =~= running.drop_last().update(worker, Some(job)));
        lemma_running_jobs_start(running.drop_last(), worker, job);
        match running.last() {
            Some(other) => {
                assert(running_jobs(running.drop_last()).insert(job).insert(other)
                    =~= running_jobs(running.drop_last()).insert(other).insert(job));
            },
            None => {},
        }
    }
}

/// A job that a worker is done with is one job less that runs.
pub proof fn lemma_running_jobs_end<J>(running: Seq<Option<J>>, worker: int)
    requires
        0 <= worker < running.len(),
        running[worker] is Some,
    ensures
        running_jobs(running.update(worker, None)).insert(running[worker].unwrap())
            == running_jobs(running),
    decreases running.len(),
{
    let after = running.update(worker, None);
    let job = running[worker].unwrap();
    if worker == running.len() - 1 {
        assert(after.drop_last() =~= running.drop_last());
    } else {
        assert(after.drop_last() =~= running.drop_last().update(worker, None));
        lemma_running_jobs_end(running.drop_last(), worker);
        match running.last() {
            Some(other) => {
                assert(running_jobs(after.drop_last()).insert(other).insert(job)
                    =~= running_jobs(after.drop_last()).insert(job).insert(other));
            },
            None => {},
        }
    }
}

/// The size of a pool is fixed: no run of events adds or loses a worker.
pub proof fn law_pool_size_is_fixed<J>(s: PoolView<J>, events: Seq<PoolEvent<J>>)
    ensures
        replay(s, events).size() == s.size(),
    decreases events.len(),
{
    if events.len() > 0 {
        law_pool_size_is_fixed(s, events.drop_last());
    }
}

/// After every run of events, no more jobs are being run than the pool has
/// workers.
pub proof fn law_active_jobs_are_bounded<J>(s: PoolView<J>, events: Seq<PoolEvent<J>>)
    ensures
        replay(s, events).active() <= s.size(),
{
    law_pool_size_is_fixed(s, events);
    lemma_count_busy_bound(replay(s, events).running);
}

/// Jobs leave the queue in the order in which they came, each of them once:
/// the jobs that waited at the start, followed by those that the run
/// submitted, are those that the run handed to workers, followed by those
/// that still wait. No job is dropped, however long the workers are busy.
pub proof fn law_jobs_leave_in_arrival_order<J>(s: PoolView<J>, events: Seq<PoolEvent<J>>)
    ensures
        s.pending + submitted(events) == dispatched(s, events) + replay(s, events).pending,
    decreases events.len(),
{
    if events.len() == 0 {
        assert(s.pending + submitted(events) =~= dispatched(s, events) + s.pending);
    } else {
        let earlier = events.drop_last();
        law_jobs_leave_in_arrival_order(s, earlier);
        let before = replay(s, earlier);
        let after = replay(s, events);
        match events.last() {
            PoolEvent::Submit(job) => {
                assert(s.pending + submitted(earlier).push(job) =~= (s.pending + submitted(
                    earlier,
                )).push(job));
                assert((dispatched(s, earlier) + before.pending).push(job) =~= dispatched(
                    s,
                    events,
                ) + after.pending);
            },
            PoolEvent::Claim(worker) => {
                if before.can_claim(worker) {
                    assert(dispatched(s, earlier) + before.pending =~= dispatched(s, events)
                        + after.pending);
                }
            },
            PoolEvent::Finish(worker, _) => {},
        }
    }
}

/// Each job that is handed to a worker is run by one worker and comes to one
/// end: the jobs that ran at the start, with those that the run handed out,
/// are those that run at its end, with those that finished.
pub proof fn law_each_job_runs_once<J>(s: PoolView<J>, events: Seq<PoolEvent<J>>)
    ensures
        running_jobs(s.running).add(dispatched(s, events).to_multiset()) == running_jobs(
            replay(s, events).running,
        ).add(finished(s, events).to_multiset()),
    decreases events.len(),
{
    broadcast use to_multiset_build;

    if events.len() == 0 {
        assert(dispatched(s, events).to_multiset() =~= finished(s, events).to_multiset());
    } else {
        let earlier = events.drop_last();
        law_each_job_runs_once(s, earlier);
        let before = replay(s, earlier);
        let after = replay(s, events);
        let start = running_jobs(s.running);
        let out = dispatched(s, earlier).to_multiset();
        let done = finished(s, earlier).to_multiset();
        match events.last() {
            PoolEvent::Submit(job) => {},
            PoolEvent::Claim(worker) => {
                if before.can_claim(worker) {
                    let job = before.pending[0];
                    lemma_running_jobs_start(before.running, worker, job);
                    assert(start.add(out.insert(job)) =~= start.add(out).insert(job));
                    assert(running_jobs(before.running).insert(job).add(done) =~= running_jobs(
                        before.running,
                    ).add(done).insert(job));
                }
            },
            PoolEvent::Finish(worker, _) => {
                if before.is_busy(worker) {
                    let job = before.running[worker].unwrap();
                    lemma_running_jobs_end(before.running, worker);
                    assert(running_jobs(after.running).add(done.insert(job)) =~= running_jobs(
                        after.running,
                    ).insert(job).add(done));
                }
            },
        }
    }
}

/// Submitting touches no worker: after jobs were submitted they wait behind
/// those that waited before, in the order in which they came, and every
/// worker runs what it ran.
pub proof fn law_submissions_only_queue<J>(s: PoolView<J>, jobs: Seq<J>)
    ensures
        replay(s, submissions(jobs)) == (PoolView {
            pending: s.pending + jobs,
            running: s.running,
        }),
        submitted(submissions(jobs)) == jobs,
    decreases jobs.len(),
{
    if jobs.len() == 0 {
        assert(s.pending + jobs =~= s.pending);
        assert(submitted(submissions(jobs)) =~= jobs);
    } else {
        law_submissions_only_queue(s, jobs.drop_last());
        assert(submissions(jobs).drop_last() =~= submissions(jobs.drop_last()));
        assert((s.pending + jobs.drop_last()).push(jobs.last()) =~= s.pending + jobs);
        assert(jobs.drop_last().push(jobs.last()) =~= jobs);
    }
}

/// While every worker is busy, a job that is submitted waits at the end of
/// the queue: no worker can take it, and nothing but the queue has changed.
/// The worker that is done first then gets the oldest waiting job.
pub proof fn law_saturated_pool_queues_the_job<J>(s: PoolView<J>, job: J, worker: int)
    requires
        saturated(s),
    ensures
        s.submit(job).pending == s.pending.push(job),
        s.submit(job).running == s.running,
        s.submit(job).claimed(worker) is None,
        s.submit(job).claim(worker) == s.submit(job),
        0 <= worker < s.size() ==> s.submit(job).finish(worker).claimed(worker) == Some(
            s.pending.push(job)[0],
        ),
{
}

/// A worker that is free, and comes back for more, empties the queue: it is
/// handed each waiting job, oldest first, and brings each to its end.
pub proof fn law_free_worker_drains_the_queue<J>(s: PoolView<J>, worker: int, rounds: nat)
    requires
        s.is_idle(worker),
        rounds <= s.pending.len(),
    ensures
        dispatched(s, serve(worker, rounds)) == s.pending.take(rounds as int),
        finished(s, serve(worker, rounds)) == s.pending.take(rounds as int),
        replay(s, serve(worker, rounds)).pending == s.pending.skip(rounds as int),
        replay(s, serve(worker, rounds)).running == s.running,
    decreases rounds,
{
    let events = serve::<J>(worker, rounds);
    if rounds == 0 {
        assert(s.pending.take(0) =~= Seq::empty());
        assert(s.pending.skip(0) =~= s.pending);
    } else {
        let n = (rounds - 1) as nat;
        let earlier = serve::<J>(worker, n);
        let claim = earlier.push(PoolEvent::Claim(worker));
        law_free_worker_drains_the_queue(s, worker, n);
        assert(events.drop_last() =~= claim);
        assert(claim.drop_last() =~= earlier);
        let before = replay(s, earlier);
        let job = s.pending[n as int];
        assert(before.claimed(worker) == Some(job));
        let during = replay(s, claim);
        assert(during == before.claim(worker));
        assert(during.pending =~= s.pending.skip(rounds as int));
        assert(during.is_busy(worker));
        assert(during.running[worker] == Some(job));
        assert(replay(s, events) == during.finish(worker));
        assert(replay(s, events).running =~= s.running);
        assert(s.pending.take(n as int).push(job) =~= s.pending.take(rounds as int));
        assert(dispatched(s, claim) == dispatched(s, earlier).push(job));
        assert(dispatched(s, events) == dispatched(s, claim));
        assert(finished(s, claim) == finished(s, earlier));
        assert(finished(s, events) == finished(s, claim).push(job));
    }
}

/// No job is lost to a busy pool. A job that is submitted while every worker
/// is busy waits; once a worker is done and comes back for more, that worker
/// alone runs all that waited, the new job last.
pub proof fn law_waiting_job_is_run<J>(s: PoolView<J>, job: J, worker: int)
    requires
        saturated(s),
        0 <= worker < s.size(),
    ensures
        ({
            let freed = s.submit(job).finish(worker);
            let events = serve::<J>(worker, freed.pending.len());
            &&& dispatched(freed, events) == s.pending.push(job)
            &&& finished(freed, events) == s.pending.push(job)
            &&& replay(freed, events).pending == Seq::<J>::empty()
        }),
{
    let freed = s.submit(job).finish(worker);
    law_free_worker_drains_the_queue(freed, worker, freed.pending.len());
    assert(freed.pending.take(freed.pending.len() as int) =~= freed.pending);
    assert(freed.pending.skip(freed.pending.len() as int) =~= Seq::empty());
}

/// A failure stays with the job in which it happened. Whether a job
/// completed or panicked, its worker is idle afterwards and takes the oldest
/// waiting job when it asks; the pool keeps its size, and no other worker is
/// touched.
pub proof fn law_failure_stays_with_the_job<J>(s: PoolView<J>, worker: int)
    requires
        s.is_busy(worker),
    ensures
        step(s, PoolEvent::Finish(worker, JobOutcome::Panicked)) == step(
            s,
            PoolEvent::Finish(worker, JobOutcome::Completed),
        ),
        s.finish(worker).size() == s.size(),
        s.finish(worker).is_idle(worker),
        s.finish(worker).pending == s.pending,
        s.pending.len() > 0 ==> s.finish(worker).claimed(worker) == Some(s.pending[0]),
        forall|other: int|
            0 <= other < s.size() && other != worker ==> #[trigger] s.finish(worker).running[other]
                == s.running[other],
{
}

/// Two workers do not wait for each other. Their jobs may end in either
/// order, with the same state afterwards; and that one of them claims or
/// finishes changes neither what the other runs nor what it is handed when
/// it finishes and asks.
pub proof fn law_workers_are_independent<J>(s: PoolView<J>, a: int, b: int)
    requires
        a != b,
    ensures
        s.finish(a).finish(b) == s.finish(b).finish(a),
        s.finish(a).is_busy(b) == s.is_busy(b),
        s.claim(a).is_busy(b) == s.is_busy(b),
        s.is_busy(b) ==> s.finish(a).finish(b).is_idle(b) && s.claim(a).finish(b).is_idle(b),
{
    assert(s.finish(a).finish(b).running =~= s.finish(b).finish(a).running);
}

} // verus!
