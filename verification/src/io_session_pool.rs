//! Queues of a pool that carries out reads and writes: jobs in the order they came,
//! and completions to be harvested.

use vstd::prelude::*;
use std::collections::VecDeque;

verus! {

/// Most workers of a pool.
pub const POOL_WORKERS_MAX: usize = 16;

/// A read or write of one buffer.
#[derive(Clone, Copy, Debug, PartialEq, Eq, Structural)]
pub struct PoolJob {
    /// Number of the open file.
    pub handle: u64,
    pub offset: u64,
    pub len: usize,
    pub user_data: u64,
    pub write: bool,
}

/// A job that was carried out: its user data and the result of the call.
#[derive(Clone, Copy, Debug, PartialEq, Eq, Structural)]
pub struct PoolDone {
    pub user_data: u64,
    pub res: i32,
}

/// Number of workers to start.
pub fn pool_workers(n: usize) -> (r: usize)
    ensures
        r == (if n < 1 {
            1
        } else if n > 16 {
            16
        } else {
            n as int
        }),
{
    if n < 1 {
        1
    } else if n > POOL_WORKERS_MAX {
        POOL_WORKERS_MAX
    } else {
        n
    }
}

/// The queues of a pool.
pub struct PoolQueue {
    pub jobs: VecDeque<PoolJob>,
    /// Jobs that a worker has taken and not finished.
    pub running: usize,
    pub done: VecDeque<PoolDone>,
    pub shutdown: bool,
}

/// Jobs that were pushed and whose completion was not harvested.
pub open spec fn in_flight(q: PoolQueue) -> int {
    q.jobs@.len() + q.running + q.done@.len()
}

/// Nothing is queued or running.
pub open spec fn is_idle(q: PoolQueue) -> bool {
    q.jobs@.len() == 0 && q.running == 0
}

impl PoolQueue {
    /// Empty queues.
    pub fn open() -> (r: Self)
        ensures
            in_flight(r) == 0,
            !r.shutdown,
    {
        PoolQueue {
            jobs: VecDeque::new(),
            running: 0,
            done: VecDeque::new(),
            shutdown: false,
        }
    }

    /// Queues a job. One without bytes is done at once, without a completion. True if
    /// a worker has to be woken.
    pub fn push(&mut self, job: PoolJob) -> (r: bool)
        ensures
            r == (job.len > 0),
            final(self).jobs@ == (if job.len > 0 {
                old(self).jobs@.push(job)
            } else {
                old(self).jobs@
            }),
            final(self).running == old(self).running,
            final(self).done@ == old(self).done@,
            final(self).shutdown == old(self).shutdown,
    {
        if job.len == 0 {
            return false;
        }
        self.jobs.push_back(job);
        true
    }

    /// Gives a worker the oldest job, which then counts as running. `None` where there
    /// is none, or the pool is shut down.
    pub fn take(&mut self) -> (r: Option<PoolJob>)
        requires
            old(self).running < usize::MAX,
        ensures
            match r {
                Some(j) => {
                    &&& !old(self).shutdown
                    &&& old(self).jobs@.len() > 0
                    &&& j == old(self).jobs@[0]
                    &&& final(self).jobs@ == old(self).jobs@.subrange(
                        1,
                        old(self).jobs@.len() as int,
                    )
                    &&& final(self).running == old(self).running + 1
                },
                None => {
                    &&& old(self).shutdown || old(self).jobs@.len() == 0
                    &&& final(self).jobs@ == old(self).jobs@
                    &&& final(self).running == old(self).running
                },
            },
            final(self).done@ == old(self).done@,
            final(self).shutdown == old(self).shutdown,
    {
        if self.shutdown {
            return None;
        }
        match self.jobs.pop_front() {
            Some(j) => {
                self.running += 1;
                Some(j)
            },
            None => None,
        }
    }

    /// Takes the result of a running job.
    pub fn finish(&mut self, user_data: u64, res: i32)
        requires
            old(self).running > 0,
        ensures
            final(self).running == old(self).running - 1,
            final(self).done@ == old(self).done@.push(PoolDone { user_data, res }),
            final(self).jobs@ == old(self).jobs@,
            final(self).shutdown == old(self).shutdown,
    {
        self.done.push_back(PoolDone { user_data, res });
        self.running -= 1;
    }

    /// All completions so far, oldest first.
    pub fn harvest_ready(&mut self) -> (r: Vec<PoolDone>)
        ensures
            r@ == old(self).done@,
            final(self).done@.len() == 0,
            final(self).jobs@ == old(self).jobs@,
            final(self).running == old(self).running,
            final(self).shutdown == old(self).shutdown,
    {
        let mut out: Vec<PoolDone> = Vec::new();
        let ghost all = self.done@;
        let ghost before = *self;
        proof {
            assert(all.subrange(0, 0) =~= out@);
            assert(all.subrange(0, all.len() as int) =~= all);
        }
        while self.done.len() > 0
            invariant
                out@.len() <= all.len(),
                out@ == all.subrange(0, out@.len() as int),
                self.done@ == all.subrange(out@.len() as int, all.len() as int),
                self.jobs@ == before.jobs@,
                self.running == before.running,
                self.shutdown == before.shutdown,
            decreases self.done@.len(),
        {
            let ghost n = out@.len() as int;
            let ghost rest = self.done@;
            match self.done.pop_front() {
                Some(d) => {
                    out.push(d);
                    proof {
                        assert(rest[0] == all[n]);
                        assert(out@ =~= all.subrange(0, n + 1));
                        assert(self.done@ =~= all.subrange(n + 1, all.len() as int));
                    }
                },
                None => {},
            }
        }
        proof {
            assert(out@.len() == all.len());
            assert(out@ =~= all);
        }
        out
    }

    /// True if nothing is queued or running.
    pub fn idle(&self) -> (r: bool)
        ensures
            r == is_idle(*self),
    {
        self.jobs.len() == 0 && self.running == 0
    }

    /// True as long as a caller that waits for one completion has to go on waiting.
    pub fn wait_one_cqe(&self) -> (r: bool)
        ensures
            r == (self.done@.len() == 0 && !is_idle(*self)),
    {
        self.done.len() == 0 && !self.idle()
    }

    /// Ends the work of the pool.
    pub fn close(&mut self)
        ensures
            final(self).shutdown,
            final(self).jobs@ == old(self).jobs@,
            final(self).running == old(self).running,
            final(self).done@ == old(self).done@,
    {
        self.shutdown = true;
    }
}

/// Taking and finishing a job loses nothing: as many jobs are in flight as before, and
/// the completion of the oldest one is the last of the completions.
pub proof fn law_job_comes_back(a: PoolQueue, b: PoolQueue, c: PoolQueue, res: i32)
    requires
        a.jobs@.len() > 0,
        b.jobs@ == a.jobs@.subrange(1, a.jobs@.len() as int),
        b.running == a.running + 1,
        b.done@ == a.done@,
        c.jobs@ == b.jobs@,
        c.running == b.running - 1,
        c.done@ == b.done@.push(PoolDone { user_data: a.jobs@[0].user_data, res }),
    ensures
        in_flight(b) == in_flight(a),
        in_flight(c) == in_flight(a),
        c.done@.last() == (PoolDone { user_data: a.jobs@[0].user_data, res }),
        !is_idle(b),
{
}

/// Once the pool is idle all that was pushed and not harvested is there to harvest.
pub proof fn law_idle_is_complete(q: PoolQueue)
    requires
        is_idle(q),
    ensures
        in_flight(q) == q.done@.len(),
{
}

} // verus!
