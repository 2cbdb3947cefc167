//! Job bookkeeping of a worker thread pool.
//!
//! A pool owns a fixed, positive number of worker threads that take jobs
//! off a shared queue. This module holds the verified part of that design:
//! the count of jobs currently being executed, which each worker raises
//! when it picks a job up and lowers when the job is done, and on which
//! the pool's completion barrier waits until it reaches zero. The threads,
//! the queue and the blocking wait themselves stand outside the library;
//! they drive this state and inherit its guarantees.

use vstd::prelude::*;

verus! {

/// Why a pool could not be built.
#[derive(Debug, PartialEq, Eq, Structural)]
pub enum PoolError {
    /// A pool with no worker could never run a job.
    ZeroWorkers,
}

/// Verified bookkeeping of a worker thread pool: how many workers it has
/// and how many jobs are being executed right now, together with running
/// totals of the jobs ever started and ever finished.
pub struct ThreadPoolInner {
    worker_count: usize,
    job_count: usize,
    started_jobs: Ghost<nat>,
    finished_jobs: Ghost<nat>,
}

impl ThreadPoolInner {
    /// How many worker threads the pool was built for.
    pub closed spec fn workers(&self) -> nat {
        self.worker_count as nat
    }

    /// How many jobs are being executed right now.
    pub closed spec fn active(&self) -> nat {
        self.job_count as nat
    }

    /// How many jobs have ever been started.
    pub closed spec fn started(&self) -> nat {
        self.started_jobs@
    }

    /// How many jobs have ever been finished.
    pub closed spec fn finished(&self) -> nat {
        self.finished_jobs@
    }

    #[verifier::type_invariant]
    spec fn wf(&self) -> bool {
        &&& self.worker_count >= 1
        &&& self.finished_jobs@ + self.job_count == self.started_jobs@
    }

    /// Creates the bookkeeping for a pool of `size` workers, with no job
    /// running; fails exactly when `size` is zero.
    pub fn new(size: usize) -> (r: Result<Self, PoolError>)
        ensures
            match r {
                Ok(p) => size > 0 && p.workers() == size && p.active() == 0 && p.started() == 0
                    && p.finished() == 0,
                Err(e) => size == 0 && e == PoolError::ZeroWorkers,
            },
    {
        if size == 0 {
            Err(PoolError::ZeroWorkers)
        } else {
            Ok(
                ThreadPoolInner {
                    worker_count: size,
                    job_count: 0,
                    started_jobs: Ghost(0),
                    finished_jobs: Ghost(0),
                },
            )
        }
    }

    /// A worker picked a job up: one more job is active.
    pub fn start_job(&mut self)
        requires
            old(self).active() < usize::MAX,
        ensures
            final(self).active() == old(self).active() + 1,
            final(self).started() == old(self).started() + 1,
            final(self).finished() == old(self).finished(),
            final(self).workers() == old(self).workers(),
    {
        proof {
            use_type_invariant(&*self);
        }
        *self = ThreadPoolInner {
            worker_count: self.worker_count,
            job_count: self.job_count + 1,
            started_jobs: Ghost(self.started_jobs@ + 1),
            finished_jobs: self.finished_jobs,
        };
    }

    /// A worker completed a job: one job less is active.
    pub fn finish_job(&mut self)
        requires
            old(self).active() > 0,
        ensures
            final(self).active() == old(self).active() - 1,
            final(self).finished() == old(self).finished() + 1,
            final(self).started() == old(self).started(),
            final(self).workers() == old(self).workers(),
    {
        proof {
            use_type_invariant(&*self);
        }
        *self = ThreadPoolInner {
            worker_count: self.worker_count,
            job_count: self.job_count - 1,
            started_jobs: self.started_jobs,
            finished_jobs: Ghost(self.finished_jobs@ + 1),
        };
    }

    /// How many jobs are being executed right now.
    pub fn active_jobs(&self) -> (r: usize)
        ensures
            r == self.active(),
    {
        self.job_count
    }

    /// Whether no job is active: the condition the completion barrier
    /// waits for. When it holds, every job ever started has finished, so a
    /// barrier that saw every submitted job start observes all of them
    /// completed.
    pub fn is_empty(&self) -> (r: bool)
        ensures
            r == (self.active() == 0),
            r ==> self.started() == self.finished(),
    {
        proof {
            use_type_invariant(self);
        }
        self.job_count == 0
    }
}

} // verus!
