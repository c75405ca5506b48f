//! Working off the job queue.

use crate::model::{error_text, Error};
use crate::store::jobs::{job_done, job_failed, job_is, job_taken, oldest_pending, one_more};
use crate::store::{JobRow, JobStatus, State, Store};
use crate::table::rewritten;
use vstd::prelude::*;

pub use crate::store::jobs::Job;

verus! {

/// What a worker does with a claimed job.
pub trait JobProcessor {
    /// Processes a job. The store stays well-formed, whatever the outcome.
    fn process(&self, store: &mut Store, job: &Job, now: u64) -> (r: Result<(), Error>)
        requires
            old(store)@.wf(),
        ensures
            final(store)@.wf(),
    ;
}

/// Does nothing: every job is done at once.
pub struct NoopProcessor;

impl JobProcessor for NoopProcessor {
    fn process(&self, store: &mut Store, job: &Job, now: u64) -> (r: Result<(), Error>)
        ensures
            r is Ok,
            final(store)@ == old(store)@,
    {
        Ok(())
    }
}

/// The store after a job was processed with this outcome.
pub open spec fn finished(
    s: State,
    job_id: Seq<char>,
    outcome: Result<(), Error>,
    max_attempts: i64,
    now: u64,
) -> State {
    State {
        jobs: match outcome {
            Ok(_) => rewritten(s.jobs, job_is(job_id), job_done(now)),
            Err(e) => rewritten(
                s.jobs,
                job_is(job_id),
                job_failed(error_text(e), max_attempts, now),
            ),
        },
        ..s
    }
}

/// Records the outcome of a job: done, or to be tried again until the attempts reach the cap.
pub fn finish_job(
    store: &mut Store,
    job_id: &str,
    outcome: &Result<(), Error>,
    max_attempts: i64,
    now: u64,
)
    requires
        old(store)@.wf(),
    ensures
        final(store)@.wf(),
        final(store)@ == finished(old(store)@, job_id@, *outcome, max_attempts, now),
{
    match outcome {
        Ok(_) => store.complete_job(job_id, now),
        Err(e) => store.fail_or_retry_job(job_id, e.message().as_str(), max_attempts, now),
    }
}

/// The store with this pending job taken.
pub open spec fn claimed(s: State, p: JobRow, now: u64) -> State {
    State { jobs: rewritten(s.jobs, job_is(p.job_id), job_taken(now)), ..s }
}

/// Whether a job is the one in this row, once it has been claimed.
pub open spec fn is_claim(job: Job, p: JobRow) -> bool {
    &&& job.job_id@ == p.job_id
    &&& job.namespace@ == p.namespace
    &&& job.document_id@ == p.document_id
    &&& job.attempts == one_more(p.attempts)
}

/// Claims one pending job and processes it. Returns whether there was one.
pub fn worker_tick<P: JobProcessor>(store: &mut Store, processor: &P, max_attempts: i64, now: u64) -> (r: bool)
    requires
        old(store)@.wf(),
    ensures
        final(store)@.wf(),
        r == (oldest_pending(old(store)@.jobs) is Some),
        match oldest_pending(old(store)@.jobs) {
            Some(p) => exists|at: &mut Store, job: Job, outcome: Result<(), Error>|
                at@ == claimed(old(store)@, p, now) && is_claim(job, p) && final(at)@.wf()
                    && #[trigger] call_ensures(P::process, (processor, at, &job, now), outcome)
                    && final(store)@ == finished(final(at)@, p.job_id, outcome, max_attempts, now),
            None => final(store)@ == old(store)@,
        },
{
    let job = match store.claim_job(now) {
        Some(j) => j,
        None => {
            return false;
        },
    };
    let at = &mut *store;
    let outcome = processor.process(at, &job, now);
    finish_job(store, job.job_id.as_str(), &outcome, max_attempts, now);
    true
}

/// Law: a job whose processing went well is done; one whose processing failed keeps the error, and waits for
/// another try until it was tried as often as it may be. No other job changes, nor anything else in the store.
pub proof fn law_finished(
    s: State,
    job_id: Seq<char>,
    outcome: Result<(), Error>,
    max_attempts: i64,
    now: u64,
    i: int,
)
    requires
        0 <= i < s.jobs.len(),
    ensures
        ({
            let t = finished(s, job_id, outcome, max_attempts, now);
            &&& t == (State { jobs: t.jobs, ..s })
            &&& t.jobs.len() == s.jobs.len()
            &&& s.jobs[i].job_id != job_id ==> t.jobs[i] == s.jobs[i]
            &&& s.jobs[i].job_id == job_id ==> {
                &&& t.jobs[i].job_id == job_id
                &&& t.jobs[i].document_id == s.jobs[i].document_id
                &&& t.jobs[i].attempts == s.jobs[i].attempts
                &&& match outcome {
                    Ok(_) => t.jobs[i].status == JobStatus::Done && t.jobs[i].last_error is None,
                    Err(e) => t.jobs[i].last_error == Some(error_text(e)) && t.jobs[i].status == if s.jobs[i].attempts
                        < max_attempts {
                        JobStatus::Pending
                    } else {
                        JobStatus::Failed
                    },
                }
            }
        }),
{
}

} // verus!
