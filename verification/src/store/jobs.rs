//! The queue of post-acquire jobs: one per stored document.

use super::{job_key, JobRow, JobStatus, State, Store, StoredJob};
use crate::table::{
    any_row, distinct_by, find, first_row, is_order, law_sorted_rows, lemma_distinct_push,
    lemma_distinct_rewritten, lemma_rows_push, lemma_rows_where_contains, rewrite, rewritten, rows,
    rows_where, select, sort, sorted_rows, Row,
};
use crate::text::{cat3, same};
use vstd::prelude::*;

verus! {

/// A claimed job: what a worker needs to process it.
#[derive(Debug, Clone)]
pub struct Job {
    pub job_id: String,
    pub namespace: String,
    pub document_id: String,
    pub attempts: i64,
}

/// The id of the job of a document.
pub open spec fn job_id_of(ns: Seq<char>, doc: Seq<char>) -> Seq<char> {
    ns + ":"@ + doc
}

pub open spec fn job_is(id: Seq<char>) -> spec_fn(JobRow) -> bool {
    |j: JobRow| j.job_id == id
}

pub open spec fn job_in(status: JobStatus) -> spec_fn(JobRow) -> bool {
    |j: JobRow| j.status == status
}

/// The job that was created first comes first.
pub open spec fn older() -> spec_fn(JobRow, JobRow) -> bool {
    |a: JobRow, b: JobRow| a.created_at < b.created_at
}

/// A job put back to the start of its life.
pub open spec fn job_reset(now: u64) -> spec_fn(JobRow) -> JobRow {
    |j: JobRow|
        JobRow {
            status: JobStatus::Pending,
            attempts: 0,
            last_error: None,
            updated_at: now,
            ..j
        }
}

/// The jobs after the job of a document was enqueued: a job that is already there starts over.
pub open spec fn enqueued(jobs: Seq<JobRow>, ns: Seq<char>, doc: Seq<char>, now: u64) -> Seq<JobRow> {
    let id = job_id_of(ns, doc);
    if any_row(jobs, job_is(id)) {
        rewritten(jobs, job_is(id), job_reset(now))
    } else {
        jobs.push(
            JobRow {
                job_id: id,
                namespace: ns,
                document_id: doc,
                status: JobStatus::Pending,
                attempts: 0,
                last_error: None,
                created_at: now,
                updated_at: now,
            },
        )
    }
}

/// The pending job that was created first.
pub open spec fn oldest_pending(jobs: Seq<JobRow>) -> Option<JobRow> {
    let pending = sorted_rows(rows_where(jobs, job_in(JobStatus::Pending)), older());
    if pending.len() == 0 {
        None
    } else {
        Some(pending[0])
    }
}

/// One more attempt, as far as the counter goes.
pub open spec fn one_more(attempts: i64) -> i64 {
    if attempts < i64::MAX {
        (attempts + 1) as i64
    } else {
        attempts
    }
}

/// A job that a worker has taken.
pub open spec fn job_taken(now: u64) -> spec_fn(JobRow) -> JobRow {
    |j: JobRow|
        JobRow { status: JobStatus::Running, attempts: one_more(j.attempts), updated_at: now, ..j }
}

/// A job that was processed.
pub open spec fn job_done(now: u64) -> spec_fn(JobRow) -> JobRow {
    |j: JobRow| JobRow { status: JobStatus::Done, last_error: None, updated_at: now, ..j }
}

/// A job whose processing failed: it is tried again until its attempts reach the cap.
pub open spec fn job_failed(err: Seq<char>, max_attempts: i64, now: u64) -> spec_fn(JobRow) -> JobRow {
    |j: JobRow|
        JobRow {
            status: if j.attempts >= max_attempts {
                JobStatus::Failed
            } else {
                JobStatus::Pending
            },
            last_error: Some(err),
            updated_at: now,
            ..j
        }
}

/// A job that goes back to the queue as it is.
pub open spec fn job_requeued() -> spec_fn(JobRow) -> JobRow {
    |j: JobRow| JobRow { status: JobStatus::Pending, ..j }
}

/// The name of a status.
pub open spec fn status_text(s: JobStatus) -> Seq<char> {
    match s {
        JobStatus::Pending => "pending"@,
        JobStatus::Running => "running"@,
        JobStatus::Done => "done"@,
        JobStatus::Failed => "failed"@,
    }
}

impl JobStatus {
    /// The name under which the status is stored and shown.
    pub fn as_str(&self) -> (r: &'static str)
        ensures
            r@ == status_text(*self),
    {
        match self {
            JobStatus::Pending => "pending",
            JobStatus::Running => "running",
            JobStatus::Done => "done",
            JobStatus::Failed => "failed",
        }
    }
}

pub proof fn lemma_enqueued_distinct(jobs: Seq<JobRow>, ns: Seq<char>, doc: Seq<char>, now: u64)
    requires
        distinct_by(jobs, job_key()),
    ensures
        distinct_by(enqueued(jobs, ns, doc, now), job_key()),
{
    let id = job_id_of(ns, doc);
    if any_row(jobs, job_is(id)) {
        lemma_distinct_rewritten(jobs, job_is(id), job_reset(now), job_key());
    } else {
        let x = enqueued(jobs, ns, doc, now).last();
        assert forall|i: int| 0 <= i < jobs.len() implies job_key()(#[trigger] jobs[i]) != job_key()(
            x,
        ) by {
            assert(!job_is(id)(jobs[i]));
        }
        lemma_distinct_push(jobs, x, job_key());
    }
}

impl Store {
    /// Enqueues the job of a document; a job that is already there starts over.
    pub fn enqueue_job(&mut self, namespace: &str, document_id: &str, now: u64)
        requires
            old(self)@.wf(),
        ensures
            final(self)@.wf(),
            final(self)@ == (State {
                jobs: enqueued(old(self)@.jobs, namespace@, document_id@, now),
                ..old(self)@
            }),
    {
        let ghost before = self@;
        let id = cat3(namespace, ":", document_id);
        proof {
            lemma_enqueued_distinct(before.jobs, namespace@, document_id@, now);
        }
        let at = find(
            &self.jobs,
            |j: &StoredJob| -> (b: bool)
                ensures
                    b == (j@.job_id == id@)
            { same(j.job_id.as_str(), id.as_str()) },
            Ghost(job_is(id@)),
        );
        if at.is_some() {
            assert(any_row(before.jobs, job_is(id@))) by {
                assert(job_is(id@)(before.jobs[at->0 as int]));
            }
            rewrite(
                &mut self.jobs,
                |j: &StoredJob| -> (b: bool)
                    ensures
                        b == (j@.job_id == id@)
                { same(j.job_id.as_str(), id.as_str()) },
                |j: &StoredJob| -> (r: StoredJob)
                    ensures
                        r@ == job_reset(now)(j@)
                {
                    let mut r = j.copy();
                    r.status = JobStatus::Pending;
                    r.attempts = 0;
                    r.last_error = None;
                    r.updated_at = now;
                    r
                },
                Ghost(job_is(id@)),
                Ghost(job_reset(now)),
            );
        } else {
            let row = StoredJob {
                job_id: id,
                namespace: namespace.to_owned(),
                document_id: document_id.to_owned(),
                status: JobStatus::Pending,
                attempts: 0,
                last_error: None,
                created_at: now,
                updated_at: now,
            };
            let ghost v0 = self.jobs@;
            self.jobs.push(row);
            proof {
                lemma_rows_push(v0, row);
            }
        }
    }

    /// Takes the oldest pending job: it is running from now on, with one more attempt.
    pub fn claim_job(&mut self, now: u64) -> (r: Option<Job>)
        requires
            old(self)@.wf(),
        ensures
            final(self)@.wf(),
            match (r, oldest_pending(old(self)@.jobs)) {
                (Some(j), Some(p)) => {
                    &&& j.job_id@ == p.job_id
                    &&& j.namespace@ == p.namespace
                    &&& j.document_id@ == p.document_id
                    &&& j.attempts == one_more(p.attempts)
                    &&& final(self)@ == (State {
                        jobs: rewritten(old(self)@.jobs, job_is(p.job_id), job_taken(now)),
                        ..old(self)@
                    })
                },
                (None, None) => final(self)@ == old(self)@,
                _ => false,
            },
    {
        let ghost before = self@;
        let mut pending = select(
            &self.jobs,
            |j: &StoredJob| -> (b: bool)
                ensures
                    b == (j@.status == JobStatus::Pending)
            { j.status == JobStatus::Pending },
            Ghost(job_in(JobStatus::Pending)),
        );
        sort(
            &mut pending,
            |a: &StoredJob, b: &StoredJob| -> (r: bool)
                ensures
                    r == (a@.created_at < b@.created_at)
            { a.created_at < b.created_at },
            Ghost(older()),
        );
        if pending.len() == 0 {
            return None;
        }
        let ghost p = rows(pending@)[0];
        assert(p == pending@[0]@);
        let attempts: i64 = if pending[0].attempts < i64::MAX {
            pending[0].attempts + 1
        } else {
            pending[0].attempts
        };
        let job = Job {
            job_id: pending[0].job_id.clone(),
            namespace: pending[0].namespace.clone(),
            document_id: pending[0].document_id.clone(),
            attempts,
        };
        let id = pending[0].job_id.clone();
        proof {
            lemma_distinct_rewritten(before.jobs, job_is(id@), job_taken(now), job_key());
        }
        rewrite(
            &mut self.jobs,
            |j: &StoredJob| -> (b: bool)
                ensures
                    b == (j@.job_id == id@)
            { same(j.job_id.as_str(), id.as_str()) },
            |j: &StoredJob| -> (r: StoredJob)
                ensures
                    r@ == job_taken(now)(j@)
            {
                let mut r = j.copy();
                r.status = JobStatus::Running;
                if r.attempts < i64::MAX {
                    r.attempts = r.attempts + 1;
                }
                r.updated_at = now;
                r
            },
            Ghost(job_is(id@)),
            Ghost(job_taken(now)),
        );
        Some(job)
    }

    /// Marks a job as done.
    pub fn complete_job(&mut self, job_id: &str, now: u64)
        requires
            old(self)@.wf(),
        ensures
            final(self)@.wf(),
            final(self)@ == (State {
                jobs: rewritten(old(self)@.jobs, job_is(job_id@), job_done(now)),
                ..old(self)@
            }),
    {
        proof {
            lemma_distinct_rewritten(self@.jobs, job_is(job_id@), job_done(now), job_key());
        }
        rewrite(
            &mut self.jobs,
            |j: &StoredJob| -> (b: bool)
                ensures
                    b == (j@.job_id == job_id@)
            { same(j.job_id.as_str(), job_id) },
            |j: &StoredJob| -> (r: StoredJob)
                ensures
                    r@ == job_done(now)(j@)
            {
                let mut r = j.copy();
                r.status = JobStatus::Done;
                r.last_error = None;
                r.updated_at = now;
                r
            },
            Ghost(job_is(job_id@)),
            Ghost(job_done(now)),
        );
    }

    /// After a failure: back to `pending` for another try, or `failed` once the attempts have
    /// reached the cap.
    pub fn fail_or_retry_job(&mut self, job_id: &str, err: &str, max_attempts: i64, now: u64)
        requires
            old(self)@.wf(),
        ensures
            final(self)@.wf(),
            final(self)@ == (State {
                jobs: rewritten(
                    old(self)@.jobs,
                    job_is(job_id@),
                    job_failed(err@, max_attempts, now),
                ),
                ..old(self)@
            }),
    {
        proof {
            lemma_distinct_rewritten(
                self@.jobs,
                job_is(job_id@),
                job_failed(err@, max_attempts, now),
                job_key(),
            );
        }
        rewrite(
            &mut self.jobs,
            |j: &StoredJob| -> (b: bool)
                ensures
                    b == (j@.job_id == job_id@)
            { same(j.job_id.as_str(), job_id) },
            |j: &StoredJob| -> (r: StoredJob)
                ensures
                    r@ == job_failed(err@, max_attempts, now)(j@)
            {
                let mut r = j.copy();
                r.status = if j.attempts >= max_attempts {
                    JobStatus::Failed
                } else {
                    JobStatus::Pending
                };
                r.last_error = Some(err.to_owned());
                r.updated_at = now;
                r
            },
            Ghost(job_is(job_id@)),
            Ghost(job_failed(err@, max_attempts, now)),
        );
    }

    /// Crash recovery: every job that was left running goes back to the queue. Returns how many
    /// there were.
    pub fn requeue_running(&mut self) -> (n: usize)
        requires
            old(self)@.wf(),
        ensures
            final(self)@.wf(),
            n == rows_where(old(self)@.jobs, job_in(JobStatus::Running)).len(),
            final(self)@ == (State {
                jobs: rewritten(old(self)@.jobs, job_in(JobStatus::Running), job_requeued()),
                ..old(self)@
            }),
    {
        proof {
            lemma_distinct_rewritten(
                self@.jobs,
                job_in(JobStatus::Running),
                job_requeued(),
                job_key(),
            );
        }
        rewrite(
            &mut self.jobs,
            |j: &StoredJob| -> (b: bool)
                ensures
                    b == (j@.status == JobStatus::Running)
            { j.status == JobStatus::Running },
            |j: &StoredJob| -> (r: StoredJob)
                ensures
                    r@ == job_requeued()(j@)
            {
                let mut r = j.copy();
                r.status = JobStatus::Pending;
                r
            },
            Ghost(job_in(JobStatus::Running)),
            Ghost(job_requeued()),
        )
    }

    /// The status and the attempts of a job.
    pub fn job(&self, job_id: &str) -> (r: Option<(String, i64)>)
        ensures
            match (r, first_row(self@.jobs, job_is(job_id@))) {
                (Some(s), Some(j)) => s.0@ == status_text(j.status) && s.1 == j.attempts,
                (None, None) => true,
                _ => false,
            },
    {
        let at = find(
            &self.jobs,
            |j: &StoredJob| -> (b: bool)
                ensures
                    b == (j@.job_id == job_id@)
            { same(j.job_id.as_str(), job_id) },
            Ghost(job_is(job_id@)),
        );
        match at {
            Some(i) => Some((self.jobs[i].status.as_str().to_owned(), self.jobs[i].attempts)),
            None => None,
        }
    }

    /// How many jobs are pending.
    pub fn pending_jobs(&self) -> (n: usize)
        ensures
            n == rows_where(self@.jobs, job_in(JobStatus::Pending)).len(),
    {
        let pending = select(
            &self.jobs,
            |j: &StoredJob| -> (b: bool)
                ensures
                    b == (j@.status == JobStatus::Pending)
            { j.status == JobStatus::Pending },
            Ghost(job_in(JobStatus::Pending)),
        );
        assert(rows(pending@).len() == pending@.len());
        pending.len()
    }
}

// ---------------------------------------------------------------------------------------------
// Laws.
// ---------------------------------------------------------------------------------------------

/// Law: a claim takes a pending job, and one that no other pending job is older than; the job is
/// running afterwards, every other job is as it was, and the next claim takes another job.
pub proof fn law_claim(jobs: Seq<JobRow>, now: u64)
    requires
        distinct_by(jobs, job_key()),
    ensures
        match oldest_pending(jobs) {
            Some(p) => {
                let after = rewritten(jobs, job_is(p.job_id), job_taken(now));
                &&& p.status == JobStatus::Pending
                &&& jobs.contains(p)
                &&& forall|i: int|
                    0 <= i < jobs.len() && (#[trigger] jobs[i]).status == JobStatus::Pending
                        ==> p.created_at <= jobs[i].created_at
                &&& forall|i: int|
                    0 <= i < jobs.len() ==> {
                        if (#[trigger] jobs[i]).job_id == p.job_id {
                            &&& after[i].status == JobStatus::Running
                            &&& jobs[i].attempts < i64::MAX ==> after[i].attempts == jobs[i].attempts + 1
                            &&& after[i].job_id == jobs[i].job_id
                            &&& after[i].namespace == jobs[i].namespace
                            &&& after[i].document_id == jobs[i].document_id
                            &&& after[i].created_at == jobs[i].created_at
                        } else {
                            after[i] == jobs[i]
                        }
                    }
                &&& oldest_pending(after) is Some ==> oldest_pending(after)->0.job_id != p.job_id
            },
            None => !any_row(jobs, job_in(JobStatus::Pending)),
        },
{
    lemma_oldest_pending(jobs);
    match oldest_pending(jobs) {
        Some(p) => {
            let after = rewritten(jobs, job_is(p.job_id), job_taken(now));
            lemma_oldest_pending(after);
            if oldest_pending(after) is Some {
                let n = oldest_pending(after)->0;
                let k = choose|k: int| 0 <= k < after.len() && after[k] == n;
                assert(after[k].status == JobStatus::Pending);
                if n.job_id == p.job_id {
                    assert(jobs[k].job_id == p.job_id);
                    assert(after[k].status == JobStatus::Running);
                }
            }
        },
        None => {},
    }
}

proof fn lemma_oldest_pending(jobs: Seq<JobRow>)
    ensures
        match oldest_pending(jobs) {
            Some(p) => {
                &&& p.status == JobStatus::Pending
                &&& jobs.contains(p)
                &&& forall|i: int|
                    0 <= i < jobs.len() && (#[trigger] jobs[i]).status == JobStatus::Pending
                        ==> p.created_at <= jobs[i].created_at
            },
            None => !any_row(jobs, job_in(JobStatus::Pending)),
        },
{
    broadcast use vstd::seq_lib::group_to_multiset_ensures;

    let q = job_in(JobStatus::Pending);
    let sel = rows_where(jobs, q);
    let sorted = sorted_rows(sel, older());
    lemma_rows_where_contains(jobs, q);
    assert(is_order(older()));
    law_sorted_rows(sel, older());
    assert forall|x: JobRow| sorted.contains(x) <==> sel.contains(x) by {
        assert(sorted.to_multiset().count(x) > 0 <==> sorted.contains(x));
        assert(sel.to_multiset().count(x) > 0 <==> sel.contains(x));
    }
    if sorted.len() > 0 {
        let p = sorted[0];
        assert(sorted.contains(p));
        assert(sel.contains(p));
        assert forall|i: int|
            0 <= i < jobs.len() && (#[trigger] jobs[i]).status == JobStatus::Pending implies p.created_at
            <= jobs[i].created_at by {
            assert(jobs.contains(jobs[i]));
            assert(sel.contains(jobs[i]));
            assert(sorted.contains(jobs[i]));
            let k = choose|k: int| 0 <= k < sorted.len() && sorted[k] == jobs[i];
            if k > 0 {
                assert(!older()(sorted[k], sorted[0]));
            }
        }
    } else {
        assert forall|i: int| 0 <= i < jobs.len() implies !q(#[trigger] jobs[i]) by {
            if q(jobs[i]) {
                assert(jobs.contains(jobs[i]));
                assert(sel.contains(jobs[i]));
            }
        }
    }
}

/// Law: after crash recovery no job is running: each that was is pending, and nothing else has changed.
pub proof fn law_requeue(jobs: Seq<JobRow>)
    ensures
        ({
            let after = rewritten(jobs, job_in(JobStatus::Running), job_requeued());
            &&& !any_row(after, job_in(JobStatus::Running))
            &&& forall|i: int|
                0 <= i < jobs.len() && (#[trigger] jobs[i]).status != JobStatus::Running
                    ==> after[i] == jobs[i]
            &&& forall|i: int|
                0 <= i < jobs.len() && (#[trigger] jobs[i]).status == JobStatus::Running ==> after[i] == (JobRow {
                    status: JobStatus::Pending,
                    ..jobs[i]
                })
        }),
{
    let after = rewritten(jobs, job_in(JobStatus::Running), job_requeued());
    assert forall|i: int| 0 <= i < after.len() implies !job_in(JobStatus::Running)(
        #[trigger] after[i],
    ) by {
        assert(after[i] == if job_in(JobStatus::Running)(jobs[i]) {
            job_requeued()(jobs[i])
        } else {
            jobs[i]
        });
    }
}

/// Law: a document has one job, however often it is enqueued, and enqueuing it leaves that job
/// pending with no attempt made; no other job changes, and a job keeps its place in the queue.
pub proof fn law_enqueue(jobs: Seq<JobRow>, ns: Seq<char>, doc: Seq<char>, now: u64, later: u64)
    ensures
        ({
            let once = enqueued(jobs, ns, doc, now);
            let twice = enqueued(once, ns, doc, later);
            &&& twice.len() == once.len()
            &&& match first_row(once, job_is(job_id_of(ns, doc))) {
                Some(j) => j.status == JobStatus::Pending && j.attempts == 0 && j.last_error is None,
                None => false,
            }
            &&& forall|i: int|
                0 <= i < jobs.len() ==> once[i].created_at == (#[trigger] jobs[i]).created_at && (jobs[i].job_id
                    != ns + ":"@ + doc ==> once[i] == jobs[i])
            &&& once.len() > jobs.len() ==> once.len() == jobs.len() + 1 && once.last().document_id == doc
                && once.last().namespace == ns && once.last().created_at == now
        }),
{
    let id = job_id_of(ns, doc);
    let once = enqueued(jobs, ns, doc, now);
    crate::table::lemma_first_row(once, job_is(id));
    if any_row(jobs, job_is(id)) {
        let i = choose|i: int| 0 <= i < jobs.len() && job_is(id)(#[trigger] jobs[i]);
        assert(job_is(id)(once[i]));
        let j = first_row(once, job_is(id))->0;
        let k = choose|k: int| 0 <= k < once.len() && #[trigger] once[k] == j && job_is(id)(j);
        assert(job_is(id)(jobs[k]));
    } else {
        assert(job_is(id)(once[once.len() - 1]));
        assert(once.drop_last() =~= jobs);
        crate::table::lemma_first_row(jobs, job_is(id));
    }
}

/// A job after it was claimed and failed this many times.
pub open spec fn tried(j: JobRow, times: nat, err: Seq<char>, max_attempts: i64, now: u64) -> JobRow
    decreases times,
{
    if times == 0 {
        j
    } else {
        job_failed(err, max_attempts, now)(
            job_taken(now)(tried(j, (times - 1) as nat, err, max_attempts, now)),
        )
    }
}

/// Law: a job that keeps failing goes back to the queue until its attempts reach the cap, and has
/// failed for good then; its error is on record, and its place in the queue stays.
pub proof fn law_retries(j: JobRow, times: nat, err: Seq<char>, max_attempts: i64, now: u64)
    requires
        j.attempts == 0,
        0 < times <= max_attempts,
    ensures
        ({
            let t = tried(j, times, err, max_attempts, now);
            &&& t.attempts == times
            &&& t.status == if times < max_attempts {
                JobStatus::Pending
            } else {
                JobStatus::Failed
            }
            &&& t.last_error == Some(err)
            &&& t.job_id == j.job_id
            &&& t.created_at == j.created_at
        }),
    decreases times,
{
    let before = (times - 1) as nat;
    if before > 0 {
        law_retries(j, before, err, max_attempts, now);
    }
    let t = tried(j, before, err, max_attempts, now);
    assert(t.attempts == before);
}

/// Law: a job that is done is done whatever it went through, with no error left on it, and no other job
/// changes.
pub proof fn law_complete(jobs: Seq<JobRow>, id: Seq<char>, now: u64)
    ensures
        ({
            let after = rewritten(jobs, job_is(id), job_done(now));
            &&& after.len() == jobs.len()
            &&& forall|i: int|
                0 <= i < jobs.len() ==> {
                    if (#[trigger] jobs[i]).job_id == id {
                        after[i] == (JobRow {
                            status: JobStatus::Done,
                            last_error: None,
                            updated_at: now,
                            ..jobs[i]
                        })
                    } else {
                        after[i] == jobs[i]
                    }
                }
        }),
{
}

} // verus!
