//! The download queue: jobs in order, each with a status, run a few at a
//! time. Downloads themselves happen outside; the queue decides which job
//! starts, and records what happened to it.

use vstd::prelude::*;
use std::path::PathBuf;
use crate::chars::{chars_of, string_from, subrange_chars, views};
use crate::text_utils::{can_sanitize_spec, sanitize_filename, sanitized};

verus! {

/// What a job downloads.
#[derive(Clone, Copy, Debug, PartialEq, Eq, Structural)]
pub enum MediaType {
    Music,
    Video,
}

/// Where a job stands. `Completed` holds the path of the file written,
/// `Failed` the error message.
#[derive(Clone, Debug)]
pub enum JobStatus {
    Queued,
    Running,
    Paused,
    Completed(String),
    Failed(String),
    Cancelled,
}

/// One download of the queue.
#[derive(Debug)]
pub struct QueueJob {
    pub id: u64,
    pub url: String,
    pub title: String,
    pub media_type: MediaType,
    pub format: String,
    pub quality: String,
    pub folder: PathBuf,
    pub status: JobStatus,
}

/// The queue of downloads.
#[derive(Debug)]
pub struct Queue {
    pub jobs: Vec<QueueJob>,
    pub next_id: u64,
    pub max_concurrent: usize,
}

/// Waiting or running: the job still has work to do.
pub open spec fn is_active(s: JobStatus) -> bool {
    s is Queued || s is Running
}

/// `job` with another status.
pub open spec fn with_status(job: QueueJob, st: JobStatus) -> QueueJob {
    QueueJob {
        id: job.id,
        url: job.url,
        title: job.title,
        media_type: job.media_type,
        format: job.format,
        quality: job.quality,
        folder: job.folder,
        status: st,
    }
}

/// The first index at or after `from` of the job with id `id`.
pub open spec fn index_from(jobs: Seq<QueueJob>, id: u64, from: int) -> Option<int>
    decreases jobs.len() - from,
{
    if from < 0 || from >= jobs.len() {
        None
    } else if jobs[from].id == id {
        Some(from)
    } else {
        index_from(jobs, id, from + 1)
    }
}

/// The position of the job with id `id` (the first one, if ids repeat).
pub open spec fn index_of(jobs: Seq<QueueJob>, id: u64) -> Option<int> {
    index_from(jobs, id, 0)
}

/// No two jobs share an id.
pub open spec fn ids_distinct(jobs: Seq<QueueJob>) -> bool {
    forall|i: int, j: int| 0 <= i < j < jobs.len() ==> jobs[i].id != jobs[j].id
}

impl Queue {
    /// Every job has its own id, below the next one to be given out.
    pub open spec fn wf(&self) -> bool {
        &&& ids_distinct(self.jobs@)
        &&& forall|i: int| 0 <= i < self.jobs@.len() ==> self.jobs@[i].id < self.next_id
    }
}

pub proof fn lemma_index_from(jobs: Seq<QueueJob>, id: u64, from: int)
    requires
        0 <= from,
    ensures
        index_from(jobs, id, from) matches Some(i) ==> from <= i < jobs.len() && jobs[i].id == id
            && forall|j: int| from <= j < i ==> jobs[j].id != id,
        index_from(jobs, id, from) is None ==> forall|j: int|
            from <= j < jobs.len() ==> jobs[j].id != id,
    decreases jobs.len() - from,
{
    if from < jobs.len() && jobs[from].id != id {
        lemma_index_from(jobs, id, from + 1);
    }
}

/// The position of the job with id `id`.
fn find_index(jobs: &Vec<QueueJob>, id: u64) -> (r: Option<usize>)
    ensures
        r matches Some(i) ==> index_of(jobs@, id) == Some(i as int) && i < jobs@.len(),
        r is None ==> index_of(jobs@, id) is None,
{
    let mut i: usize = 0;
    while i < jobs.len()
        invariant
            i <= jobs.len(),
            index_of(jobs@, id) == index_from(jobs@, id, i as int),
        decreases jobs.len() - i,
    {
        if jobs[i].id == id {
            proof {
                lemma_index_from(jobs@, id, i as int);
            }
            return Some(i);
        }
        i = i + 1;
    }
    None
}

} // verus!

verus! {

/// `jobs` with the entries at `i` and `j` exchanged.
pub open spec fn swapped(jobs: Seq<QueueJob>, i: int, j: int) -> Seq<QueueJob> {
    jobs.update(i, jobs[j]).update(j, jobs[i])
}

/// The queue after `move_up(id)`: the job one place earlier, unless it is
/// first or absent.
pub open spec fn moved_up(jobs: Seq<QueueJob>, id: u64) -> Seq<QueueJob> {
    match index_of(jobs, id) {
        Some(i) => if i > 0 {
            swapped(jobs, i - 1, i)
        } else {
            jobs
        },
        None => jobs,
    }
}

/// The queue after `move_down(id)`: the job one place later, unless it is
/// last or absent.
pub open spec fn moved_down(jobs: Seq<QueueJob>, id: u64) -> Seq<QueueJob> {
    match index_of(jobs, id) {
        Some(i) => if i + 1 < jobs.len() {
            swapped(jobs, i, i + 1)
        } else {
            jobs
        },
        None => jobs,
    }
}

/// The job with id `id`, when its status satisfies `from`, given status
/// `to`; everything else unchanged.
pub open spec fn restatus(
    jobs: Seq<QueueJob>,
    id: u64,
    from: spec_fn(JobStatus) -> bool,
    to: JobStatus,
) -> Seq<QueueJob> {
    match index_of(jobs, id) {
        Some(i) => if from(jobs[i].status) {
            jobs.update(i, with_status(jobs[i], to))
        } else {
            jobs
        },
        None => jobs,
    }
}

pub open spec fn active_pred() -> spec_fn(JobStatus) -> bool {
    |s: JobStatus| is_active(s)
}

pub open spec fn paused_pred() -> spec_fn(JobStatus) -> bool {
    |s: JobStatus| s is Paused
}

/// The queue after `pause(id)`.
pub open spec fn paused(jobs: Seq<QueueJob>, id: u64) -> Seq<QueueJob> {
    restatus(jobs, id, active_pred(), JobStatus::Paused)
}

/// The queue after `resume(id)`.
pub open spec fn resumed(jobs: Seq<QueueJob>, id: u64) -> Seq<QueueJob> {
    restatus(jobs, id, paused_pred(), JobStatus::Queued)
}

/// The queue after `cancel(id)`.
pub open spec fn cancelled(jobs: Seq<QueueJob>, id: u64) -> Seq<QueueJob> {
    restatus(jobs, id, active_pred(), JobStatus::Cancelled)
}

/// Not done, failed or cancelled: waiting, running or paused.
pub open spec fn is_unfinished(s: JobStatus) -> bool {
    !(s is Completed || s is Failed || s is Cancelled)
}

/// The jobs not done, failed or cancelled, in order.
pub open spec fn unfinished_jobs(jobs: Seq<QueueJob>) -> Seq<QueueJob>
    decreases jobs.len(),
{
    if jobs.len() == 0 {
        seq![]
    } else if is_unfinished(jobs.last().status) {
        unfinished_jobs(jobs.drop_last()).push(jobs.last())
    } else {
        unfinished_jobs(jobs.drop_last())
    }
}

/// Some job is waiting or running.
pub open spec fn any_active(jobs: Seq<QueueJob>) -> bool {
    exists|i: int| 0 <= i < jobs.len() && is_active(#[trigger] jobs[i].status)
}

pub proof fn lemma_swapped_ids(jobs: Seq<QueueJob>, i: int, j: int, bound: u64)
    requires
        0 <= i < jobs.len(),
        0 <= j < jobs.len(),
        ids_distinct(jobs),
        forall|k: int| 0 <= k < jobs.len() ==> jobs[k].id < bound,
    ensures
        ids_distinct(swapped(jobs, i, j)),
        forall|k: int| 0 <= k < jobs.len() ==> swapped(jobs, i, j)[k].id < bound,
        swapped(jobs, i, j).len() == jobs.len(),
{
    let s = swapped(jobs, i, j);
    assert forall|a: int, b: int| 0 <= a < b < s.len() implies s[a].id != s[b].id by {
        let pa = if a == j { i } else if a == i { j } else { a };
        let pb = if b == j { i } else if b == i { j } else { b };
        assert(s[a] == jobs[pa]);
        assert(s[b] == jobs[pb]);
        if pa < pb {
        } else {
            assert(pb < pa);
        }
    }
}

pub proof fn lemma_restatus_wf(
    jobs: Seq<QueueJob>,
    id: u64,
    from: spec_fn(JobStatus) -> bool,
    to: JobStatus,
    bound: u64,
)
    requires
        ids_distinct(jobs),
        forall|k: int| 0 <= k < jobs.len() ==> jobs[k].id < bound,
    ensures
        ids_distinct(restatus(jobs, id, from, to)),
        restatus(jobs, id, from, to).len() == jobs.len(),
        forall|k: int| 0 <= k < jobs.len() ==> (#[trigger] restatus(jobs, id, from, to)[k]).id
            == jobs[k].id,
        forall|k: int| 0 <= k < jobs.len() ==> restatus(jobs, id, from, to)[k].id < bound,
{
    lemma_index_from(jobs, id, 0);
    let r = restatus(jobs, id, from, to);
    assert forall|k: int| 0 <= k < jobs.len() implies (#[trigger] r[k]).id == jobs[k].id by {}
    assert forall|a: int, b: int| 0 <= a < b < r.len() implies r[a].id != r[b].id by {
        assert(r[a].id == jobs[a].id);
        assert(r[b].id == jobs[b].id);
    }
}

impl Queue {
    /// An empty queue that runs up to three downloads at a time and gives
    /// out ids from 1.
    pub fn new() -> (q: Queue)
        ensures
            q.wf(),
            q.jobs@.len() == 0,
            q.next_id == 1,
            q.max_concurrent == 3,
    {
        Queue { jobs: Vec::new(), next_id: 1, max_concurrent: 3 }
    }

    /// Appends a waiting job and gives it the next id.
    pub fn add(
        &mut self,
        url: String,
        title: String,
        media_type: MediaType,
        format: String,
        quality: String,
        folder: PathBuf,
    )
        ensures
            old(self).wf() && old(self).next_id < u64::MAX ==> final(self).wf(),
            final(self).jobs@ == old(self).jobs@.push(
                (QueueJob {
                    id: old(self).next_id,
                    url,
                    title,
                    media_type,
                    format,
                    quality,
                    folder,
                    status: JobStatus::Queued,
                }),
            ),
            final(self).next_id == next_counter(old(self).next_id),
            final(self).max_concurrent == old(self).max_concurrent,
    {
        push_job(&mut self.jobs, &mut self.next_id, url, title, media_type, format, quality, folder);
    }

    /// Moves the job one place towards the front of the queue.
    pub fn move_up(&mut self, id: u64)
        ensures
            old(self).wf() ==> final(self).wf(),
            final(self).jobs@ == moved_up(old(self).jobs@, id),
            final(self).next_id == old(self).next_id,
            final(self).max_concurrent == old(self).max_concurrent,
    {
        if let Some(i) = find_index(&self.jobs, id) {
            if i > 0 {
                proof {
                    lemma_index_from(self.jobs@, id, 0);
                    if self.wf() {
                        lemma_swapped_ids(self.jobs@, i - 1, i as int, self.next_id);
                    }
                }
                let ghost before = self.jobs@;
                let job = self.jobs.remove(i);
                self.jobs.insert(i - 1, job);
                assert(self.jobs@ =~= swapped(before, i - 1, i as int));
            }
        }
    }

    /// Moves the job one place towards the end of the queue.
    pub fn move_down(&mut self, id: u64)
        ensures
            old(self).wf() ==> final(self).wf(),
            final(self).jobs@ == moved_down(old(self).jobs@, id),
            final(self).next_id == old(self).next_id,
            final(self).max_concurrent == old(self).max_concurrent,
    {
        if let Some(i) = find_index(&self.jobs, id) {
            proof {
                lemma_index_from(self.jobs@, id, 0);
            }
            if i < self.jobs.len() - 1 {
                proof {
                    if self.wf() {
                        lemma_swapped_ids(self.jobs@, i as int, i + 1, self.next_id);
                    }
                }
                let ghost before = self.jobs@;
                let job = self.jobs.remove(i);
                self.jobs.insert(i + 1, job);
                assert(self.jobs@ =~= swapped(before, i as int, i + 1));
            }
        }
    }

    /// Some job is still waiting or running.
    pub fn has_active(&self) -> (r: bool)
        ensures
            r == any_active(self.jobs@),
    {
        let mut i: usize = 0;
        while i < self.jobs.len()
            invariant
                i <= self.jobs.len(),
                forall|j: int| 0 <= j < i ==> !is_active(#[trigger] self.jobs@[j].status),
            decreases self.jobs.len() - i,
        {
            match self.jobs[i].status {
                JobStatus::Queued | JobStatus::Running => {
                    assert(is_active(self.jobs@[i as int].status));
                    return true;
                },
                _ => {},
            }
            i = i + 1;
        }
        false
    }

    /// Pauses a waiting or running job (its partial files stay, to resume).
    pub fn pause(&mut self, id: u64)
        ensures
            old(self).wf() ==> final(self).wf(),
            final(self).jobs@ == paused(old(self).jobs@, id),
            final(self).next_id == old(self).next_id,
            final(self).max_concurrent == old(self).max_concurrent,
    {
        proof {
            if self.wf() {
                lemma_restatus_wf(self.jobs@, id, active_pred(), JobStatus::Paused, self.next_id);
            }
        }
        if let Some(i) = find_index(&self.jobs, id) {
            proof {
                lemma_index_from(self.jobs@, id, 0);
            }
            let active = match self.jobs[i].status {
                JobStatus::Queued | JobStatus::Running => true,
                _ => false,
            };
            if active {
                let ghost before = self.jobs@;
                self.jobs[i].status = JobStatus::Paused;
                assert(self.jobs@ =~= before.update(
                    i as int,
                    with_status(before[i as int], JobStatus::Paused),
                ));
            }
        }
    }

    /// Puts a paused job back in the queue.
    pub fn resume(&mut self, id: u64)
        ensures
            old(self).wf() ==> final(self).wf(),
            final(self).jobs@ == resumed(old(self).jobs@, id),
            final(self).next_id == old(self).next_id,
            final(self).max_concurrent == old(self).max_concurrent,
    {
        proof {
            if self.wf() {
                lemma_restatus_wf(self.jobs@, id, paused_pred(), JobStatus::Queued, self.next_id);
            }
        }
        if let Some(i) = find_index(&self.jobs, id) {
            proof {
                lemma_index_from(self.jobs@, id, 0);
            }
            let is_paused = match self.jobs[i].status {
                JobStatus::Paused => true,
                _ => false,
            };
            if is_paused {
                let ghost before = self.jobs@;
                self.jobs[i].status = JobStatus::Queued;
                assert(self.jobs@ =~= before.update(
                    i as int,
                    with_status(before[i as int], JobStatus::Queued),
                ));
            }
        }
    }

    /// Cancels a waiting or running job.
    pub fn cancel(&mut self, id: u64)
        ensures
            old(self).wf() ==> final(self).wf(),
            final(self).jobs@ == cancelled(old(self).jobs@, id),
            final(self).next_id == old(self).next_id,
            final(self).max_concurrent == old(self).max_concurrent,
    {
        proof {
            if self.wf() {
                lemma_restatus_wf(self.jobs@, id, active_pred(), JobStatus::Cancelled, self.next_id);
            }
        }
        if let Some(i) = find_index(&self.jobs, id) {
            proof {
                lemma_index_from(self.jobs@, id, 0);
            }
            let active = match self.jobs[i].status {
                JobStatus::Queued | JobStatus::Running => true,
                _ => false,
            };
            if active {
                let ghost before = self.jobs@;
                self.jobs[i].status = JobStatus::Cancelled;
                assert(self.jobs@ =~= before.update(
                    i as int,
                    with_status(before[i as int], JobStatus::Cancelled),
                ));
            }
        }
    }
}

/// The id counter after one job: one more, wrapping to 0 after the
/// largest `u64`.
pub open spec fn next_counter(id: u64) -> u64 {
    if id < u64::MAX {
        (id + 1) as u64
    } else {
        0
    }
}

/// Appends a waiting job with id `*next_id` and advances the id counter,
/// which wraps like an atomic `fetch_add`.
pub fn push_job(
    jobs: &mut Vec<QueueJob>,
    next_id: &mut u64,
    url: String,
    title: String,
    media_type: MediaType,
    format: String,
    quality: String,
    folder: PathBuf,
)
    ensures
        *final(next_id) == next_counter(*old(next_id)),
        final(jobs)@ == old(jobs)@.push(
            (QueueJob {
                id: *old(next_id),
                url,
                title,
                media_type,
                format,
                quality,
                folder,
                status: JobStatus::Queued,
            }),
        ),
{
    let id = *next_id;
    *next_id = if id < u64::MAX {
        id + 1
    } else {
        0
    };
    jobs.push(
        QueueJob { id, url, title, media_type, format, quality, folder, status: JobStatus::Queued },
    );
}

} // verus!

verus! {

/// Jobs that are running.
pub open spec fn running_count(jobs: Seq<QueueJob>) -> nat
    decreases jobs.len(),
{
    if jobs.len() == 0 {
        0
    } else {
        running_count(jobs.drop_last()) + if jobs.last().status is Running {
            1nat
        } else {
            0nat
        }
    }
}

/// Jobs that are waiting.
pub open spec fn queued_count(jobs: Seq<QueueJob>) -> nat
    decreases jobs.len(),
{
    if jobs.len() == 0 {
        0
    } else {
        queued_count(jobs.drop_last()) + if jobs.last().status is Queued {
            1nat
        } else {
            0nat
        }
    }
}

/// Downloads that may start now: the limit less those running, or none.
pub open spec fn free_slots(running: nat, max: nat) -> nat {
    if max > running {
        (max - running) as nat
    } else {
        0
    }
}

/// The job at `i` starts: it waits, and fewer than `slots` waiting jobs
/// come before it.
pub open spec fn starts(jobs: Seq<QueueJob>, i: int, slots: nat) -> bool {
    jobs[i].status is Queued && queued_count(jobs.take(i)) < slots
}

/// The queue after starting the first `slots` waiting jobs.
pub open spec fn pumped(jobs: Seq<QueueJob>, slots: nat) -> Seq<QueueJob> {
    Seq::new(
        jobs.len(),
        |i: int|
            if starts(jobs, i, slots) {
                with_status(jobs[i], JobStatus::Running)
            } else {
                jobs[i]
            },
    )
}

/// The ids of the jobs that start, in queue order.
pub open spec fn started_ids(jobs: Seq<QueueJob>, slots: nat) -> Seq<u64>
    decreases jobs.len(),
{
    if jobs.len() == 0 {
        seq![]
    } else if starts(jobs, jobs.len() - 1, slots) {
        started_ids(jobs.drop_last(), slots).push(jobs.last().id)
    } else {
        started_ids(jobs.drop_last(), slots)
    }
}

pub proof fn lemma_count_step(jobs: Seq<QueueJob>, k: int)
    requires
        0 <= k < jobs.len(),
    ensures
        queued_count(jobs.take(k + 1)) == queued_count(jobs.take(k)) + if jobs[k].status is Queued {
            1nat
        } else {
            0nat
        },
        running_count(jobs.take(k + 1)) == running_count(jobs.take(k)) + if jobs[k].status is Running {
            1nat
        } else {
            0nat
        },
{
    assert(jobs.take(k + 1).drop_last() =~= jobs.take(k));
}

pub proof fn lemma_queued_count_mono(jobs: Seq<QueueJob>, a: int, b: int)
    requires
        0 <= a <= b <= jobs.len(),
    ensures
        queued_count(jobs.take(a)) <= queued_count(jobs.take(b)),
    decreases b - a,
{
    if a < b {
        lemma_count_step(jobs, b - 1);
        lemma_queued_count_mono(jobs, a, b - 1);
    }
}

proof fn lemma_starts_take(jobs: Seq<QueueJob>, n: int, i: int, slots: nat)
    requires
        0 <= i < n <= jobs.len(),
    ensures
        starts(jobs.take(n), i, slots) == starts(jobs, i, slots),
{
    assert(jobs.take(n).take(i) =~= jobs.take(i));
}

pub proof fn lemma_started_ids_prefix(jobs: Seq<QueueJob>, n: int, slots: nat)
    requires
        0 <= n <= jobs.len(),
        forall|k: int| n <= k < jobs.len() ==> !#[trigger] starts(jobs, k, slots),
    ensures
        started_ids(jobs, slots) == started_ids(jobs.take(n), slots),
    decreases jobs.len(),
{
    if jobs.len() == n {
        assert(jobs.take(n) =~= jobs);
    } else {
        let d = jobs.drop_last();
        assert forall|k: int| n <= k < d.len() implies !#[trigger] starts(d, k, slots) by {
            assert(d =~= jobs.take(d.len() as int));
            lemma_starts_take(jobs, d.len() as int, k, slots);
            assert(!starts(jobs, k, slots));
        }
        lemma_started_ids_prefix(d, n, slots);
        assert(d.take(n) =~= jobs.take(n));
    }
}

fn count_running(jobs: &Vec<QueueJob>) -> (r: usize)
    ensures
        r == running_count(jobs@),
{
    let mut n: usize = 0;
    let mut i: usize = 0;
    assert(jobs@.take(0) =~= Seq::<QueueJob>::empty());
    while i < jobs.len()
        invariant
            i <= jobs.len(),
            n == running_count(jobs@.take(i as int)),
            n <= i,
        decreases jobs.len() - i,
    {
        proof {
            lemma_count_step(jobs@, i as int);
        }
        match jobs[i].status {
            JobStatus::Running => {
                n = n + 1;
            },
            _ => {},
        }
        i = i + 1;
    }
    assert(jobs@.take(jobs.len() as int) =~= jobs@);
    n
}

impl Queue {
    /// Starts waiting jobs, in queue order, while fewer than
    /// `max_concurrent` run; returns the ids of the jobs it started, which
    /// the caller then downloads.
    pub fn pump(&mut self) -> (started: Vec<u64>)
        ensures
            old(self).wf() ==> final(self).wf(),
            final(self).jobs@ == pumped(
                old(self).jobs@,
                free_slots(running_count(old(self).jobs@), old(self).max_concurrent as nat),
            ),
            started@ == started_ids(
                old(self).jobs@,
                free_slots(running_count(old(self).jobs@), old(self).max_concurrent as nat),
            ),
            final(self).next_id == old(self).next_id,
            final(self).max_concurrent == old(self).max_concurrent,
    {
        let running = count_running(&self.jobs);
        let slots: usize = if self.max_concurrent > running {
            self.max_concurrent - running
        } else {
            0
        };
        let ghost s = self.jobs@;
        let ghost sl = slots as nat;
        let mut started: Vec<u64> = Vec::new();
        let mut left = slots;
        let mut i: usize = 0;
        assert(s.take(0) =~= Seq::<QueueJob>::empty());
        while i < self.jobs.len() && left > 0
            invariant
                s == old(self).jobs@,
                sl == slots,
                i <= s.len(),
                self.jobs@.len() == s.len(),
                self.next_id == old(self).next_id,
                self.max_concurrent == old(self).max_concurrent,
                left + queued_count(s.take(i as int)) == slots,
                forall|k: int| 0 <= k < i ==> self.jobs@[k] == #[trigger] pumped(s, sl)[k],
                forall|k: int| i <= k < s.len() ==> self.jobs@[k] == s[k],
                started@ == started_ids(s.take(i as int), sl),
            decreases s.len() - i,
        {
            proof {
                lemma_count_step(s, i as int);
                let t = s.take(i + 1);
                assert(t.drop_last() =~= s.take(i as int));
                lemma_starts_take(s, i + 1, i as int, sl);
            }
            let waiting = match self.jobs[i].status {
                JobStatus::Queued => true,
                _ => false,
            };
            if waiting {
                let id = self.jobs[i].id;
                self.jobs[i].status = JobStatus::Running;
                started.push(id);
                left = left - 1;
            }
            proof {
                assert(self.jobs@[i as int] == pumped(s, sl)[i as int]);
            }
            i = i + 1;
        }
        proof {
            assert forall|k: int| i <= k < s.len() implies !#[trigger] starts(s, k, sl) by {
                lemma_queued_count_mono(s, i as int, k);
            }
            lemma_started_ids_prefix(s, i as int, sl);
            assert forall|k: int| 0 <= k < s.len() implies self.jobs@[k] == #[trigger] pumped(
                s,
                sl,
            )[k] by {
                if k >= i {
                    assert(!starts(s, k, sl));
                }
            }
            assert(self.jobs@ =~= pumped(s, sl));
            if old(self).wf() {
                assert forall|a: int, b: int| 0 <= a < b < self.jobs@.len() implies self.jobs@[a].id
                    != self.jobs@[b].id by {
                    assert(self.jobs@[a].id == s[a].id);
                    assert(self.jobs@[b].id == s[b].id);
                }
                assert forall|k: int| 0 <= k < self.jobs@.len() implies self.jobs@[k].id
                    < self.next_id by {
                    assert(self.jobs@[k].id == s[k].id);
                }
            }
        }
        started
    }

    /// Drops the jobs that are done, failed or cancelled.
    pub fn clear_finished(&mut self)
        ensures
            old(self).wf() ==> final(self).wf(),
            final(self).jobs@ == unfinished_jobs(old(self).jobs@),
            forall|k: int|
                0 <= k < final(self).jobs@.len() ==> {
                    let st = #[trigger] final(self).jobs@[k].status;
                    st is Queued || st is Running || st is Paused
                },
            forall|i: int|
                0 <= i < old(self).jobs@.len() && (old(self).jobs@[i].status is Queued
                    || old(self).jobs@[i].status is Running || old(self).jobs@[i].status is Paused)
                    ==> final(self).jobs@.contains(#[trigger] old(self).jobs@[i]),
            final(self).next_id == old(self).next_id,
            final(self).max_concurrent == old(self).max_concurrent,
    {
        let mut all: Vec<QueueJob> = Vec::new();
        std::mem::swap(&mut all, &mut self.jobs);
        let ghost s = all@;
        let mut kept: Vec<QueueJob> = Vec::new();
        let mut rest = all;
        assert(s.take(s.len() as int) =~= s);
        assert(kept@.reverse() =~= Seq::<QueueJob>::empty());
        assert(unfinished_jobs(s) + kept@.reverse() =~= unfinished_jobs(s));
        // take jobs from the end, keeping the unfinished ones in reverse order
        while rest.len() > 0
            invariant
                rest@.len() <= s.len(),
                rest@ == s.take(rest@.len() as int),
                unfinished_jobs(s) == unfinished_jobs(rest@) + kept@.reverse(),
            decreases rest.len(),
        {
            let ghost before = rest@;
            let job = rest.pop().unwrap();
            assert(rest@ == before.drop_last());
            assert(job == before.last());
            assert(before.drop_last() =~= s.take(before.len() - 1));
            let keep = match job.status {
                JobStatus::Queued | JobStatus::Running | JobStatus::Paused => true,
                _ => false,
            };
            let ghost kb = kept@;
            if keep {
                kept.push(job);
                assert(kept@.reverse() =~= seq![job] + kb.reverse());
                assert(unfinished_jobs(before) == unfinished_jobs(rest@).push(job));
                assert(unfinished_jobs(rest@).push(job) + kb.reverse() =~= unfinished_jobs(rest@) + kept@.reverse());
            } else {
                assert(unfinished_jobs(before) == unfinished_jobs(rest@));
            }
        }
        assert(unfinished_jobs(rest@) =~= Seq::<QueueJob>::empty());
        let mut out: Vec<QueueJob> = Vec::new();
        let ghost rev = kept@.reverse();
        assert(rev =~= unfinished_jobs(s));
        while kept.len() > 0
            invariant
                out@ + kept@.reverse() == rev,
            decreases kept.len(),
        {
            let ghost kb = kept@;
            let job = kept.pop().unwrap();
            assert(kb.reverse() =~= seq![job] + kept@.reverse());
            out.push(job);
            assert(out@ + kept@.reverse() =~= rev);
        }
        assert(out@ =~= rev);
        self.jobs = out;
        proof {
            clear_finished_removes_only_finished(s);
            if old(self).wf() {
                lemma_unfinished_wf(s, self.next_id);
            }
        }
    }
}

/// Keeping only the active jobs keeps ids distinct and below `bound`.
pub proof fn lemma_unfinished_wf(jobs: Seq<QueueJob>, bound: u64)
    requires
        ids_distinct(jobs),
        forall|k: int| 0 <= k < jobs.len() ==> jobs[k].id < bound,
    ensures
        ids_distinct(unfinished_jobs(jobs)),
        forall|k: int| 0 <= k < unfinished_jobs(jobs).len() ==> unfinished_jobs(jobs)[k].id < bound,
    decreases jobs.len(),
{
    if jobs.len() > 0 {
        let d = jobs.drop_last();
        assert(ids_distinct(d));
        lemma_unfinished_wf(d, bound);
        lemma_unfinished_sub(d);
        let a = unfinished_jobs(d);
        if is_unfinished(jobs.last().status) {
            let b = a.push(jobs.last());
            assert forall|x: int, y: int| 0 <= x < y < b.len() implies b[x].id != b[y].id by {
                if y == a.len() {
                    let j = choose|j: int| 0 <= j < d.len() && d[j] == #[trigger] a[x];
                    assert(jobs[j] == d[j]);
                    assert(jobs[jobs.len() - 1] == jobs.last());
                } else {
                    assert(b[x] == a[x]);
                    assert(b[y] == a[y]);
                }
            }
            assert forall|k: int| 0 <= k < b.len() implies b[k].id < bound by {
                if k < a.len() {
                    assert(b[k] == a[k]);
                }
            }
        }
    }
}

/// The active jobs form a subsequence of the queue.
pub proof fn lemma_unfinished_sub(jobs: Seq<QueueJob>)
    ensures
        forall|k: int|
            0 <= k < unfinished_jobs(jobs).len() ==> exists|j: int|
                0 <= j < jobs.len() && jobs[j] == #[trigger] unfinished_jobs(jobs)[k],
        forall|k: int|
            0 <= k < unfinished_jobs(jobs).len() ==> is_unfinished(
                #[trigger] unfinished_jobs(jobs)[k].status,
            ),
    decreases jobs.len(),
{
    if jobs.len() > 0 {
        lemma_unfinished_sub(jobs.drop_last());
    }
}

} // verus!

verus! {

/// `job` with another title.
pub open spec fn with_title(job: QueueJob, title: String) -> QueueJob {
    QueueJob {
        id: job.id,
        url: job.url,
        title: title,
        media_type: job.media_type,
        format: job.format,
        quality: job.quality,
        folder: job.folder,
        status: job.status,
    }
}

/// The queue after `set_status(id, status)`.
pub open spec fn status_set(jobs: Seq<QueueJob>, id: u64, status: JobStatus) -> Seq<QueueJob> {
    match index_of(jobs, id) {
        Some(i) => jobs.update(i, with_status(jobs[i], status)),
        None => jobs,
    }
}

/// The queue after `set_title(id, title)`.
pub open spec fn title_set(jobs: Seq<QueueJob>, id: u64, title: String) -> Seq<QueueJob> {
    match index_of(jobs, id) {
        Some(i) => jobs.update(i, with_title(jobs[i], title)),
        None => jobs,
    }
}

impl Queue {
    /// The job with id `id`.
    pub fn find(&self, id: u64) -> (r: Option<&QueueJob>)
        ensures
            r matches Some(j) ==> exists|i: int|
                index_of(self.jobs@, id) == Some(i) && 0 <= i < self.jobs@.len() && *j
                    == self.jobs@[i],
            r is None ==> index_of(self.jobs@, id) is None,
    {
        match find_index(&self.jobs, id) {
            Some(i) => Some(&self.jobs[i]),
            None => None,
        }
    }

    /// Records the outcome of a job: sets the status of the job with id
    /// `id`, whatever it was.
    pub fn set_status(&mut self, id: u64, status: JobStatus)
        ensures
            old(self).wf() ==> final(self).wf(),
            final(self).jobs@ == status_set(old(self).jobs@, id, status),
            final(self).next_id == old(self).next_id,
            final(self).max_concurrent == old(self).max_concurrent,
    {
        proof {
            if self.wf() {
                lemma_restatus_wf(self.jobs@, id, |s: JobStatus| true, status, self.next_id);
            }
        }
        if let Some(i) = find_index(&self.jobs, id) {
            let ghost before = self.jobs@;
            self.jobs[i].status = status;
            assert(self.jobs@ =~= before.update(i as int, with_status(before[i as int], status)));
        }
    }

    /// Records the title found for the job with id `id`.
    pub fn set_title(&mut self, id: u64, title: String)
        ensures
            old(self).wf() ==> final(self).wf(),
            final(self).jobs@ == title_set(old(self).jobs@, id, title),
            final(self).next_id == old(self).next_id,
            final(self).max_concurrent == old(self).max_concurrent,
    {
        if let Some(i) = find_index(&self.jobs, id) {
            let ghost before = self.jobs@;
            self.jobs[i].title = title;
            let ghost after = before.update(i as int, with_title(before[i as int], title));
            assert(self.jobs@ =~= after);
            proof {
                if old(self).wf() {
                    assert forall|a: int, b: int| 0 <= a < b < after.len() implies after[a].id
                        != after[b].id by {
                        assert(after[a].id == before[a].id);
                        assert(after[b].id == before[b].id);
                    }
                    assert forall|k: int| 0 <= k < after.len() implies after[k].id
                        < self.next_id by {
                        assert(after[k].id == before[k].id);
                    }
                }
            }
        }
    }
}

// --------------------------------------------------------------- playlists

/// The parts of a URL between `?` and `&` characters.
pub open spec fn query_parts(s: Seq<char>) -> Seq<Seq<char>>
    decreases s.len(),
{
    if s.len() == 0 {
        seq![seq![]]
    } else {
        let w = query_parts(s.drop_last());
        if s.last() == '?' || s.last() == '&' {
            w.push(seq![])
        } else {
            w.update(w.len() - 1, w.last().push(s.last()))
        }
    }
}

/// What follows `prefix` in the first part that starts with it.
pub open spec fn first_after_prefix(parts: Seq<Seq<char>>, prefix: Seq<char>) -> Option<Seq<char>>
    decreases parts.len(),
{
    if parts.len() == 0 {
        None
    } else if prefix.len() <= parts[0].len() && parts[0].take(prefix.len() as int) == prefix {
        Some(parts[0].skip(prefix.len() as int))
    } else {
        first_after_prefix(parts.drop_first(), prefix)
    }
}

/// The playlist id of a URL: the value of its first `list=` parameter.
pub open spec fn playlist_id(url: Seq<char>) -> Option<Seq<char>> {
    first_after_prefix(query_parts(url), "list="@)
}

proof fn lemma_query_parts_len(s: Seq<char>)
    ensures
        query_parts(s).len() >= 1,
    decreases s.len(),
{
    if s.len() > 0 {
        lemma_query_parts_len(s.drop_last());
    }
}

fn query_parts_exec(s: &Vec<char>) -> (r: Vec<Vec<char>>)
    ensures
        views(r@) == query_parts(s@),
{
    let mut done: Vec<Vec<char>> = Vec::new();
    let mut cur: Vec<char> = Vec::new();
    assert(s@.take(0) =~= Seq::<char>::empty());
    assert(views(done@).push(cur@) =~= query_parts(s@.take(0)));
    let mut i: usize = 0;
    while i < s.len()
        invariant
            i <= s.len(),
            views(done@).push(cur@) == query_parts(s@.take(i as int)),
        decreases s.len() - i,
    {
        let ghost t = s@.take(i + 1);
        assert(t.drop_last() =~= s@.take(i as int));
        assert(t.last() == s@[i as int]);
        let ghost w = query_parts(s@.take(i as int));
        proof {
            lemma_query_parts_len(s@.take(i as int));
        }
        if s[i] == '?' || s[i] == '&' {
            let finished = cur;
            done.push(finished);
            cur = Vec::new();
            assert(views(done@) =~= w);
        } else {
            cur.push(s[i]);
            assert(views(done@).push(cur@) =~= w.update(w.len() - 1, w.last().push(s@[i as int])));
        }
        i = i + 1;
    }
    assert(s@.take(s.len() as int) =~= s@);
    done.push(cur);
    assert(views(done@) =~= query_parts(s@));
    done
}

fn starts_with_chars(s: &Vec<char>, prefix: &Vec<char>) -> (r: bool)
    ensures
        r == (prefix@.len() <= s@.len() && s@.take(prefix@.len() as int) == prefix@),
{
    if prefix.len() > s.len() {
        return false;
    }
    let mut k: usize = 0;
    while k < prefix.len()
        invariant
            prefix.len() <= s.len(),
            k <= prefix.len(),
            forall|j: int| 0 <= j < k ==> s@[j] == prefix@[j],
        decreases prefix.len() - k,
    {
        if s[k] != prefix[k] {
            assert(s@.take(prefix@.len() as int)[k as int] != prefix@[k as int]);
            return false;
        }
        k = k + 1;
    }
    assert(s@.take(prefix@.len() as int) =~= prefix@);
    true
}

/// The playlist id (`list=`) of a URL, if it has one.
pub fn playlist_id_from_url(url: &str) -> (r: Option<String>)
    ensures
        r matches Some(id) ==> playlist_id(url@) == Some(id@),
        r is None ==> playlist_id(url@) is None,
{
    let chars = chars_of(url);
    let parts = query_parts_exec(&chars);
    let prefix = chars_of("list=");
    let mut k: usize = 0;
    assert(views(parts@).skip(0) =~= views(parts@));
    while k < parts.len()
        invariant
            k <= parts.len(),
            prefix@ == "list="@,
            playlist_id(url@) == first_after_prefix(views(parts@).skip(k as int), prefix@),
        decreases parts.len() - k,
    {
        let ghost rest = views(parts@).skip(k as int);
        assert(rest[0] == parts@[k as int]@);
        assert(rest.drop_first() =~= views(parts@).skip(k + 1));
        if starts_with_chars(&parts[k], &prefix) {
            let id = subrange_chars(&parts[k], prefix.len(), parts[k].len());
            assert(parts@[k as int]@.skip(prefix@.len() as int) =~= id@);
            return Some(string_from(&id));
        }
        k = k + 1;
    }
    None
}

/// The URL names a playlist.
pub fn is_playlist(url: &str) -> (r: bool)
    ensures
        r == playlist_id(url@) is Some,
{
    playlist_id_from_url(url).is_some()
}

} // verus!

verus! {

// -------------------------------------------------------------------- laws

proof fn lemma_index_at(jobs: Seq<QueueJob>, id: u64, from: int, k: int)
    requires
        0 <= from <= k < jobs.len(),
        jobs[k].id == id,
        forall|j: int| from <= j < k ==> jobs[j].id != id,
    ensures
        index_from(jobs, id, from) == Some(k),
    decreases k - from,
{
    if from < k {
        lemma_index_at(jobs, id, from + 1, k);
    }
}

proof fn lemma_index_same_ids(a: Seq<QueueJob>, b: Seq<QueueJob>, id: u64, from: int)
    requires
        a.len() == b.len(),
        forall|k: int| 0 <= k < a.len() ==> (#[trigger] a[k]).id == b[k].id,
    ensures
        index_from(a, id, from) == index_from(b, id, from),
    decreases a.len() - from,
{
    if 0 <= from < a.len() {
        assert(a[from].id == b[from].id);
        lemma_index_same_ids(a, b, id, from + 1);
    }
}

/// Moving a job up and then down again gives back the queue as it was.
pub proof fn move_up_then_down(jobs: Seq<QueueJob>, id: u64)
    requires
        ids_distinct(jobs),
        index_of(jobs, id) matches Some(i) && i > 0,
    ensures
        moved_down(moved_up(jobs, id), id) == jobs,
{
    lemma_index_from(jobs, id, 0);
    let i = index_of(jobs, id)->0;
    let s = swapped(jobs, i - 1, i);
    assert forall|j: int| 0 <= j < i - 1 implies s[j].id != id by {
        assert(s[j] == jobs[j]);
    }
    lemma_index_at(s, id, 0, i - 1);
    assert(swapped(s, i - 1, i) =~= jobs);
}

/// Moving a job down and then up again gives back the queue as it was.
pub proof fn move_down_then_up(jobs: Seq<QueueJob>, id: u64)
    requires
        ids_distinct(jobs),
        index_of(jobs, id) matches Some(i) && i + 1 < jobs.len(),
    ensures
        moved_up(moved_down(jobs, id), id) == jobs,
{
    lemma_index_from(jobs, id, 0);
    let i = index_of(jobs, id)->0;
    let s = swapped(jobs, i, i + 1);
    assert forall|j: int| 0 <= j < i + 1 implies s[j].id != id || j == i + 1 by {
        if j < i {
            assert(s[j] == jobs[j]);
        } else {
            assert(s[j] == jobs[i + 1]);
            assert(jobs[i + 1].id != jobs[i].id);
        }
    }
    lemma_index_at(s, id, 0, i + 1);
    assert(swapped(s, i, i + 1) =~= jobs);
}

/// Moving a job keeps the same jobs, only in another order: every job is
/// still in the queue and nothing is added.
pub proof fn moves_keep_jobs(jobs: Seq<QueueJob>, id: u64)
    ensures
        moved_up(jobs, id).len() == jobs.len(),
        moved_down(jobs, id).len() == jobs.len(),
        moved_up(jobs, id).to_multiset() == jobs.to_multiset(),
        moved_down(jobs, id).to_multiset() == jobs.to_multiset(),
{
    lemma_index_from(jobs, id, 0);
    if let Some(i) = index_of(jobs, id) {
        if i > 0 {
            lemma_swap_multiset(jobs, i - 1, i);
        }
        if i + 1 < jobs.len() {
            lemma_swap_multiset(jobs, i, i + 1);
        }
    }
}

proof fn lemma_swap_multiset(jobs: Seq<QueueJob>, i: int, j: int)
    requires
        0 <= i < j < jobs.len(),
    ensures
        swapped(jobs, i, j).to_multiset() == jobs.to_multiset(),
{
    broadcast use vstd::seq_lib::group_to_multiset_ensures;

    let a = jobs[i];
    let b = jobs[j];
    let s1 = jobs.update(i, b);
    let s2 = s1.update(j, a);
    assert(s1.to_multiset() =~= jobs.to_multiset().remove(a).insert(b));
    assert(s2.to_multiset() =~= s1.to_multiset().remove(b).insert(a));
}

/// Pausing a waiting or running job and resuming it puts it back in the
/// queue as waiting, and changes nothing else.
pub proof fn pause_then_resume(jobs: Seq<QueueJob>, id: u64)
    requires
        index_of(jobs, id) matches Some(i) && is_active(jobs[i].status),
    ensures
        resumed(paused(jobs, id), id) == jobs.update(
            index_of(jobs, id)->0,
            with_status(jobs[index_of(jobs, id)->0], JobStatus::Queued),
        ),
{
    lemma_index_from(jobs, id, 0);
    let i = index_of(jobs, id)->0;
    let p = paused(jobs, id);
    assert forall|k: int| 0 <= k < p.len() implies (#[trigger] p[k]).id == jobs[k].id by {}
    lemma_index_same_ids(p, jobs, id, 0);
    assert(p[i].status is Paused);
    assert(resumed(p, id) =~= jobs.update(i, with_status(jobs[i], JobStatus::Queued)));
}

/// A job that is done, failed or cancelled stays so: pausing, resuming or
/// cancelling it changes nothing.
pub proof fn finished_jobs_stay_finished(jobs: Seq<QueueJob>, id: u64)
    requires
        index_of(jobs, id) matches Some(i) && !is_active(jobs[i].status) && !(
        jobs[i].status is Paused),
    ensures
        paused(jobs, id) == jobs,
        resumed(jobs, id) == jobs,
        cancelled(jobs, id) == jobs,
{
}

proof fn lemma_unfinished_all(jobs: Seq<QueueJob>)
    requires
        forall|k: int| 0 <= k < jobs.len() ==> is_unfinished(#[trigger] jobs[k].status),
    ensures
        unfinished_jobs(jobs) == jobs,
    decreases jobs.len(),
{
    if jobs.len() > 0 {
        let d = jobs.drop_last();
        assert forall|k: int| 0 <= k < d.len() implies is_unfinished(#[trigger] d[k].status) by {
            assert(d[k] == jobs[k]);
        }
        lemma_unfinished_all(d);
        assert(is_unfinished(jobs[jobs.len() - 1].status));
        assert(d.push(jobs.last()) =~= jobs);
    }
}

proof fn lemma_any_active_push(jobs: Seq<QueueJob>, j: QueueJob)
    ensures
        any_active(jobs.push(j)) == (any_active(jobs) || is_active(j.status)),
{
    let p = jobs.push(j);
    if any_active(jobs) {
        let k = choose|k: int| 0 <= k < jobs.len() && is_active(#[trigger] jobs[k].status);
        assert(p[k] == jobs[k]);
    }
    if is_active(j.status) {
        assert(p[jobs.len() as int] == j);
    }
    if any_active(p) {
        let k = choose|k: int| 0 <= k < p.len() && is_active(#[trigger] p[k].status);
        if k < jobs.len() {
            assert(p[k] == jobs[k]);
        }
    }
}

proof fn lemma_unfinished_keeps_active(jobs: Seq<QueueJob>)
    ensures
        any_active(unfinished_jobs(jobs)) == any_active(jobs),
    decreases jobs.len(),
{
    if jobs.len() > 0 {
        let d = jobs.drop_last();
        lemma_unfinished_keeps_active(d);
        assert(d.push(jobs.last()) =~= jobs);
        lemma_any_active_push(d, jobs.last());
        if is_unfinished(jobs.last().status) {
            lemma_any_active_push(unfinished_jobs(d), jobs.last());
        }
    }
}

/// Clearing keeps exactly the jobs that are not done, failed or cancelled,
/// clearing twice is the same as clearing once, and the queue still has
/// active jobs exactly when it had some before.
pub proof fn clear_finished_laws(jobs: Seq<QueueJob>)
    ensures
        forall|k: int|
            0 <= k < unfinished_jobs(jobs).len() ==> is_unfinished(
                #[trigger] unfinished_jobs(jobs)[k].status,
            ),
        unfinished_jobs(unfinished_jobs(jobs)) == unfinished_jobs(jobs),
        any_active(unfinished_jobs(jobs)) == any_active(jobs),
{
    lemma_unfinished_sub(jobs);
    lemma_unfinished_all(unfinished_jobs(jobs));
    lemma_unfinished_keeps_active(jobs);
}

/// Clearing removes the done, failed and cancelled jobs and nothing else:
/// every job left is waiting, running or paused and was in the queue, and
/// every waiting, running or paused job of the queue is left.
pub proof fn clear_finished_removes_only_finished(jobs: Seq<QueueJob>)
    ensures
        forall|k: int|
            #![trigger unfinished_jobs(jobs)[k]]
            0 <= k < unfinished_jobs(jobs).len() ==> {
                let st = unfinished_jobs(jobs)[k].status;
                (st is Queued || st is Running || st is Paused) && jobs.contains(
                    unfinished_jobs(jobs)[k],
                )
            },
        forall|i: int|
            #![trigger jobs[i]]
            0 <= i < jobs.len() && (jobs[i].status is Queued || jobs[i].status is Running
                || jobs[i].status is Paused) ==> unfinished_jobs(jobs).contains(jobs[i]),
    decreases jobs.len(),
{
    if jobs.len() > 0 {
        let d = jobs.drop_last();
        clear_finished_removes_only_finished(d);
        let u = unfinished_jobs(d);
        let r = unfinished_jobs(jobs);
        assert forall|k: int| 0 <= k < r.len() implies jobs.contains(#[trigger] r[k]) by {
            if k < u.len() {
                assert(r[k] == u[k]);
                let q = choose|q: int| 0 <= q < d.len() && d[q] == u[k];
                assert(jobs[q] == d[q]);
            } else {
                assert(r[k] == jobs.last());
                assert(jobs[jobs.len() - 1] == jobs.last());
            }
        }
        assert forall|i: int|
            0 <= i < jobs.len() && (jobs[i].status is Queued || jobs[i].status is Running
                || jobs[i].status is Paused) implies r.contains(#[trigger] jobs[i]) by {
            if i < d.len() {
                assert(jobs[i] == d[i]);
                let k = choose|k: int| 0 <= k < u.len() && u[k] == d[i];
                if is_unfinished(jobs.last().status) {
                    assert(r[k] == u[k]);
                } else {
                    assert(r[k] == u[k]);
                }
            } else {
                assert(r[r.len() - 1] == jobs.last());
            }
        }
    }
}

proof fn lemma_pumped_drop_last(jobs: Seq<QueueJob>, slots: nat)
    requires
        jobs.len() > 0,
    ensures
        pumped(jobs, slots).drop_last() == pumped(jobs.drop_last(), slots),
{
    let d = jobs.drop_last();
    assert forall|i: int| 0 <= i < d.len() implies starts(d, i, slots) == starts(jobs, i, slots) by {
        assert(d =~= jobs.take(d.len() as int));
        lemma_starts_take(jobs, d.len() as int, i, slots);
    }
    assert(pumped(jobs, slots).drop_last() =~= pumped(d, slots));
}

proof fn lemma_pump_counts(jobs: Seq<QueueJob>, slots: nat)
    ensures
        running_count(pumped(jobs, slots)) == running_count(jobs) + if queued_count(jobs)
            < slots {
            queued_count(jobs)
        } else {
            slots
        },
        started_ids(jobs, slots).len() == if queued_count(jobs) < slots {
            queued_count(jobs)
        } else {
            slots
        },
    decreases jobs.len(),
{
    if jobs.len() > 0 {
        let d = jobs.drop_last();
        lemma_pump_counts(d, slots);
        lemma_pumped_drop_last(jobs, slots);
        assert(d =~= jobs.take(jobs.len() - 1));
        let p = pumped(jobs, slots);
        assert(p.last() == p[jobs.len() - 1]);
        assert(jobs.last() == jobs[jobs.len() - 1]);
    }
}

/// Pumping never lets more downloads run than the limit (when the limit
/// held before), and starts one download for each free slot while waiting
/// jobs remain.
pub proof fn pump_respects_limit(jobs: Seq<QueueJob>, max: nat)
    requires
        running_count(jobs) <= max,
    ensures
        running_count(pumped(jobs, free_slots(running_count(jobs), max))) <= max,
        started_ids(jobs, free_slots(running_count(jobs), max)).len() == if queued_count(jobs)
            < free_slots(running_count(jobs), max) {
            queued_count(jobs)
        } else {
            free_slots(running_count(jobs), max)
        },
{
    lemma_pump_counts(jobs, free_slots(running_count(jobs), max));
}

} // verus!

verus! {

// ------------------------------------------------------- running a job

/// The media kind as the history and the folder organiser name it.
pub fn media_label(media: MediaType) -> (r: &'static str)
    ensures
        r@ == match media {
            MediaType::Music => "music"@,
            MediaType::Video => "video"@,
        },
{
    match media {
        MediaType::Music => "music",
        MediaType::Video => "video",
    }
}

/// Subtitles are fetched for videos only.
pub fn subtitles_for(media: MediaType, langs: Option<String>) -> (r: Option<String>)
    ensures
        r == match media {
            MediaType::Music => None,
            MediaType::Video => langs,
        },
{
    match media {
        MediaType::Music => None,
        MediaType::Video => langs,
    }
}

/// The file a job writes: the title made safe as a file name, a dot and
/// the format.
pub fn output_file_name(title: &str, format: &str) -> (r: String)
    requires
        can_sanitize_spec(title@),
    ensures
        r@ == sanitized(title@) + "."@ + format@,
{
    let mut s = sanitize_filename(title);
    s.append(".");
    s.append(format);
    s
}

/// The status message of a job whose video information could not be
/// fetched.
pub fn info_failure_message(error: &str) -> (r: String)
    ensures
        r@ == "Falha ao obter info: "@ + error@,
{
    let mut s = String::from_str("Falha ao obter info: ");
    s.append(error);
    s
}

/// An event in the life of a started download, as its task sees it.
pub enum JobEvent {
    /// The video's information was fetched: its title, or the engine's error.
    InfoFetched(Result<String, String>),
    /// The download ended: the path of the file written, or the engine's
    /// error.
    Downloaded(Result<String, String>),
}

/// What the task of a started download does next.
pub enum JobAction {
    /// Record this status and stop.
    Finish(JobStatus),
    /// Give the job this title, then download it.
    Download(String),
    /// Record the file in the history, then this status; send a desktop
    /// notification when `notify` holds.
    Complete { status: JobStatus, notify: bool },
}

/// The task's decision on an event: a failure to fetch the information
/// ends the job with its message; a title starts the download; a finished
/// download completes the job with the path of the file (recorded in the
/// history, and notified when notifications are on); a failed one ends it
/// with the engine's error.
pub fn job_step(event: JobEvent, notify: bool) -> (r: JobAction)
    ensures
        match event {
            JobEvent::InfoFetched(Err(e)) => r matches JobAction::Finish(JobStatus::Failed(m))
                && m@ == "Falha ao obter info: "@ + e@,
            JobEvent::InfoFetched(Ok(title)) => r == JobAction::Download(title),
            JobEvent::Downloaded(Ok(path)) => r == (JobAction::Complete {
                status: JobStatus::Completed(path),
                notify,
            }),
            JobEvent::Downloaded(Err(e)) => r == JobAction::Finish(JobStatus::Failed(e)),
        },
        r matches JobAction::Finish(st) ==> !(st is Running),
        r matches JobAction::Complete { status, .. } ==> !(status is Running),
{
    match event {
        JobEvent::InfoFetched(Err(e)) => JobAction::Finish(
            JobStatus::Failed(info_failure_message(e.as_str())),
        ),
        JobEvent::InfoFetched(Ok(title)) => JobAction::Download(title),
        JobEvent::Downloaded(Ok(path)) => JobAction::Complete {
            status: JobStatus::Completed(path),
            notify,
        },
        JobEvent::Downloaded(Err(e)) => JobAction::Finish(JobStatus::Failed(e)),
    }
}

} // verus!

verus! {

/// 1 for a running job, else 0.
pub open spec fn running_bit(j: QueueJob) -> nat {
    if j.status is Running {
        1
    } else {
        0
    }
}

proof fn lemma_running_update(jobs: Seq<QueueJob>, i: int, x: QueueJob)
    requires
        0 <= i < jobs.len(),
    ensures
        running_count(jobs.update(i, x)) + running_bit(jobs[i]) == running_count(jobs)
            + running_bit(x),
    decreases jobs.len(),
{
    let u = jobs.update(i, x);
    if i == jobs.len() - 1 {
        assert(u.drop_last() =~= jobs.drop_last());
        assert(u.last() == x);
    } else {
        lemma_running_update(jobs.drop_last(), i, x);
        assert(u.drop_last() =~= jobs.drop_last().update(i, x));
        assert(u.last() == jobs.last());
        assert(jobs.drop_last()[i] == jobs[i]);
    }
}

proof fn lemma_running_restatus(jobs: Seq<QueueJob>, id: u64, st: JobStatus)
    requires
        !(st is Running),
    ensures
        running_count(status_set(jobs, id, st)) <= running_count(jobs),
{
    lemma_index_from(jobs, id, 0);
    if let Some(i) = index_of(jobs, id) {
        lemma_running_update(jobs, i, with_status(jobs[i], st));
    }
}

proof fn lemma_running_swapped(jobs: Seq<QueueJob>, i: int, j: int)
    requires
        0 <= i < j < jobs.len(),
    ensures
        running_count(swapped(jobs, i, j)) == running_count(jobs),
{
    let u = jobs.update(i, jobs[j]);
    lemma_running_update(jobs, i, jobs[j]);
    lemma_running_update(u, j, jobs[i]);
    assert(u[j] == jobs[j]);
}

proof fn lemma_running_unfinished(jobs: Seq<QueueJob>)
    ensures
        running_count(unfinished_jobs(jobs)) == running_count(jobs),
    decreases jobs.len(),
{
    if jobs.len() > 0 {
        lemma_running_unfinished(jobs.drop_last());
        let u = unfinished_jobs(jobs.drop_last());
        if is_unfinished(jobs.last().status) {
            assert(u.push(jobs.last()).drop_last() =~= u);
        }
    }
}

/// No operation but `pump` starts a job: from a queue running at most `max`
/// jobs, adding a waiting job, moving, pausing, resuming, cancelling,
/// clearing, retitling, recording an outcome that is not "running", and
/// pumping with the limit `max` all leave at most `max` jobs running.
pub proof fn running_limit_is_kept(
    jobs: Seq<QueueJob>,
    max: nat,
    id: u64,
    status: JobStatus,
    title: String,
    job: QueueJob,
)
    requires
        running_count(jobs) <= max,
    ensures
        job.status is Queued ==> running_count(jobs.push(job)) <= max,
        running_count(moved_up(jobs, id)) <= max,
        running_count(moved_down(jobs, id)) <= max,
        running_count(paused(jobs, id)) <= max,
        running_count(resumed(jobs, id)) <= max,
        running_count(cancelled(jobs, id)) <= max,
        running_count(unfinished_jobs(jobs)) <= max,
        running_count(title_set(jobs, id, title)) <= max,
        !(status is Running) ==> running_count(status_set(jobs, id, status)) <= max,
        running_count(pumped(jobs, free_slots(running_count(jobs), max))) <= max,
{
    assert(jobs.push(job).drop_last() =~= jobs);
    lemma_index_from(jobs, id, 0);
    if let Some(i) = index_of(jobs, id) {
        if i > 0 {
            lemma_running_swapped(jobs, i - 1, i);
        }
        if i + 1 < jobs.len() {
            lemma_running_swapped(jobs, i, i + 1);
        }
        lemma_running_update(jobs, i, with_title(jobs[i], title));
        if is_active(jobs[i].status) {
            lemma_running_update(jobs, i, with_status(jobs[i], JobStatus::Paused));
            lemma_running_update(jobs, i, with_status(jobs[i], JobStatus::Cancelled));
        }
        if jobs[i].status is Paused {
            lemma_running_update(jobs, i, with_status(jobs[i], JobStatus::Queued));
        }
    }
    if !(status is Running) {
        lemma_running_restatus(jobs, id, status);
    }
    lemma_running_unfinished(jobs);
    pump_respects_limit(jobs, max);
}

} // verus!
