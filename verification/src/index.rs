//! The durable index: profiles, jobs with their leases, vectors and the
//! generations that searches are served from.
use vstd::prelude::*;

use crate::errors::{invalid, MCSError, Result};
use crate::ids::{is_random_uuid, random_uuid};
use crate::jobs::{IndexProfile, StoreState};
use crate::text::{chars_of, text_of};

verus! {

/// The right to work on a job: whoever claims it next gets another token and
/// a higher epoch.
#[derive(Clone, Copy, Debug, PartialEq, Eq, Structural)]
pub struct Lease {
    pub token: u128,
    pub epoch: i64,
    pub until_us: i64,
}

#[derive(Clone, Copy, Debug, PartialEq, Eq, Structural)]
pub enum IndexOperation {
    Upsert,
    Delete,
}

#[derive(Clone, Copy, Debug, PartialEq, Eq, Structural)]
pub struct IndexJob {
    pub entity_id: i64,
    pub entity_revision: i64,
    pub profile_id: u128,
    pub operation: IndexOperation,
    pub lease: Lease,
    pub attempts: i64,
}

#[derive(Clone, Copy, Debug, PartialEq, Eq, Structural)]
pub enum JobState {
    Pending,
    Leased,
    Done,
    Held,
    Dead,
}

/// One job: what has to be done for an entity in a profile.
#[derive(Debug)]
pub struct JobRow {
    pub entity_id: i64,
    pub profile_id: u128,
    pub entity_revision: i64,
    pub operation: IndexOperation,
    pub state: JobState,
    pub lease_token: Option<u128>,
    pub lease_epoch: i64,
    pub lease_until_us: i64,
    pub attempts: i64,
    pub next_attempt_us: i64,
    pub last_error: Option<String>,
}

/// How often an entity has changed, and whether it is gone.
#[derive(Clone, Copy, Debug, PartialEq, Eq, Structural)]
pub struct EntityRevision {
    pub entity_id: i64,
    pub revision: i64,
    pub deleted: bool,
}

/// One stored vector.
#[derive(Debug)]
pub struct VectorRow {
    pub profile_id: u128,
    pub entity_id: i64,
    pub entity_revision: i64,
    pub blob: Vec<u8>,
    pub created_at_us: i64,
    pub source: String,
}

/// How far the stored vectors and the ones that searches use have come.
#[derive(Clone, Copy, Debug, PartialEq, Eq, Structural)]
pub struct AnnGeneration {
    pub profile_id: u128,
    pub durable_generation: i64,
    pub published_generation: i64,
    pub full_scan_generation: Option<i64>,
}

#[derive(Clone, Copy, Debug, PartialEq, Eq, Structural)]
pub enum ProfileState {
    Rebuilding,
    Active,
    Retired,
}

#[derive(Debug)]
pub struct ProfileRow {
    pub profile: IndexProfile,
    pub fingerprint: String,
    pub state: ProfileState,
}

#[derive(Debug)]
pub struct IndexStore {
    pub state: StoreState,
    pub profiles: Vec<ProfileRow>,
    pub jobs: Vec<JobRow>,
    pub revisions: Vec<EntityRevision>,
    pub vectors: Vec<VectorRow>,
    pub generations: Vec<AnnGeneration>,
    /// The identifiers of the live entities.
    pub live: Vec<i64>,
}

/// The most characters of an error or a reason that are kept.
pub const MAX_REASON_CHARS: usize = 2048;

/// The beginning of a text.
pub open spec fn clipped(s: Seq<char>) -> Seq<char> {
    if s.len() <= MAX_REASON_CHARS {
        s
    } else {
        s.take(MAX_REASON_CHARS as int)
    }
}

pub(crate) fn clip(s: &str) -> (r: String)
    ensures
        r@ == clipped(s@),
{
    let v: Vec<char> = chars_of(s);
    if v.len() <= MAX_REASON_CHARS {
        s.to_owned()
    } else {
        let out: String = text_of(
            vstd::slice::slice_subrange(v.as_slice(), 0, MAX_REASON_CHARS),
        );
        assert(out@ =~= s@.take(MAX_REASON_CHARS as int));
        out
    }
}

/// When a lease that is taken now ends; nothing where the duration is not
/// positive or the time does not fit.
pub open spec fn lease_end(now: int, duration: int) -> Option<int> {
    if duration > 0 && now + duration <= i64::MAX {
        Some(now + duration)
    } else {
        None
    }
}

/// When a lease that is taken now ends.
pub fn lease_until(now: i64, duration_us: i64) -> (r: Result<i64>)
    ensures
        match r {
            Ok(t) => lease_end(now as int, duration_us as int) == Some(t as int),
            Err(e) => lease_end(now as int, duration_us as int) is None && (e
                matches MCSError::InvalidParams(m) && m@ == "invalid lease duration"@),
        },
{
    if duration_us <= 0 || now as i128 + duration_us as i128 > i64::MAX as i128 {
        return Err(invalid("invalid lease duration"));
    }
    Ok(now + duration_us)
}

/// What claiming a job under a token gives: the job that is due next, held under
/// that token until the lease ends; nothing where none is due; an error where
/// the lease would have no end.
pub open spec fn claim_made(
    before: IndexStore,
    after: IndexStore,
    now: int,
    duration: int,
    token: u128,
    r: Result<Option<IndexJob>>,
) -> bool {
    match lease_end(now, duration) {
        None => after.jobs@ == before.jobs@ && (r matches Err(MCSError::InvalidParams(m)) && m@
            == "invalid lease duration"@),
        Some(until) => match r {
            Ok(Some(job)) => exists|i: int|
                {
                    let row = before.jobs@[i];
                    &&& #[trigger] claimable(before.jobs@, now, before.state, i)
                    &&& after.jobs@ == before.jobs@.update(i, claimed(row, token, until))
                    &&& job.entity_id == row.entity_id
                    &&& job.entity_revision == row.entity_revision
                    &&& job.profile_id == row.profile_id
                    &&& job.operation == row.operation
                    &&& job.lease == (Lease {
                        token,
                        epoch: (row.lease_epoch + 1) as i64,
                        until_us: until as i64,
                    })
                    &&& job.attempts == row.attempts + 1
                },
            Ok(None) => after.jobs@ == before.jobs@ && forall|j: int|
                0 <= j < before.jobs@.len() ==> !due(#[trigger] before.jobs@[j], now, before.state),
            Err(_) => false,
        },
    }
}

impl IndexStore {
    /// The two stores differ at most in their jobs.
    pub open spec fn same_but_jobs(self, other: IndexStore) -> bool {
        &&& self.state == other.state
        &&& self.profiles@ == other.profiles@
        &&& self.revisions@ == other.revisions@
        &&& self.vectors@ == other.vectors@
        &&& self.generations@ == other.generations@
        &&& self.live@ == other.live@
    }

    /// No counter is at its end.
    pub open spec fn within_limits(self) -> bool {
        &&& forall|i: int|
            0 <= i < self.jobs@.len() ==> (#[trigger] self.jobs@[i]).lease_epoch < i64::MAX
                && self.jobs@[i].attempts < i64::MAX
        &&& forall|i: int|
            0 <= i < self.generations@.len() ==> (#[trigger] self.generations@[i]).durable_generation
                < i64::MAX
    }

    /// Whether no counter is at its end.
    pub fn has_room(&self) -> (r: bool)
        ensures
            r == self.within_limits(),
    {
        let mut i: usize = 0;
        while i < self.jobs.len()
            invariant
                i <= self.jobs@.len(),
                forall|j: int|
                    0 <= j < i ==> (#[trigger] self.jobs@[j]).lease_epoch < i64::MAX
                        && self.jobs@[j].attempts < i64::MAX,
            decreases self.jobs@.len() - i,
        {
            if self.jobs[i].lease_epoch == i64::MAX || self.jobs[i].attempts == i64::MAX {
                return false;
            }
            i += 1;
        }
        let mut k: usize = 0;
        while k < self.generations.len()
            invariant
                k <= self.generations@.len(),
                forall|j: int|
                    0 <= j < k ==> (#[trigger] self.generations@[j]).durable_generation < i64::MAX,
            decreases self.generations@.len() - k,
        {
            if self.generations[k].durable_generation == i64::MAX {
                return false;
            }
            k += 1;
        }
        true
    }
}

// ---------------------------------------------------------------------------
// Claiming and keeping a job
// ---------------------------------------------------------------------------

/// The job may be worked on now.
pub open spec fn due(j: JobRow, now: int, state: StoreState) -> bool {
    &&& (j.state == JobState::Pending && j.next_attempt_us <= now) || (j.state == JobState::Leased
        && j.lease_until_us <= now)
    &&& state.writable(j.profile_id)
}

/// The job comes before the other: it is due earlier, or at the same time and
/// its entity or its profile comes first.
pub open spec fn sooner(a: JobRow, b: JobRow) -> bool {
    ||| a.next_attempt_us < b.next_attempt_us
    ||| a.next_attempt_us == b.next_attempt_us && a.entity_id < b.entity_id
    ||| a.next_attempt_us == b.next_attempt_us && a.entity_id == b.entity_id && a.profile_id
        < b.profile_id
}

/// The job at `i` is the one to claim: it is due, and no other that is due
/// comes before it.
pub open spec fn claimable(jobs: Seq<JobRow>, now: int, state: StoreState, i: int) -> bool {
    &&& 0 <= i < jobs.len()
    &&& due(jobs[i], now, state)
    &&& forall|j: int| 0 <= j < jobs.len() && due(#[trigger] jobs[j], now, state) ==> !sooner(jobs[j], jobs[i])
}

/// The row of a job that was just claimed.
pub open spec fn claimed(j: JobRow, token: u128, until: int) -> JobRow {
    JobRow {
        state: JobState::Leased,
        lease_token: Some(token),
        lease_epoch: (j.lease_epoch + 1) as i64,
        lease_until_us: until as i64,
        attempts: (j.attempts + 1) as i64,
        ..j
    }
}

/// The lease is the one under which the job is held, and it has not run out.
pub open spec fn holds(j: JobRow, job: IndexJob, now: int) -> bool {
    &&& j.entity_id == job.entity_id
    &&& j.profile_id == job.profile_id
    &&& j.lease_token == Some(job.lease.token)
    &&& j.lease_epoch == job.lease.epoch
    &&& j.state == JobState::Leased
    &&& j.lease_until_us > now
}

/// Some job is held under the lease.
pub open spec fn held(jobs: Seq<JobRow>, job: IndexJob, now: int) -> bool {
    exists|i: int| 0 <= i < jobs.len() && holds(#[trigger] jobs[i], job, now)
}

/// The jobs once the lease was extended.
pub open spec fn renewed_jobs(jobs: Seq<JobRow>, job: IndexJob, now: int, until: int) -> Seq<JobRow> {
    jobs.map_values(
        |j: JobRow|
            if holds(j, job, now) {
                JobRow { lease_until_us: until as i64, ..j }
            } else {
                j
            },
    )
}

fn is_sooner(a: &JobRow, b: &JobRow) -> (r: bool)
    ensures
        r == sooner(*a, *b),
{
    a.next_attempt_us < b.next_attempt_us || (a.next_attempt_us == b.next_attempt_us && (
    a.entity_id < b.entity_id || (a.entity_id == b.entity_id && a.profile_id < b.profile_id)))
}

fn is_due(j: &JobRow, now: i64, state: &StoreState) -> (r: bool)
    ensures
        r == due(*j, now as int, *state),
{
    ((j.state == JobState::Pending && j.next_attempt_us <= now) || (j.state == JobState::Leased
        && j.lease_until_us <= now)) && state.is_writable(j.profile_id)
}

fn is_held(j: &JobRow, job: &IndexJob, now: i64) -> (r: bool)
    ensures
        r == holds(*j, *job, now as int),
{
    let token: bool = match j.lease_token {
        Some(t) => t == job.lease.token,
        None => false,
    };
    j.entity_id == job.entity_id && j.profile_id == job.profile_id && token && j.lease_epoch
        == job.lease.epoch && j.state == JobState::Leased && j.lease_until_us > now
}

impl IndexStore {
    /// Where the job to claim stands.
    fn next_due(&self, now: i64) -> (r: Option<usize>)
        ensures
            match r {
                Some(i) => claimable(self.jobs@, now as int, self.state, i as int),
                None => forall|j: int|
                    0 <= j < self.jobs@.len() ==> !due(#[trigger] self.jobs@[j], now as int, self.state),
            },
    {
        let mut best: Option<usize> = None;
        let mut i: usize = 0;
        while i < self.jobs.len()
            invariant
                i <= self.jobs@.len(),
                match best {
                    Some(b) => b < i && due(self.jobs@[b as int], now as int, self.state) && (forall|j: int|
                        0 <= j < i && due(#[trigger] self.jobs@[j], now as int, self.state) ==> !sooner(
                            self.jobs@[j],
                            self.jobs@[b as int],
                        )),
                    None => forall|j: int|
                        0 <= j < i ==> !due(#[trigger] self.jobs@[j], now as int, self.state),
                },
            decreases self.jobs@.len() - i,
        {
            if is_due(&self.jobs[i], now, &self.state) {
                best = match best {
                    None => Some(i),
                    Some(b) => if is_sooner(&self.jobs[i], &self.jobs[b]) {
                        Some(i)
                    } else {
                        Some(b)
                    },
                };
            }
            i += 1;
        }
        best
    }

    /// Claims the job that is due first, under the given token.
    pub fn claim_due_as(&mut self, now: i64, duration_us: i64, token: u128) -> (r: Result<
        Option<IndexJob>,
    >)
        requires
            old(self).within_limits(),
        ensures
            final(self).same_but_jobs(*old(self)),
            claim_made(*old(self), *final(self), now as int, duration_us as int, token, r),
    {
        let until: i64 = match lease_until(now, duration_us) {
            Ok(t) => t,
            Err(e) => {
                return Err(e);
            },
        };
        let i: usize = match self.next_due(now) {
            Some(i) => i,
            None => {
                return Ok(None);
            },
        };
        let ghost jobs = self.jobs@;
        assert(claimable(jobs, now as int, self.state, i as int));
        let epoch: i64 = self.jobs[i].lease_epoch + 1;
        let attempts: i64 = self.jobs[i].attempts + 1;
        self.jobs[i].state = JobState::Leased;
        self.jobs[i].lease_token = Some(token);
        self.jobs[i].lease_epoch = epoch;
        self.jobs[i].lease_until_us = until;
        self.jobs[i].attempts = attempts;
        assert(self.jobs@ =~= jobs.update(i as int, claimed(jobs[i as int], token, until as int)));
        Ok(
            Some(
                IndexJob {
                    entity_id: self.jobs[i].entity_id,
                    entity_revision: self.jobs[i].entity_revision,
                    profile_id: self.jobs[i].profile_id,
                    operation: self.jobs[i].operation,
                    lease: Lease { token, epoch, until_us: until },
                    attempts,
                },
            ),
        )
    }

    /// Claims the job that is due first.
    pub fn claim_due(&mut self, now: i64, duration_us: i64) -> (r: Result<Option<IndexJob>>)
        requires
            old(self).within_limits(),
        ensures
            final(self).same_but_jobs(*old(self)),
            exists|token: u128|
                is_random_uuid(token) && #[trigger] claim_made(
                    *old(self),
                    *final(self),
                    now as int,
                    duration_us as int,
                    token,
                    r,
                ),
            r matches Ok(Some(job)) ==> held(final(self).jobs@, job, now as int),
    {
        let token: u128 = random_uuid();
        let r: Result<Option<IndexJob>> = self.claim_due_as(now, duration_us, token);
        proof {
            if let Ok(Some(job)) = r {
                let until = lease_end(now as int, duration_us as int)->0;
                let i = choose|i: int|
                    {
                        &&& #[trigger] claimable(old(self).jobs@, now as int, old(self).state, i)
                        &&& self.jobs@ == old(self).jobs@.update(
                            i,
                            claimed(old(self).jobs@[i], token, until),
                        )
                        &&& job.entity_id == old(self).jobs@[i].entity_id
                        &&& job.profile_id == old(self).jobs@[i].profile_id
                        &&& job.lease == (Lease {
                            token,
                            epoch: (old(self).jobs@[i].lease_epoch + 1) as i64,
                            until_us: until as i64,
                        })
                    };
                assert(holds(self.jobs@[i], job, now as int));
            }
        }
        r
    }

    /// Extends a lease that is still held. Returns whether it was.
    pub fn renew(&mut self, job: &IndexJob, now: i64, duration_us: i64) -> (r: Result<bool>)
        ensures
            final(self).same_but_jobs(*old(self)),
            match r {
                Ok(ok) => {
                    &&& lease_end(now as int, duration_us as int) is Some
                    &&& ok == held(old(self).jobs@, *job, now as int)
                    &&& final(self).jobs@ == renewed_jobs(
                        old(self).jobs@,
                        *job,
                        now as int,
                        lease_end(now as int, duration_us as int)->0,
                    )
                },
                Err(e) => lease_end(now as int, duration_us as int) is None && final(self).jobs@
                    == old(self).jobs@ && (e matches MCSError::InvalidParams(m) && m@
                    == "invalid lease duration"@),
            },
    {
        let until: i64 = match lease_until(now, duration_us) {
            Ok(t) => t,
            Err(e) => {
                return Err(e);
            },
        };
        let ghost start = self.jobs@;
        let ghost f = |j: JobRow|
            if holds(j, *job, now as int) {
                JobRow { lease_until_us: until, ..j }
            } else {
                j
            };
        let mut found: bool = false;
        let mut i: usize = 0;
        while i < self.jobs.len()
            invariant
                i <= self.jobs@.len(),
                self.same_but_jobs(*old(self)),
                start.len() == self.jobs@.len(),
                f == (|j: JobRow|
                    if holds(j, *job, now as int) {
                        JobRow { lease_until_us: until, ..j }
                    } else {
                        j
                    }),
                found == exists|j: int| 0 <= j < i && holds(#[trigger] start[j], *job, now as int),
                forall|j: int| 0 <= j < i ==> #[trigger] self.jobs@[j] == f(start[j]),
                forall|j: int| i <= j < start.len() ==> #[trigger] self.jobs@[j] == start[j],
            decreases self.jobs@.len() - i,
        {
            let ghost prior = self.jobs@;
            if is_held(&self.jobs[i], job, now) {
                self.jobs[i].lease_until_us = until;
                found = true;
                assert(self.jobs@ =~= prior.update(i as int, f(prior[i as int])));
            }
            i += 1;
        }
        assert(self.jobs@ =~= renewed_jobs(start, *job, now as int, until as int));
        Ok(found)
    }

    /// Gives a job back after a failure: it waits for its next attempt, or is
    /// dead. Returns whether it was still held.
    pub fn retry(
        &mut self,
        job: &IndexJob,
        now: i64,
        next_attempt_us: i64,
        error: &str,
        dead: bool,
    ) -> (r: bool)
        ensures
            final(self).same_but_jobs(*old(self)),
            r == held(old(self).jobs@, *job, now as int),
            final(self).jobs@.len() == old(self).jobs@.len(),
            forall|i: int|
                0 <= i < old(self).jobs@.len() ==> given_back(
                    old(self).jobs@[i],
                    #[trigger] final(self).jobs@[i],
                    *job,
                    now as int,
                    next_attempt_us,
                    error@,
                    dead,
                ),
    {
        let ghost start = self.jobs@;
        let mut found: bool = false;
        let mut i: usize = 0;
        while i < self.jobs.len()
            invariant
                i <= self.jobs@.len(),
                self.same_but_jobs(*old(self)),
                start.len() == self.jobs@.len(),
                found == exists|j: int| 0 <= j < i && holds(#[trigger] start[j], *job, now as int),
                forall|j: int|
                    0 <= j < i ==> given_back(
                        start[j],
                        #[trigger] self.jobs@[j],
                        *job,
                        now as int,
                        next_attempt_us,
                        error@,
                        dead,
                    ),
                forall|j: int| i <= j < start.len() ==> #[trigger] self.jobs@[j] == start[j],
            decreases self.jobs@.len() - i,
        {
            if is_held(&self.jobs[i], job, now) {
                self.jobs[i].state = if dead {
                    JobState::Dead
                } else {
                    JobState::Pending
                };
                self.jobs[i].next_attempt_us = next_attempt_us;
                self.jobs[i].last_error = Some(clip(error));
                found = true;
            }
            i += 1;
        }
        found
    }
}

/// What giving a job back does to one row.
pub open spec fn given_back(
    before: JobRow,
    after: JobRow,
    job: IndexJob,
    now: int,
    next_attempt_us: i64,
    error: Seq<char>,
    dead: bool,
) -> bool {
    if holds(before, job, now) {
        &&& after == (JobRow {
            state: if dead {
                JobState::Dead
            } else {
                JobState::Pending
            },
            next_attempt_us,
            last_error: after.last_error,
            ..before
        })
        &&& after.last_error matches Some(w) && w@ == clipped(error)
    } else {
        after == before
    }
}

/// A job that was claimed again is no longer held under an earlier lease, so
/// whoever holds that lease can neither renew, return nor complete it.
pub proof fn law_a_new_claim_fences_the_old_lease(
    row: JobRow,
    job: IndexJob,
    token: u128,
    until: int,
    now: int,
)
    requires
        job.lease.epoch <= row.lease_epoch < i64::MAX,
    ensures
        !holds(claimed(row, token, until), job, now),
{
}

/// A job that waits, or whose lease has run out, is handed out as soon as it is
/// due, unless another one is due earlier: where any is due, one is claimed, and
/// none that was due comes before it.
pub proof fn law_a_due_job_is_handed_out(
    before: IndexStore,
    after: IndexStore,
    now: int,
    duration: int,
    token: u128,
    r: Result<Option<IndexJob>>,
    k: int,
)
    requires
        before.within_limits(),
        claim_made(before, after, now, duration, token, r),
        0 <= k < before.jobs@.len(),
        before.state.writable(before.jobs@[k].profile_id),
        before.jobs@[k].state == JobState::Pending && before.jobs@[k].next_attempt_us <= now
            || before.jobs@[k].state == JobState::Leased && before.jobs@[k].lease_until_us <= now,
        duration > 0,
        now + duration <= i64::MAX,
    ensures
        r matches Ok(Some(job)) && exists|i: int|
            {
                &&& 0 <= i < before.jobs@.len()
                &&& after.jobs@.len() == before.jobs@.len()
                &&& holds(#[trigger] after.jobs@[i], job, now) && holds(after.jobs@[i], job, now + duration - 1)
                &&& !holds(after.jobs@[i], job, now + duration)
                &&& before.jobs@[i].next_attempt_us <= before.jobs@[k].next_attempt_us
                &&& job.entity_revision == before.jobs@[i].entity_revision && job.operation
                    == before.jobs@[i].operation
                &&& job.lease.token == token && job.lease.epoch > before.jobs@[i].lease_epoch
                &&& job.lease.until_us == now + duration
                &&& forall|j: int| 0 <= j < after.jobs@.len() && j != i ==> #[trigger] after.jobs@[j] == before.jobs@[j]
            },
{
    assert(due(before.jobs@[k], now, before.state));
    if let Ok(Some(job)) = r {
        let until = now + duration;
        let i = choose|i: int|
            {
                let row = before.jobs@[i];
                &&& #[trigger] claimable(before.jobs@, now, before.state, i)
                &&& after.jobs@ == before.jobs@.update(i, claimed(row, token, until))
                &&& job.entity_id == row.entity_id
                &&& job.entity_revision == row.entity_revision
                &&& job.profile_id == row.profile_id
                &&& job.operation == row.operation
                &&& job.lease == (Lease { token, epoch: (row.lease_epoch + 1) as i64, until_us: until as i64 })
                &&& job.attempts == row.attempts + 1
            };
        assert(claimable(before.jobs@, now, before.state, i));
        assert(!sooner(before.jobs@[k], before.jobs@[i]));
        assert(due(before.jobs@[i], now, before.state));
        let row = before.jobs@[i];
        assert(row.lease_epoch < i64::MAX && row.attempts < i64::MAX);
        assert(after.jobs@[i] == claimed(row, token, until));
        assert(i64::MIN <= until <= i64::MAX) by {
            if row.state == JobState::Pending {
                assert(row.next_attempt_us <= now);
            } else {
                assert(row.lease_until_us <= now);
            }
        }
        assert(holds(after.jobs@[i], job, now));
        assert(holds(after.jobs@[i], job, now + duration - 1));
    }
}

/// A job that nobody may have is not handed out: one that is done, held or dead,
/// one that waits for a later time, one whose lease still runs, and one of a
/// profile that takes no vectors.
pub proof fn law_only_a_due_job_is_handed_out(
    before: IndexStore,
    after: IndexStore,
    now: int,
    duration: int,
    token: u128,
    r: Result<Option<IndexJob>>,
    k: int,
)
    requires
        claim_made(before, after, now, duration, token, r),
        0 <= k < before.jobs@.len(),
        !before.state.writable(before.jobs@[k].profile_id) || before.jobs@[k].state == JobState::Done
            || before.jobs@[k].state == JobState::Held || before.jobs@[k].state == JobState::Dead || (
        before.jobs@[k].state == JobState::Pending && before.jobs@[k].next_attempt_us > now) || (
        before.jobs@[k].state == JobState::Leased && before.jobs@[k].lease_until_us > now),
    ensures
        after.jobs@.len() == before.jobs@.len(),
        after.jobs@[k] == before.jobs@[k],
{
    assert(!due(before.jobs@[k], now, before.state));
    if lease_end(now, duration) is Some {
        if let Ok(Some(job)) = r {
            let until = lease_end(now, duration)->0;
            let i = choose|i: int|
                {
                    let row = before.jobs@[i];
                    &&& #[trigger] claimable(before.jobs@, now, before.state, i)
                    &&& after.jobs@ == before.jobs@.update(i, claimed(row, token, until))
                    &&& job.entity_id == row.entity_id
                    &&& job.entity_revision == row.entity_revision
                    &&& job.profile_id == row.profile_id
                    &&& job.operation == row.operation
                    &&& job.lease == (Lease {
                        token,
                        epoch: (row.lease_epoch + 1) as i64,
                        until_us: until as i64,
                    })
                    &&& job.attempts == row.attempts + 1
                };
            assert(claimable(before.jobs@, now, before.state, i));
            assert(i != k);
        }
    }
}

/// A lease that is held is extended by renewing it, and no other job is touched.
/// One that has run out, or was replaced, is not.
pub proof fn law_renewing_extends_what_is_held(
    jobs: Seq<JobRow>,
    job: IndexJob,
    now: int,
    until: int,
    i: int,
    later: int,
)
    requires
        0 <= i < jobs.len(),
        i64::MIN <= until <= i64::MAX,
    ensures
        renewed_jobs(jobs, job, now, until).len() == jobs.len(),
        holds(jobs[i], job, now) ==> (holds(renewed_jobs(jobs, job, now, until)[i], job, later) <==> later < until),
        !holds(jobs[i], job, now) ==> renewed_jobs(jobs, job, now, until)[i] == jobs[i],
        holds(jobs[i], job, now) ==> now < jobs[i].lease_until_us && jobs[i].lease_token == Some(job.lease.token),
{
}

/// A job that is given back waits for its next attempt and is due from then on,
/// with the error on record; a dead one is never due again. Only the job that is
/// held under the lease is given back.
pub proof fn law_a_job_given_back_waits(
    before: JobRow,
    after: JobRow,
    job: IndexJob,
    now: int,
    next_attempt_us: i64,
    error: Seq<char>,
    dead: bool,
    later: int,
    state: StoreState,
)
    requires
        given_back(before, after, job, now, next_attempt_us, error, dead),
        state.writable(before.profile_id),
    ensures
        holds(before, job, now) && !dead ==> (due(after, later, state) <==> next_attempt_us <= later),
        holds(before, job, now) && dead ==> !due(after, later, state),
        holds(before, job, now) ==> !holds(after, job, later) && after.attempts == before.attempts
            && after.entity_revision == before.entity_revision && after.operation == before.operation,
        holds(before, job, now) ==> (after.last_error matches Some(w) && w@.is_prefix_of(error) && (error.len() <= 2048
            ==> w@ == error) && (error.len() > 2048 ==> w@.len() == 2048)),
        !holds(before, job, now) ==> after == before,
{
    if error.len() > MAX_REASON_CHARS {
        assert(clipped(error) =~= error.subrange(0, clipped(error).len() as int));
    } else {
        assert(error =~= error.subrange(0, error.len() as int));
    }
}

/// A lease lasts as long as it is taken for, and none is given for no time.
pub proof fn law_a_lease_lasts_its_time(now: int, duration: int)
    ensures
        duration > 0 && now + duration <= i64::MAX ==> lease_end(now, duration) == Some(now + duration),
        duration <= 0 ==> lease_end(now, duration) is None,
        now + duration > i64::MAX ==> lease_end(now, duration) is None,
{
}

/// Of the jobs that are due the one that has waited longest is taken: none that is
/// due was to be tried earlier, and of those at one time the first entity goes
/// first.
pub proof fn law_who_waited_longest_goes_first(jobs: Seq<JobRow>, now: int, state: StoreState, i: int, k: int)
    requires
        claimable(jobs, now, state, i),
        0 <= k < jobs.len(),
        due(jobs[k], now, state),
    ensures
        jobs[i].next_attempt_us <= jobs[k].next_attempt_us,
        jobs[i].next_attempt_us == jobs[k].next_attempt_us ==> jobs[i].entity_id <= jobs[k].entity_id,
        jobs[i].next_attempt_us == jobs[k].next_attempt_us && jobs[i].entity_id == jobs[k].entity_id ==> jobs[i].profile_id
            <= jobs[k].profile_id,
{
    assert(!sooner(jobs[k], jobs[i]));
}

/// Of what is said of a failure the beginning is kept, and all of what is short.
pub proof fn law_the_beginning_of_a_reason_is_kept(s: Seq<char>)
    ensures
        clipped(s).is_prefix_of(s),
        s.len() <= 2048 ==> clipped(s) == s,
        s.len() > 2048 ==> clipped(s).len() == 2048,
{
}

} // verus!
