//! Building an index for a profile: what has to be done, what was done, and
//! when the profile may take over.
use vstd::prelude::*;

use crate::errors::{invalid, memory, MCSError, Result};
use crate::index::{
    clip, clipped, AnnGeneration, EntityRevision, IndexJob, IndexOperation, IndexStore, JobRow,
    JobState, ProfileRow, ProfileState, VectorRow,
};
use crate::jobs::{encode_vector, vector_bytes, IndexProfile, Normalization, StoreState};

verus! {

/// Where the first item that meets the condition stands.
pub open spec fn is_first<T>(s: Seq<T>, p: spec_fn(T) -> bool, i: int) -> bool {
    &&& 0 <= i < s.len()
    &&& p(s[i])
    &&& forall|j: int| 0 <= j < i ==> !p(#[trigger] s[j])
}

/// The first item that meets the condition.
pub open spec fn first_where<T>(s: Seq<T>, p: spec_fn(T) -> bool) -> Option<T> {
    if exists|i: int| is_first(s, p, i) {
        Some(s[choose|i: int| is_first(s, p, i)])
    } else {
        None
    }
}

/// The first item that meets the condition is where the first such place is.
pub proof fn lemma_first<T>(s: Seq<T>, p: spec_fn(T) -> bool, i: int)
    requires
        is_first(s, p, i),
    ensures
        first_where(s, p) == Some(s[i]),
{
    let k = choose|k: int| is_first(s, p, k);
    assert(is_first(s, p, k));
    assert(k == i) by {
        if k < i {
            assert(!p(s[k]));
        }
        if i < k {
            assert(!p(s[i]));
        }
    }
}

// ---------------------------------------------------------------------------
// A change of an entity
// ---------------------------------------------------------------------------

/// The job is the one of the entity in the profile.
pub open spec fn is_job_of(j: JobRow, entity_id: i64, profile_id: u128) -> bool {
    j.entity_id == entity_id && j.profile_id == profile_id
}

/// The row of a job that was never claimed.
pub open spec fn fresh_job(
    entity_id: i64,
    profile_id: u128,
    revision: i64,
    operation: IndexOperation,
    state: JobState,
) -> JobRow {
    JobRow {
        entity_id,
        profile_id,
        entity_revision: revision,
        operation,
        state,
        lease_token: None,
        lease_epoch: 0,
        lease_until_us: 0,
        attempts: 0,
        next_attempt_us: 0,
        last_error: None,
    }
}

/// The jobs once the entity's job in the profile was set up anew. A lease on
/// it is void from then on.
pub open spec fn set_up(jobs: Seq<JobRow>, row: JobRow) -> Seq<JobRow> {
    if exists|i: int|
        0 <= i < jobs.len() && is_job_of(#[trigger] jobs[i], row.entity_id, row.profile_id) {
        jobs.map_values(
            |j: JobRow|
                if is_job_of(j, row.entity_id, row.profile_id) {
                    JobRow { lease_epoch: (j.lease_epoch + 1) as i64, ..row }
                } else {
                    j
                },
        )
    } else {
        jobs.push(row)
    }
}

/// The generations once the scan of a profile no longer holds.
pub open spec fn unscanned(gens: Seq<AnnGeneration>, profile_id: u128) -> Seq<AnnGeneration> {
    gens.map_values(
        |g: AnnGeneration|
            if g.profile_id == profile_id {
                AnnGeneration { full_scan_generation: None, ..g }
            } else {
                g
            },
    )
}

/// The profiles that a change concerns, in order; the nil profile where there
/// is none.
pub open spec fn targets(state: StoreState) -> Seq<u128> {
    match (
        state.serves(),
        match state {
            StoreState::Rebuilding { candidate, .. } => Some(candidate),
            _ => None,
        },
    ) {
        (None, None) => seq![0u128],
        (Some(s), None) => seq![s],
        (None, Some(c)) => seq![c],
        (Some(s), Some(c)) => if s == c {
            seq![s]
        } else if s < c {
            seq![s, c]
        } else {
            seq![c, s]
        },
    }
}

/// The job that a change gives to a profile. The nil profile's jobs are held.
pub open spec fn change_job(entity_id: i64, profile_id: u128, revision: i64, deleted: bool) -> JobRow {
    fresh_job(
        entity_id,
        profile_id,
        revision,
        if deleted {
            IndexOperation::Delete
        } else {
            IndexOperation::Upsert
        },
        if profile_id == 0 {
            JobState::Held
        } else {
            JobState::Pending
        },
    )
}

/// The jobs once every profile in the list has the change.
pub open spec fn changed_jobs(
    jobs: Seq<JobRow>,
    profiles: Seq<u128>,
    entity_id: i64,
    revision: i64,
    deleted: bool,
) -> Seq<JobRow>
    decreases profiles.len(),
{
    if profiles.len() == 0 {
        jobs
    } else {
        set_up(
            changed_jobs(jobs, profiles.drop_last(), entity_id, revision, deleted),
            change_job(entity_id, profiles.last(), revision, deleted),
        )
    }
}

/// The generations once every profile in the list has the change.
pub open spec fn changed_generations(gens: Seq<AnnGeneration>, profiles: Seq<u128>) -> Seq<
    AnnGeneration,
>
    decreases profiles.len(),
{
    if profiles.len() == 0 {
        gens
    } else {
        unscanned(changed_generations(gens, profiles.drop_last()), profiles.last())
    }
}

/// No job of the entity is at the end of its epochs, with room for as many
/// changes as there are profiles.
pub open spec fn epochs_left(jobs: Seq<JobRow>, n: int) -> bool {
    forall|i: int| 0 <= i < jobs.len() ==> (#[trigger] jobs[i]).lease_epoch + n <= i64::MAX
}

fn set_up_job(jobs: &mut Vec<JobRow>, entity_id: i64, profile_id: u128, revision: i64, deleted: bool)
    requires
        epochs_left(old(jobs)@, 1),
    ensures
        final(jobs)@ == set_up(old(jobs)@, change_job(entity_id, profile_id, revision, deleted)),
        forall|n: int| n >= 0 && epochs_left(old(jobs)@, n + 1) && n <= i64::MAX ==> #[trigger] epochs_left(final(jobs)@, n),
{
    let operation: IndexOperation = if deleted {
        IndexOperation::Delete
    } else {
        IndexOperation::Upsert
    };
    let state: JobState = if profile_id == 0 {
        JobState::Held
    } else {
        JobState::Pending
    };
    let ghost start = jobs@;
    let ghost row = change_job(entity_id, profile_id, revision, deleted);
    let ghost f = |j: JobRow|
        if is_job_of(j, row.entity_id, row.profile_id) {
            JobRow { lease_epoch: (j.lease_epoch + 1) as i64, ..row }
        } else {
            j
        };
    let mut found: bool = false;
    let mut i: usize = 0;
    while i < jobs.len()
        invariant
            i <= jobs@.len(),
            start.len() == jobs@.len(),
            epochs_left(start, 1),
            row == change_job(entity_id, profile_id, revision, deleted),
            operation == row.operation,
            state == row.state,
            f == (|j: JobRow|
                if is_job_of(j, row.entity_id, row.profile_id) {
                    JobRow { lease_epoch: (j.lease_epoch + 1) as i64, ..row }
                } else {
                    j
                }),
            found == exists|j: int| 0 <= j < i && is_job_of(#[trigger] start[j], entity_id, profile_id),
            forall|j: int| 0 <= j < i ==> #[trigger] jobs@[j] == f(start[j]),
            forall|j: int| i <= j < start.len() ==> #[trigger] jobs@[j] == start[j],
        decreases jobs@.len() - i,
    {
        if jobs[i].entity_id == entity_id && jobs[i].profile_id == profile_id {
            assert(jobs@[i as int] == start[i as int]);
            let epoch: i64 = jobs[i].lease_epoch + 1;
            jobs[i].entity_revision = revision;
            jobs[i].operation = operation;
            jobs[i].state = state;
            jobs[i].lease_token = None;
            jobs[i].lease_epoch = epoch;
            jobs[i].lease_until_us = 0;
            jobs[i].attempts = 0;
            jobs[i].next_attempt_us = 0;
            jobs[i].last_error = None;
            found = true;
        }
        i += 1;
    }
    if !found {
        assert(jobs@ =~= start);
        jobs.push(
            JobRow {
                entity_id,
                profile_id,
                entity_revision: revision,
                operation,
                state,
                lease_token: None,
                lease_epoch: 0,
                lease_until_us: 0,
                attempts: 0,
                next_attempt_us: 0,
                last_error: None,
            },
        );
        assert(jobs@ =~= start.push(row));
    } else {
        assert(jobs@ =~= start.map_values(f));
    }
    assert forall|n: int| n >= 0 && epochs_left(start, n + 1) && n <= i64::MAX implies #[trigger] epochs_left(
        jobs@,
        n,
    ) by {
        assert forall|k: int| 0 <= k < jobs@.len() implies (#[trigger] jobs@[k]).lease_epoch + n
            <= i64::MAX by {
            if k < start.len() {
                assert(start[k].lease_epoch + (n + 1) <= i64::MAX);
            }
        }
    }
}

fn drop_scan(gens: &mut Vec<AnnGeneration>, profile_id: u128)
    ensures
        final(gens)@ == unscanned(old(gens)@, profile_id),
{
    let ghost start = gens@;
    let mut i: usize = 0;
    while i < gens.len()
        invariant
            i <= gens@.len(),
            start.len() == gens@.len(),
            forall|j: int| 0 <= j < i ==> #[trigger] gens@[j] == unscanned(start, profile_id)[j],
            forall|j: int| i <= j < start.len() ==> #[trigger] gens@[j] == start[j],
        decreases gens@.len() - i,
    {
        if gens[i].profile_id == profile_id {
            gens[i].full_scan_generation = None;
        }
        i += 1;
    }
    assert(gens@ =~= unscanned(start, profile_id));
}

impl IndexStore {
    fn target_list(&self) -> (r: Vec<u128>)
        ensures
            r@ == targets(self.state),
            r@.len() <= 2,
    {
        let candidate: Option<u128> = match &self.state {
            StoreState::Rebuilding { candidate, .. } => Some(*candidate),
            _ => None,
        };
        match (self.state.serving_profile(), candidate) {
            (None, None) => vec![0u128],
            (Some(s), None) => vec![s],
            (None, Some(c)) => vec![c],
            (Some(s), Some(c)) => if s == c {
                vec![s]
            } else if s < c {
                vec![s, c]
            } else {
                vec![c, s]
            },
        }
    }

    /// Gives the change of an entity to every profile that is served or being
    /// built, as a job that is due at once; where there is none, the job waits
    /// under the nil profile. What was scanned before no longer counts.
    pub fn enqueue_change(&mut self, entity_id: i64, revision: i64, deleted: bool)
        requires
            epochs_left(old(self).jobs@, 2),
        ensures
            final(self).jobs@ == changed_jobs(
                old(self).jobs@,
                targets(old(self).state),
                entity_id,
                revision,
                deleted,
            ),
            final(self).generations@ == changed_generations(
                old(self).generations@,
                targets(old(self).state),
            ),
            final(self).state == old(self).state,
            final(self).profiles@ == old(self).profiles@,
            final(self).revisions@ == old(self).revisions@,
            final(self).vectors@ == old(self).vectors@,
            final(self).live@ == old(self).live@,
    {
        let profiles: Vec<u128> = self.target_list();
        let ghost jobs = self.jobs@;
        let ghost gens = self.generations@;
        assert(profiles@.take(0) =~= Seq::<u128>::empty());
        let mut i: usize = 0;
        while i < profiles.len()
            invariant
                i <= profiles@.len() <= 2,
                epochs_left(self.jobs@, 2 - i),
                self.jobs@ == changed_jobs(jobs, profiles@.take(i as int), entity_id, revision, deleted),
                self.generations@ == changed_generations(gens, profiles@.take(i as int)),
                self.state == old(self).state,
                self.profiles@ == old(self).profiles@,
                self.revisions@ == old(self).revisions@,
                self.vectors@ == old(self).vectors@,
                self.live@ == old(self).live@,
            decreases profiles@.len() - i,
        {
            assert(profiles@.take(i + 1).drop_last() =~= profiles@.take(i as int));
            assert(epochs_left(self.jobs@, (1 - i) + 1));
            assert(epochs_left(self.jobs@, 1));
            set_up_job(&mut self.jobs, entity_id, profiles[i], revision, deleted);
            drop_scan(&mut self.generations, profiles[i]);
            i += 1;
            assert(epochs_left(self.jobs@, 2 - i));
        }
        assert(profiles@.take(profiles@.len() as int) =~= profiles@);
    }
}

// ---------------------------------------------------------------------------
// Beginning, failing and activating
// ---------------------------------------------------------------------------

/// The profile that the registry names as its candidate.
pub open spec fn candidate_of(state: StoreState) -> Option<u128> {
    match state {
        StoreState::Rebuilding { candidate, .. } => Some(candidate),
        StoreState::Failed { candidate, .. } => Some(candidate),
        _ => None,
    }
}

/// A profile's row once the profile with the identifier was retired.
pub open spec fn retired(row: ProfileRow, id: Option<u128>) -> ProfileRow {
    if id == Some(row.profile.id) {
        ProfileRow { state: ProfileState::Retired, ..row }
    } else {
        row
    }
}

/// Nothing is stored under the profile's identifier yet.
pub open spec fn unused(store: IndexStore, id: u128) -> bool {
    &&& forall|i: int| 0 <= i < store.profiles@.len() ==> (#[trigger] store.profiles@[i]).profile.id != id
    &&& forall|i: int|
        0 <= i < store.generations@.len() ==> (#[trigger] store.generations@[i]).profile_id != id
    &&& forall|i: int| 0 <= i < store.jobs@.len() ==> (#[trigger] store.jobs@[i]).profile_id != id
}

/// The entity has a revision.
pub open spec fn is_revised(revisions: Seq<EntityRevision>, entity_id: i64) -> bool {
    exists|i: int| 0 <= i < revisions.len() && (#[trigger] revisions[i]).entity_id == entity_id
}

/// The revisions once every listed entity has one: its first, where it had
/// none.
pub open spec fn revised(revisions: Seq<EntityRevision>, live: Seq<i64>) -> Seq<EntityRevision>
    decreases live.len(),
{
    if live.len() == 0 {
        revisions
    } else {
        let before = revised(revisions, live.drop_last());
        if is_revised(before, live.last()) {
            before
        } else {
            before.push(EntityRevision { entity_id: live.last(), revision: 1, deleted: false })
        }
    }
}

/// The revision of the entity.
pub open spec fn revision_of(revisions: Seq<EntityRevision>, entity_id: i64) -> Option<EntityRevision> {
    first_where(revisions, |r: EntityRevision| r.entity_id == entity_id)
}

/// The jobs that build a profile from nothing.
pub open spec fn building_jobs(
    revisions: Seq<EntityRevision>,
    live: Seq<i64>,
    profile_id: u128,
) -> Seq<JobRow> {
    live.map_values(
        |e: i64|
            fresh_job(
                e,
                profile_id,
                revision_of(revisions, e)->0.revision,
                IndexOperation::Upsert,
                JobState::Pending,
            ),
    )
}

/// A job that nobody may work on until it is set up anew.
pub open spec fn released(j: JobRow) -> JobRow {
    JobRow {
        state: JobState::Held,
        lease_token: None,
        lease_epoch: (j.lease_epoch + 1) as i64,
        ..j
    }
}

/// The jobs once those that are not done, of the profile or of all others,
/// were released.
pub open spec fn released_jobs(jobs: Seq<JobRow>, profile_id: u128, of_it: bool) -> Seq<JobRow> {
    jobs.map_values(
        |j: JobRow|
            if (j.profile_id == profile_id) == of_it && j.state != JobState::Done {
                released(j)
            } else {
                j
            },
    )
}

/// Every live entity has a vector of its revision, no other has a vector, and
/// every job is done.
pub open spec fn current(store: IndexStore, profile_id: u128) -> bool {
    &&& forall|i: int| 0 <= i < store.live@.len() ==> up_to_date(store, profile_id, #[trigger] store.live@[i])
    &&& forall|i: int|
        0 <= i < store.vectors@.len() && (#[trigger] store.vectors@[i]).profile_id == profile_id
            ==> store.live@.contains(store.vectors@[i].entity_id)
    &&& forall|i: int|
        0 <= i < store.jobs@.len() && (#[trigger] store.jobs@[i]).profile_id == profile_id
            ==> store.jobs@[i].state == JobState::Done
}

/// The vector is the one of the entity in the profile.
pub open spec fn is_vector_of(v: VectorRow, profile_id: u128, entity_id: i64) -> bool {
    v.profile_id == profile_id && v.entity_id == entity_id
}

/// The entity has a vector and a revision, and they agree.
pub open spec fn up_to_date(store: IndexStore, profile_id: u128, entity_id: i64) -> bool {
    &&& exists|i: int|
        0 <= i < store.vectors@.len() && is_vector_of(#[trigger] store.vectors@[i], profile_id, entity_id)
    &&& is_revised(store.revisions@, entity_id)
    &&& forall|i: int, k: int|
        0 <= i < store.vectors@.len() && 0 <= k < store.revisions@.len() && is_vector_of(
            #[trigger] store.vectors@[i],
            profile_id,
            entity_id,
        ) && (#[trigger] store.revisions@[k]).entity_id == entity_id
            ==> store.vectors@[i].entity_revision == store.revisions@[k].revision
}

/// The generation of the profile.
pub open spec fn generation_of(gens: Seq<AnnGeneration>, profile_id: u128) -> Option<AnnGeneration> {
    first_where(gens, |g: AnnGeneration| g.profile_id == profile_id)
}

/// All of the profile's vectors were scanned and are what searches use.
pub open spec fn published(g: AnnGeneration) -> bool {
    &&& g.full_scan_generation == Some(g.durable_generation)
    &&& g.published_generation == g.durable_generation
}

/// A profile's row once the profile was activated.
pub open spec fn activated(row: ProfileRow, id: u128) -> ProfileRow {
    if row.profile.id == id {
        ProfileRow { state: ProfileState::Active, ..row }
    } else if row.state == ProfileState::Active {
        ProfileRow { state: ProfileState::Retired, ..row }
    } else {
        row
    }
}

pub(crate) fn find_revision(revisions: &Vec<EntityRevision>, entity_id: i64) -> (r: Option<EntityRevision>)
    ensures
        r == revision_of(revisions@, entity_id),
        r is Some <==> is_revised(revisions@, entity_id),
{
    let ghost p = |r: EntityRevision| r.entity_id == entity_id;
    let mut i: usize = 0;
    while i < revisions.len()
        invariant
            i <= revisions@.len(),
            p == (|r: EntityRevision| r.entity_id == entity_id),
            forall|j: int| 0 <= j < i ==> !p(#[trigger] revisions@[j]),
        decreases revisions@.len() - i,
    {
        if revisions[i].entity_id == entity_id {
            proof {
                lemma_first(revisions@, p, i as int);
            }
            return Some(revisions[i]);
        }
        i += 1;
    }
    None
}

fn release_jobs(jobs: &mut Vec<JobRow>, profile_id: u128, of_it: bool)
    requires
        epochs_left(old(jobs)@, 1),
    ensures
        final(jobs)@ == released_jobs(old(jobs)@, profile_id, of_it),
{
    let ghost start = jobs@;
    let mut i: usize = 0;
    while i < jobs.len()
        invariant
            i <= jobs@.len(),
            start.len() == jobs@.len(),
            epochs_left(start, 1),
            forall|j: int|
                0 <= j < i ==> #[trigger] jobs@[j] == released_jobs(start, profile_id, of_it)[j],
            forall|j: int| i <= j < start.len() ==> #[trigger] jobs@[j] == start[j],
        decreases jobs@.len() - i,
    {
        if (jobs[i].profile_id == profile_id) == of_it && jobs[i].state != JobState::Done {
            assert(jobs@[i as int] == start[i as int]);
            let epoch: i64 = jobs[i].lease_epoch + 1;
            jobs[i].state = JobState::Held;
            jobs[i].lease_token = None;
            jobs[i].lease_epoch = epoch;
        }
        i += 1;
    }
    assert(jobs@ =~= released_jobs(start, profile_id, of_it));
}

impl IndexStore {
    fn is_unused(&self, id: u128) -> (r: bool)
        ensures
            r == unused(*self, id),
    {
        let mut i: usize = 0;
        while i < self.profiles.len()
            invariant
                i <= self.profiles@.len(),
                forall|j: int| 0 <= j < i ==> (#[trigger] self.profiles@[j]).profile.id != id,
            decreases self.profiles@.len() - i,
        {
            if self.profiles[i].profile.id == id {
                return false;
            }
            i += 1;
        }
        let mut k: usize = 0;
        while k < self.generations.len()
            invariant
                k <= self.generations@.len(),
                forall|j: int| 0 <= j < k ==> (#[trigger] self.generations@[j]).profile_id != id,
            decreases self.generations@.len() - k,
        {
            if self.generations[k].profile_id == id {
                return false;
            }
            k += 1;
        }
        let mut n: usize = 0;
        while n < self.jobs.len()
            invariant
                n <= self.jobs@.len(),
                forall|j: int| 0 <= j < n ==> (#[trigger] self.jobs@[j]).profile_id != id,
            decreases self.jobs@.len() - n,
        {
            if self.jobs[n].profile_id == id {
                return false;
            }
            n += 1;
        }
        true
    }

    /// Why a rebuild into the profile is refused; nothing where it may begin.
    pub open spec fn rebuild_refusal(self, profile: IndexProfile) -> Option<Seq<char>> {
        if !profile.valid() {
            Some("invalid index profile"@)
        } else if self.state is Rebuilding {
            Some("profile rebuild already in progress"@)
        } else if self.state.serves() == Some(profile.id) {
            Some("cannot rebuild into serving profile"@)
        } else {
            None
        }
    }

    /// Begins to build an index for the profile: every live entity gets a job.
    /// What is served stays served, and an earlier candidate is retired.
    pub fn begin_rebuild(&mut self, profile: IndexProfile) -> (r: Result<()>)
        ensures
            final(self).live@ == old(self).live@,
            final(self).vectors@ == old(self).vectors@,
            r is Err ==> *final(self) == *old(self),
            match old(self).rebuild_refusal(profile) {
                Some(why) => r matches Err(MCSError::InvalidParams(m)) && m@ == why,
                None => if !unused(*old(self), profile.id) {
                    r matches Err(MCSError::MemoryError(m)) && m@ == "profile already exists"@
                } else {
                    r is Ok && rebuild_begun(*old(self), *final(self), profile)
                },
            },
            r is Ok ==> final(self).state.serves() == old(self).state.serves(),
            r is Ok && old(self).state is Active ==> final(self).state.serves() == Some(
                old(self).state->Active_0,
            ),
    {
        let fingerprint: String = match profile.fingerprint() {
            Ok(f) => f,
            Err(e) => {
                return Err(e);
            },
        };
        let id: u128 = profile.id;
        let earlier: Option<u128> = match &self.state {
            StoreState::Rebuilding { .. } => {
                return Err(invalid("profile rebuild already in progress"));
            },
            StoreState::Failed { candidate, .. } => Some(*candidate),
            _ => None,
        };
        let serving: Option<u128> = self.state.serving_profile();
        if let Some(s) = serving {
            if s == id {
                return Err(invalid("cannot rebuild into serving profile"));
            }
        }
        if !self.is_unused(id) {
            return Err(memory("profile already exists"));
        }
        self.profiles.push(ProfileRow { profile, fingerprint, state: ProfileState::Rebuilding });
        let ghost all = self.profiles@;
        let mut i: usize = 0;
        while i < self.profiles.len()
            invariant
                i <= self.profiles@.len(),
                all.len() == self.profiles@.len(),
                self.same_but_profiles(*old(self)),
                forall|j: int| 0 <= j < i ==> #[trigger] self.profiles@[j] == retired(all[j], earlier),
                forall|j: int| i <= j < all.len() ==> #[trigger] self.profiles@[j] == all[j],
            decreases self.profiles@.len() - i,
        {
            let hit: bool = match earlier {
                Some(c) => c == self.profiles[i].profile.id,
                None => false,
            };
            if hit {
                self.profiles[i].state = ProfileState::Retired;
            }
            i += 1;
        }
        self.state = StoreState::Rebuilding { serving, candidate: id };
        self.generations.push(
            AnnGeneration {
                profile_id: id,
                durable_generation: 0,
                published_generation: 0,
                full_scan_generation: None,
            },
        );
        self.revise_live();
        self.add_building_jobs(id);
        Ok(())
    }

    /// The two stores differ at most in their profiles.
    spec fn same_but_profiles(self, other: IndexStore) -> bool {
        &&& self.state == other.state
        &&& self.jobs == other.jobs
        &&& self.revisions == other.revisions
        &&& self.vectors == other.vectors
        &&& self.generations == other.generations
        &&& self.live == other.live
    }

    fn revise_live(&mut self)
        ensures
            final(self).revisions@ == revised(old(self).revisions@, old(self).live@),
            *final(self) == (IndexStore { revisions: final(self).revisions, ..*old(self) }),
            forall|i: int|
                0 <= i < old(self).live@.len() ==> is_revised(
                    final(self).revisions@,
                    #[trigger] old(self).live@[i],
                ),
    {
        let ghost start = self.revisions@;
        let mut i: usize = 0;
        assert(self.live@.take(0) =~= Seq::<i64>::empty());
        while i < self.live.len()
            invariant
                i <= self.live@.len(),
                self.revisions@ == revised(start, self.live@.take(i as int)),
                *self == (IndexStore { revisions: self.revisions, ..*old(self) }),
                forall|j: int| 0 <= j < i ==> is_revised(self.revisions@, #[trigger] self.live@[j]),
            decreases self.live@.len() - i,
        {
            let ghost before = self.revisions@;
            assert(self.live@.take(i + 1).drop_last() =~= self.live@.take(i as int));
            let e: i64 = self.live[i];
            if find_revision(&self.revisions, e).is_none() {
                self.revisions.push(EntityRevision { entity_id: e, revision: 1, deleted: false });
                assert(self.revisions@.last().entity_id == e);
                assert forall|j: int| 0 <= j < i implies is_revised(
                    self.revisions@,
                    #[trigger] self.live@[j],
                ) by {
                    let k = choose|k: int|
                        0 <= k < before.len() && (#[trigger] before[k]).entity_id == self.live@[j];
                    assert(self.revisions@[k].entity_id == self.live@[j]);
                }
            }
            i += 1;
        }
        assert(self.live@.take(self.live@.len() as int) =~= self.live@);
    }

    fn add_building_jobs(&mut self, id: u128)
        requires
            forall|i: int|
                0 <= i < old(self).live@.len() ==> is_revised(
                    old(self).revisions@,
                    #[trigger] old(self).live@[i],
                ),
        ensures
            final(self).jobs@ == old(self).jobs@ + building_jobs(
                old(self).revisions@,
                old(self).live@,
                id,
            ),
            *final(self) == (IndexStore { jobs: final(self).jobs, ..*old(self) }),
    {
        let ghost start = self.jobs@;
        let ghost all = building_jobs(self.revisions@, self.live@, id);
        let mut i: usize = 0;
        assert(start + all.take(0) =~= start);
        while i < self.live.len()
            invariant
                i <= self.live@.len(),
                all == building_jobs(self.revisions@, self.live@, id),
                self.jobs@ == start + all.take(i as int),
                *self == (IndexStore { jobs: self.jobs, ..*old(self) }),
                forall|j: int|
                    0 <= j < self.live@.len() ==> is_revised(self.revisions@, #[trigger] self.live@[j]),
            decreases self.live@.len() - i,
        {
            let e: i64 = self.live[i];
            let ghost before = self.jobs@;
            assert(is_revised(self.revisions@, self.live@[i as int]));
            if let Some(r) = find_revision(&self.revisions, e) {
                self.jobs.push(
                    JobRow {
                        entity_id: e,
                        profile_id: id,
                        entity_revision: r.revision,
                        operation: IndexOperation::Upsert,
                        state: JobState::Pending,
                        lease_token: None,
                        lease_epoch: 0,
                        lease_until_us: 0,
                        attempts: 0,
                        next_attempt_us: 0,
                        last_error: None,
                    },
                );
                assert(self.jobs@ =~= before.push(all[i as int]));
                assert(start + all.take(i + 1) =~= (start + all.take(i as int)).push(all[i as int]));
            }
            i += 1;
        }
        assert(all.take(all.len() as int) =~= all);
    }
}

/// The store once a rebuild into the profile has begun.
pub open spec fn rebuild_begun(before: IndexStore, after: IndexStore, profile: IndexProfile) -> bool {
    &&& after.state == (StoreState::Rebuilding { serving: before.state.serves(), candidate: profile.id })
    &&& after.profiles@.len() == before.profiles@.len() + 1
    &&& forall|i: int|
        0 <= i < before.profiles@.len() ==> #[trigger] after.profiles@[i] == retired(
            before.profiles@[i],
            candidate_of(before.state),
        )
    &&& after.profiles@.last().profile == profile
    &&& after.profiles@.last().fingerprint@ == profile.print()
    &&& after.profiles@.last().state == (if candidate_of(before.state) == Some(profile.id) {
        ProfileState::Retired
    } else {
        ProfileState::Rebuilding
    })
    &&& after.generations@ == before.generations@.push(
        AnnGeneration {
            profile_id: profile.id,
            durable_generation: 0,
            published_generation: 0,
            full_scan_generation: None,
        },
    )
    &&& after.revisions@ == revised(before.revisions@, before.live@)
    &&& after.jobs@ == before.jobs@ + building_jobs(after.revisions@, before.live@, profile.id)
}

/// The store once a rebuild was given up.
pub open spec fn rebuild_given_up(
    before: IndexStore,
    after: IndexStore,
    candidate: u128,
    reason: Seq<char>,
) -> bool {
    &&& after.state matches StoreState::Failed { serving, candidate: c, reason: why }
    &&& serving == before.state.serves()
    &&& c == candidate
    &&& why@ == clipped(reason)
    &&& after.jobs@ == released_jobs(before.jobs@, candidate, true)
    &&& after == (IndexStore { state: after.state, jobs: after.jobs, ..before })
}

/// The store once the candidate has taken over.
pub open spec fn taken_over(before: IndexStore, after: IndexStore, candidate: u128) -> bool {
    &&& after.state == StoreState::Active(candidate)
    &&& after.profiles@ == before.profiles@.map_values(|row: ProfileRow| activated(row, candidate))
    &&& after.jobs@ == released_jobs(before.jobs@, candidate, false)
    &&& after == (IndexStore { state: after.state, profiles: after.profiles, jobs: after.jobs, ..before })
}

/// Whether the profile is the one being built.
pub open spec fn is_rebuilding(state: StoreState, candidate: u128) -> bool {
    state matches StoreState::Rebuilding { candidate: c, .. } && c == candidate
}

/// The generations once a scan of the profile succeeded.
pub open spec fn scanned(gens: Seq<AnnGeneration>, profile_id: u128) -> Seq<AnnGeneration> {
    gens.map_values(
        |g: AnnGeneration|
            if g.profile_id == profile_id {
                AnnGeneration { full_scan_generation: Some(g.durable_generation), ..g }
            } else {
                g
            },
    )
}

/// The generations once searches use the given one of the profile.
pub open spec fn marked(gens: Seq<AnnGeneration>, profile_id: u128, generation: i64) -> Seq<
    AnnGeneration,
> {
    gens.map_values(
        |g: AnnGeneration|
            if g.profile_id == profile_id && g.durable_generation == generation {
                AnnGeneration { published_generation: generation, ..g }
            } else {
                g
            },
    )
}

impl IndexStore {
    /// Gives a rebuild up. Its jobs are held; what is served stays served.
    pub fn fail_rebuild(&mut self, candidate: u128, reason: &str) -> (r: Result<()>)
        requires
            epochs_left(old(self).jobs@, 1),
        ensures
            r is Ok <==> is_rebuilding(old(self).state, candidate),
            r is Err ==> *final(self) == *old(self) && (r matches Err(MCSError::InvalidParams(m)) && m@
                == "candidate is not rebuilding"@),
            r is Ok ==> rebuild_given_up(*old(self), *final(self), candidate, reason@),
            r is Ok ==> final(self).state.serves() == old(self).state.serves(),
    {
        let held: bool = match &self.state {
            StoreState::Rebuilding { candidate: c, .. } => *c == candidate,
            _ => false,
        };
        if !held {
            return Err(invalid("candidate is not rebuilding"));
        }
        let serving: Option<u128> = self.state.serving_profile();
        self.state = StoreState::Failed { serving, candidate, reason: clip(reason) };
        release_jobs(&mut self.jobs, candidate, true);
        Ok(())
    }

    /// The profile with the identifier.
    pub fn profile(&self, id: u128) -> (r: Option<&IndexProfile>)
        ensures
            r == (match first_where(self.profiles@, |p: ProfileRow| p.profile.id == id) {
                Some(row) => Some(&row.profile),
                None => None,
            }),
    {
        let ghost p = |p: ProfileRow| p.profile.id == id;
        let mut i: usize = 0;
        while i < self.profiles.len()
            invariant
                i <= self.profiles@.len(),
                p == (|p: ProfileRow| p.profile.id == id),
                forall|j: int| 0 <= j < i ==> !p(#[trigger] self.profiles@[j]),
            decreases self.profiles@.len() - i,
        {
            if self.profiles[i].profile.id == id {
                proof {
                    lemma_first(self.profiles@, p, i as int);
                }
                return Some(&self.profiles[i].profile);
            }
            i += 1;
        }
        None
    }

    /// The generation of the profile.
    pub fn generation(&self, profile_id: u128) -> (r: Result<AnnGeneration>)
        ensures
            match generation_of(self.generations@, profile_id) {
                Some(g) => r == Ok::<AnnGeneration, MCSError>(g),
                None => r matches Err(MCSError::MemoryError(m)) && m@ == "unknown ANN profile"@,
            },
    {
        let ghost p = |g: AnnGeneration| g.profile_id == profile_id;
        let mut i: usize = 0;
        while i < self.generations.len()
            invariant
                i <= self.generations@.len(),
                p == (|g: AnnGeneration| g.profile_id == profile_id),
                forall|j: int| 0 <= j < i ==> !p(#[trigger] self.generations@[j]),
            decreases self.generations@.len() - i,
        {
            if self.generations[i].profile_id == profile_id {
                proof {
                    lemma_first(self.generations@, p, i as int);
                }
                return Ok(self.generations[i]);
            }
            i += 1;
        }
        Err(memory("unknown ANN profile"))
    }

    fn is_live(&self, entity_id: i64) -> (r: bool)
        ensures
            r == self.live@.contains(entity_id),
    {
        let mut i: usize = 0;
        while i < self.live.len()
            invariant
                i <= self.live@.len(),
                forall|j: int| 0 <= j < i ==> #[trigger] self.live@[j] != entity_id,
            decreases self.live@.len() - i,
        {
            if self.live[i] == entity_id {
                return true;
            }
            i += 1;
        }
        false
    }

    fn is_up_to_date(&self, profile_id: u128, entity_id: i64) -> (r: bool)
        ensures
            r == up_to_date(*self, profile_id, entity_id),
    {
        if find_revision(&self.revisions, entity_id).is_none() {
            return false;
        }
        let mut found: bool = false;
        let mut i: usize = 0;
        while i < self.vectors.len()
            invariant
                i <= self.vectors@.len(),
                found == exists|j: int|
                    0 <= j < i && is_vector_of(#[trigger] self.vectors@[j], profile_id, entity_id),
                forall|j: int, k: int|
                    0 <= j < i && 0 <= k < self.revisions@.len() && is_vector_of(
                        #[trigger] self.vectors@[j],
                        profile_id,
                        entity_id,
                    ) && (#[trigger] self.revisions@[k]).entity_id == entity_id
                        ==> self.vectors@[j].entity_revision == self.revisions@[k].revision,
            decreases self.vectors@.len() - i,
        {
            if self.vectors[i].profile_id == profile_id && self.vectors[i].entity_id == entity_id {
                found = true;
                let mut n: usize = 0;
                while n < self.revisions.len()
                    invariant
                        i < self.vectors@.len(),
                        n <= self.revisions@.len(),
                        is_vector_of(self.vectors@[i as int], profile_id, entity_id),
                        forall|k: int|
                            0 <= k < n && (#[trigger] self.revisions@[k]).entity_id == entity_id
                                ==> self.vectors@[i as int].entity_revision
                                == self.revisions@[k].revision,
                    decreases self.revisions@.len() - n,
                {
                    if self.revisions[n].entity_id == entity_id && self.revisions[n].revision
                        != self.vectors[i].entity_revision {
                        return false;
                    }
                    n += 1;
                }
            }
            i += 1;
        }
        found
    }

    /// Checks that the profile's vectors are those of the live entities.
    pub fn verify_vectors_current(&self, profile_id: u128) -> (r: Result<()>)
        ensures
            r is Ok <==> current(*self, profile_id),
            r matches Err(e) ==> (e matches MCSError::InvalidParams(m) && m@
                == "candidate Full scan has missing or stale vectors/jobs"@),
    {
        let mut good: bool = true;
        let mut i: usize = 0;
        while i < self.live.len()
            invariant
                i <= self.live@.len(),
                good == forall|j: int|
                    0 <= j < i ==> up_to_date(*self, profile_id, #[trigger] self.live@[j]),
            decreases self.live@.len() - i,
        {
            if !self.is_up_to_date(profile_id, self.live[i]) {
                assert(!up_to_date(*self, profile_id, self.live@[i as int]));
                good = false;
            }
            i += 1;
        }
        let ghost first = good;
        let mut k: usize = 0;
        while k < self.vectors.len()
            invariant
                k <= self.vectors@.len(),
                good == (first && forall|j: int|
                    0 <= j < k && (#[trigger] self.vectors@[j]).profile_id == profile_id
                        ==> self.live@.contains(self.vectors@[j].entity_id)),
            decreases self.vectors@.len() - k,
        {
            if self.vectors[k].profile_id == profile_id && !self.is_live(self.vectors[k].entity_id) {
                assert(self.vectors@[k as int].profile_id == profile_id);
                good = false;
            }
            k += 1;
        }
        let ghost second = good;
        let mut n: usize = 0;
        while n < self.jobs.len()
            invariant
                n <= self.jobs@.len(),
                good == (second && forall|j: int|
                    0 <= j < n && (#[trigger] self.jobs@[j]).profile_id == profile_id
                        ==> self.jobs@[j].state == JobState::Done),
            decreases self.jobs@.len() - n,
        {
            if self.jobs[n].profile_id == profile_id && self.jobs[n].state != JobState::Done {
                assert(self.jobs@[n as int].profile_id == profile_id);
                good = false;
            }
            n += 1;
        }
        if good {
            Ok(())
        } else {
            Err(invalid("candidate Full scan has missing or stale vectors/jobs"))
        }
    }

    /// Records that the profile's vectors are those of the live entities.
    pub fn verify_full_scan(&mut self, profile_id: u128) -> (r: Result<()>)
        ensures
            r is Ok <==> current(*old(self), profile_id) && generation_of(
                old(self).generations@,
                profile_id,
            ) is Some,
            r is Err ==> *final(self) == *old(self),
            !current(*old(self), profile_id) ==> (r matches Err(MCSError::InvalidParams(m)) && m@
                == "candidate Full scan has missing or stale vectors/jobs"@),
            current(*old(self), profile_id) && r is Err ==> (r matches Err(MCSError::InvalidParams(m))
                && m@ == "unknown ANN profile"@),
            r is Ok ==> final(self).generations@ == scanned(old(self).generations@, profile_id)
                && *final(self) == (IndexStore { generations: final(self).generations, ..*old(self) }),
    {
        match self.verify_vectors_current(profile_id) {
            Ok(_) => {},
            Err(e) => {
                return Err(e);
            },
        }
        if self.generation(profile_id).is_err() {
            return Err(invalid("unknown ANN profile"));
        }
        let ghost start = self.generations@;
        let mut i: usize = 0;
        while i < self.generations.len()
            invariant
                i <= self.generations@.len(),
                start.len() == self.generations@.len(),
                *self == (IndexStore { generations: self.generations, ..*old(self) }),
                forall|j: int|
                    0 <= j < i ==> #[trigger] self.generations@[j] == scanned(start, profile_id)[j],
                forall|j: int| i <= j < start.len() ==> #[trigger] self.generations@[j] == start[j],
            decreases self.generations@.len() - i,
        {
            if self.generations[i].profile_id == profile_id {
                let g: i64 = self.generations[i].durable_generation;
                self.generations[i].full_scan_generation = Some(g);
            }
            i += 1;
        }
        assert(self.generations@ =~= scanned(start, profile_id));
        Ok(())
    }

    /// Records which generation searches use. It is refused where another
    /// vector was stored since.
    pub fn mark_published(&mut self, profile_id: u128, generation: i64) -> (r: bool)
        ensures
            r == exists|i: int|
                0 <= i < old(self).generations@.len() && (#[trigger] old(
                    self,
                ).generations@[i]).profile_id == profile_id && old(
                    self,
                ).generations@[i].durable_generation == generation,
            final(self).generations@ == marked(old(self).generations@, profile_id, generation),
            *final(self) == (IndexStore { generations: final(self).generations, ..*old(self) }),
    {
        let ghost start = self.generations@;
        let mut found: bool = false;
        let mut i: usize = 0;
        while i < self.generations.len()
            invariant
                i <= self.generations@.len(),
                start.len() == self.generations@.len(),
                *self == (IndexStore { generations: self.generations, ..*old(self) }),
                found == exists|j: int|
                    0 <= j < i && (#[trigger] start[j]).profile_id == profile_id
                        && start[j].durable_generation == generation,
                forall|j: int|
                    0 <= j < i ==> #[trigger] self.generations@[j] == marked(
                        start,
                        profile_id,
                        generation,
                    )[j],
                forall|j: int| i <= j < start.len() ==> #[trigger] self.generations@[j] == start[j],
            decreases self.generations@.len() - i,
        {
            if self.generations[i].profile_id == profile_id
                && self.generations[i].durable_generation == generation {
                assert(start[i as int].profile_id == profile_id);
                self.generations[i].published_generation = generation;
                found = true;
            }
            i += 1;
        }
        assert(self.generations@ =~= marked(start, profile_id, generation));
        found
    }

    /// Why the candidate may not take over; nothing where it may.
    pub open spec fn activation_refusal(self, candidate: u128) -> Option<Seq<char>> {
        if !is_rebuilding(self.state, candidate) {
            Some("candidate is not rebuilding"@)
        } else if !current(self, candidate) {
            Some("candidate Full scan has missing or stale vectors/jobs"@)
        } else if generation_of(self.generations@, candidate) matches Some(g) && !published(g) {
            Some("candidate requires verified Full scan and matching published ANN generation"@)
        } else {
            None
        }
    }

    /// Lets the candidate take over from what is served. All other jobs that
    /// are not done are held.
    pub fn activate(&mut self, candidate: u128) -> (r: Result<()>)
        requires
            epochs_left(old(self).jobs@, 1),
        ensures
            r is Err ==> *final(self) == *old(self),
            if first_where(old(self).profiles@, |p: ProfileRow| p.profile.id == candidate) is None {
                r matches Err(MCSError::MemoryError(m)) && m@ == "unknown profile"@
            } else {
                match old(self).activation_refusal(candidate) {
                    Some(why) => r matches Err(MCSError::InvalidParams(m)) && m@ == why,
                    None => if generation_of(old(self).generations@, candidate) is None {
                        r matches Err(MCSError::MemoryError(m)) && m@ == "unknown ANN profile"@
                    } else {
                        r is Ok && taken_over(*old(self), *final(self), candidate)
                    },
                }
            },
    {
        if self.profile(candidate).is_none() {
            return Err(memory("unknown profile"));
        }
        let held: bool = match &self.state {
            StoreState::Rebuilding { candidate: c, .. } => *c == candidate,
            _ => false,
        };
        if !held {
            return Err(invalid("candidate is not rebuilding"));
        }
        match self.verify_vectors_current(candidate) {
            Ok(_) => {},
            Err(e) => {
                return Err(e);
            },
        }
        let g: AnnGeneration = match self.generation(candidate) {
            Ok(g) => g,
            Err(e) => {
                return Err(e);
            },
        };
        let scan: bool = match g.full_scan_generation {
            Some(n) => n == g.durable_generation,
            None => false,
        };
        if !scan || g.published_generation != g.durable_generation {
            return Err(
                invalid(
                    "candidate requires verified Full scan and matching published ANN generation",
                ),
            );
        }
        let ghost start = self.profiles@;
        let ghost f = |row: ProfileRow| activated(row, candidate);
        let mut i: usize = 0;
        while i < self.profiles.len()
            invariant
                i <= self.profiles@.len(),
                start.len() == self.profiles@.len(),
                f == (|row: ProfileRow| activated(row, candidate)),
                *self == (IndexStore { profiles: self.profiles, ..*old(self) }),
                forall|j: int| 0 <= j < i ==> #[trigger] self.profiles@[j] == f(start[j]),
                forall|j: int| i <= j < start.len() ==> #[trigger] self.profiles@[j] == start[j],
            decreases self.profiles@.len() - i,
        {
            if self.profiles[i].profile.id == candidate {
                self.profiles[i].state = ProfileState::Active;
            } else if self.profiles[i].state == ProfileState::Active {
                self.profiles[i].state = ProfileState::Retired;
            }
            i += 1;
        }
        assert(self.profiles@ =~= start.map_values(f));
        self.state = StoreState::Active(candidate);
        release_jobs(&mut self.jobs, candidate, false);
        Ok(())
    }
}

// ---------------------------------------------------------------------------
// Completing a job
// ---------------------------------------------------------------------------

/// What a stored vector holds.
#[verifier::ext_equal]
pub struct VectorData {
    pub profile_id: u128,
    pub entity_id: i64,
    pub entity_revision: i64,
    pub blob: Seq<u8>,
    pub created_at_us: i64,
    pub source: Seq<char>,
}

impl View for VectorRow {
    type V = VectorData;

    open spec fn view(&self) -> VectorData {
        VectorData {
            profile_id: self.profile_id,
            entity_id: self.entity_id,
            entity_revision: self.entity_revision,
            blob: self.blob@,
            created_at_us: self.created_at_us,
            source: self.source@,
        }
    }
}

/// What the stored vectors hold.
pub open spec fn vectors_data(v: Seq<VectorRow>) -> Seq<VectorData> {
    v.map_values(|r: VectorRow| r@)
}

/// The vector is the one of the entity in the profile.
pub open spec fn data_of(v: VectorData, profile_id: u128, entity_id: i64) -> bool {
    v.profile_id == profile_id && v.entity_id == entity_id
}

/// The vectors once the given one was stored in place of any earlier one.
pub open spec fn stored(all: Seq<VectorData>, row: VectorData) -> Seq<VectorData> {
    if exists|i: int| 0 <= i < all.len() && data_of(#[trigger] all[i], row.profile_id, row.entity_id) {
        all.map_values(
            |v: VectorData|
                if data_of(v, row.profile_id, row.entity_id) {
                    row
                } else {
                    v
                },
        )
    } else {
        all.push(row)
    }
}

/// The vectors without the one of the entity in the profile.
pub open spec fn dropped(all: Seq<VectorData>, profile_id: u128, entity_id: i64) -> Seq<VectorData>
    decreases all.len(),
{
    if all.len() == 0 {
        all
    } else {
        let rest = dropped(all.drop_last(), profile_id, entity_id);
        if data_of(all.last(), profile_id, entity_id) {
            rest
        } else {
            rest.push(all.last())
        }
    }
}

/// The row was claimed under the lease, for the revision.
pub open spec fn was_claimed(j: JobRow, job: IndexJob) -> bool {
    &&& is_job_of(j, job.entity_id, job.profile_id)
    &&& j.entity_revision == job.entity_revision
    &&& j.lease_token == Some(job.lease.token)
    &&& j.lease_epoch == job.lease.epoch
}

/// What becomes of the completion of a job.
pub enum Verdict {
    /// It was completed before.
    Repeated,
    /// The lease, the profile or the entity's revision is not current.
    Stale,
    /// The profile is not stored.
    UnknownProfile,
    /// There is a vector for a deletion, or none for an update.
    Mismatch,
    /// The vector has another length, or a component that is not finite.
    Misshapen,
    /// The vector's length is not one, and the profile asks for that.
    NotUnit,
    Accepted,
}

/// What becomes of the completion of a job.
pub open spec fn verdict_on(
    store: IndexStore,
    job: IndexJob,
    now: int,
    vector: Option<Seq<u32>>,
    unit: bool,
) -> Verdict {
    match first_where(store.jobs@, |j: JobRow| was_claimed(j, job)) {
        None => Verdict::Stale,
        Some(row) => if row.state == JobState::Done {
            Verdict::Repeated
        } else if row.state != JobState::Leased || row.lease_until_us <= now || !store.state.writable(
            job.profile_id,
        ) {
            Verdict::Stale
        } else {
            match revision_of(store.revisions@, job.entity_id) {
                None => Verdict::Stale,
                Some(rev) => if rev.revision != job.entity_revision || rev.deleted != (job.operation
                    == IndexOperation::Delete) {
                    Verdict::Stale
                } else {
                    match first_where(store.profiles@, |p: ProfileRow| p.profile.id == job.profile_id) {
                        None => Verdict::UnknownProfile,
                        Some(p) => match (job.operation, vector) {
                            (IndexOperation::Upsert, Some(v)) => if !p.profile.fits(v) {
                                Verdict::Misshapen
                            } else if p.profile.normalization == Normalization::L2 && !unit {
                                Verdict::NotUnit
                            } else {
                                Verdict::Accepted
                            },
                            (IndexOperation::Delete, None) => Verdict::Accepted,
                            _ => Verdict::Mismatch,
                        },
                    }
                },
            }
        },
    }
}

/// The jobs once the entity's job in the profile is done.
pub open spec fn done_jobs(jobs: Seq<JobRow>, entity_id: i64, profile_id: u128) -> Seq<JobRow> {
    jobs.map_values(
        |j: JobRow|
            if is_job_of(j, entity_id, profile_id) {
                JobRow { state: JobState::Done, ..j }
            } else {
                j
            },
    )
}

/// The generations once another vector of the profile was stored.
pub open spec fn advanced(gens: Seq<AnnGeneration>, profile_id: u128) -> Seq<AnnGeneration> {
    gens.map_values(
        |g: AnnGeneration|
            if g.profile_id == profile_id {
                AnnGeneration {
                    durable_generation: (g.durable_generation + 1) as i64,
                    full_scan_generation: None,
                    ..g
                }
            } else {
                g
            },
    )
}

/// The vectors once the job was completed.
pub open spec fn completed_vectors(
    all: Seq<VectorData>,
    job: IndexJob,
    now: i64,
    vector: Option<Seq<u32>>,
    source: Seq<char>,
) -> Seq<VectorData> {
    match vector {
        Some(v) => stored(
            all,
            VectorData {
                profile_id: job.profile_id,
                entity_id: job.entity_id,
                entity_revision: job.entity_revision,
                blob: vector_bytes(v),
                created_at_us: now,
                source,
            },
        ),
        None => dropped(all, job.profile_id, job.entity_id),
    }
}

fn store_vector(all: &mut Vec<VectorRow>, job: &IndexJob, now: i64, vector: &Vec<u32>, source: &str)
    ensures
        vectors_data(final(all)@) == completed_vectors(
            vectors_data(old(all)@),
            *job,
            now,
            Some(vector@),
            source@,
        ),
{
    let ghost start = vectors_data(all@);
    let ghost row = VectorData {
        profile_id: job.profile_id,
        entity_id: job.entity_id,
        entity_revision: job.entity_revision,
        blob: vector_bytes(vector@),
        created_at_us: now,
        source: source@,
    };
    let mut found: bool = false;
    let mut i: usize = 0;
    while i < all.len()
        invariant
            i <= all@.len(),
            start.len() == all@.len(),
            row == (VectorData {
                profile_id: job.profile_id,
                entity_id: job.entity_id,
                entity_revision: job.entity_revision,
                blob: vector_bytes(vector@),
                created_at_us: now,
                source: source@,
            }),
            found == exists|j: int|
                0 <= j < i && data_of(#[trigger] start[j], job.profile_id, job.entity_id),
            forall|j: int|
                0 <= j < i ==> (#[trigger] all@[j])@ == (if data_of(
                    start[j],
                    job.profile_id,
                    job.entity_id,
                ) {
                    row
                } else {
                    start[j]
                }),
            forall|j: int| i <= j < start.len() ==> (#[trigger] all@[j])@ == start[j],
        decreases all@.len() - i,
    {
        assert(all@[i as int]@ == start[i as int]);
        if all[i].profile_id == job.profile_id && all[i].entity_id == job.entity_id {
            all[i].entity_revision = job.entity_revision;
            all[i].blob = encode_vector(vector);
            all[i].created_at_us = now;
            all[i].source = source.to_owned();
            found = true;
        }
        i += 1;
    }
    if !found {
        assert(vectors_data(all@) =~= start);
        let ghost before = all@;
        all.push(
            VectorRow {
                profile_id: job.profile_id,
                entity_id: job.entity_id,
                entity_revision: job.entity_revision,
                blob: encode_vector(vector),
                created_at_us: now,
                source: source.to_owned(),
            },
        );
        assert(vectors_data(all@) =~= start.push(row));
    } else {
        assert(vectors_data(all@) =~= stored(start, row));
    }
}

proof fn lemma_dropped_push(all: Seq<VectorData>, v: VectorData, p: u128, e: i64)
    ensures
        dropped(all.push(v), p, e) == (if data_of(v, p, e) {
            dropped(all, p, e)
        } else {
            dropped(all, p, e).push(v)
        }),
{
    assert(all.push(v).drop_last() =~= all);
}

fn drop_vector(all: &mut Vec<VectorRow>, profile_id: u128, entity_id: i64)
    ensures
        vectors_data(final(all)@) == dropped(vectors_data(old(all)@), profile_id, entity_id),
{
    let ghost start = vectors_data(all@);
    let ghost mut k: int = 0;
    let mut i: usize = 0;
    assert(start.take(0) =~= Seq::<VectorData>::empty());
    while i < all.len()
        invariant
            i <= all@.len(),
            0 <= k <= start.len(),
            start.len() - k == all@.len() - i,
            vectors_data(all@).take(i as int) == dropped(start.take(k), profile_id, entity_id),
            vectors_data(all@).skip(i as int) == start.skip(k),
        decreases all@.len() - i,
    {
        let ghost before = vectors_data(all@);
        assert(before[i as int] == before.skip(i as int)[0]);
        assert(start.skip(k)[0] == start[k]);
        assert(start.take(k + 1) =~= start.take(k).push(start[k]));
        proof {
            lemma_dropped_push(start.take(k), start[k], profile_id, entity_id);
        }
        if all[i].profile_id == profile_id && all[i].entity_id == entity_id {
            all.remove(i);
            assert(vectors_data(all@) =~= before.remove(i as int));
            assert(vectors_data(all@).take(i as int) =~= before.take(i as int));
            assert(vectors_data(all@).skip(i as int) =~= before.skip(i as int).skip(1));
        } else {
            assert(before.take(i + 1) =~= before.take(i as int).push(before[i as int]));
            assert(before.skip(i + 1) =~= before.skip(i as int).skip(1));
            i += 1;
        }
        assert(start.skip(k + 1) =~= start.skip(k).skip(1));
        proof {
            k = k + 1;
        }
    }
    assert(k == start.len());
    assert(start.take(k) =~= start);
    assert(vectors_data(all@).take(i as int) =~= vectors_data(all@));
}

fn finish_jobs(jobs: &mut Vec<JobRow>, entity_id: i64, profile_id: u128)
    ensures
        final(jobs)@ == done_jobs(old(jobs)@, entity_id, profile_id),
{
    let ghost start = jobs@;
    let mut i: usize = 0;
    while i < jobs.len()
        invariant
            i <= jobs@.len(),
            start.len() == jobs@.len(),
            forall|j: int|
                0 <= j < i ==> #[trigger] jobs@[j] == done_jobs(start, entity_id, profile_id)[j],
            forall|j: int| i <= j < start.len() ==> #[trigger] jobs@[j] == start[j],
        decreases jobs@.len() - i,
    {
        if jobs[i].entity_id == entity_id && jobs[i].profile_id == profile_id {
            jobs[i].state = JobState::Done;
        }
        i += 1;
    }
    assert(jobs@ =~= done_jobs(start, entity_id, profile_id));
}

fn advance(gens: &mut Vec<AnnGeneration>, profile_id: u128)
    requires
        forall|i: int| 0 <= i < old(gens)@.len() ==> (#[trigger] old(gens)@[i]).durable_generation < i64::MAX,
    ensures
        final(gens)@ == advanced(old(gens)@, profile_id),
{
    let ghost start = gens@;
    let mut i: usize = 0;
    while i < gens.len()
        invariant
            i <= gens@.len(),
            start.len() == gens@.len(),
            forall|j: int| 0 <= j < start.len() ==> (#[trigger] start[j]).durable_generation < i64::MAX,
            forall|j: int| 0 <= j < i ==> #[trigger] gens@[j] == advanced(start, profile_id)[j],
            forall|j: int| i <= j < start.len() ==> #[trigger] gens@[j] == start[j],
        decreases gens@.len() - i,
    {
        if gens[i].profile_id == profile_id {
            assert(gens@[i as int] == start[i as int]);
            let n: i64 = gens[i].durable_generation + 1;
            gens[i].durable_generation = n;
            gens[i].full_scan_generation = None;
        }
        i += 1;
    }
    assert(gens@ =~= advanced(start, profile_id));
}

/// What an optional vector holds.
pub open spec fn vector_data(v: Option<&Vec<u32>>) -> Option<Seq<u32>> {
    match v {
        Some(v) => Some(v@),
        None => None,
    }
}

impl IndexStore {
    fn claimed_row(&self, job: &IndexJob) -> (r: Option<usize>)
        ensures
            match r {
                Some(i) => i < self.jobs@.len() && first_where(
                    self.jobs@,
                    |j: JobRow| was_claimed(j, *job),
                ) == Some(self.jobs@[i as int]),
                None => first_where(self.jobs@, |j: JobRow| was_claimed(j, *job)) is None,
            },
    {
        let ghost p = |j: JobRow| was_claimed(j, *job);
        let mut i: usize = 0;
        while i < self.jobs.len()
            invariant
                i <= self.jobs@.len(),
                p == (|j: JobRow| was_claimed(j, *job)),
                forall|j: int| 0 <= j < i ==> !p(#[trigger] self.jobs@[j]),
            decreases self.jobs@.len() - i,
        {
            let token: bool = match self.jobs[i].lease_token {
                Some(t) => t == job.lease.token,
                None => false,
            };
            if token && self.jobs[i].entity_id == job.entity_id && self.jobs[i].profile_id
                == job.profile_id && self.jobs[i].entity_revision == job.entity_revision
                && self.jobs[i].lease_epoch == job.lease.epoch {
                proof {
                    lemma_first(self.jobs@, p, i as int);
                }
                return Some(i);
            }
            i += 1;
        }
        None
    }

    /// Stores what a job made and marks the job as done. The answer tells
    /// whether the job is done; a completion under a lease that is no longer
    /// current changes nothing, and neither does a repeated one. The vector is
    /// given by the bits of its components, and `unit` tells whether its
    /// length is one.
    pub fn commit_vector(
        &mut self,
        job: &IndexJob,
        now: i64,
        vector: Option<&Vec<u32>>,
        unit: bool,
        source: &str,
    ) -> (r: Result<bool>)
        requires
            old(self).within_limits(),
        ensures
            final(self).state == old(self).state,
            final(self).profiles@ == old(self).profiles@,
            final(self).revisions@ == old(self).revisions@,
            final(self).live@ == old(self).live@,
            !(verdict_on(*old(self), *job, now as int, vector_data(vector), unit) is Accepted)
                ==> *final(self) == *old(self),
            match verdict_on(*old(self), *job, now as int, vector_data(vector), unit) {
                Verdict::Repeated => r matches Ok(true),
                Verdict::Stale => r matches Ok(false),
                Verdict::UnknownProfile => r matches Err(MCSError::MemoryError(m)) && m@
                    == "unknown profile"@,
                Verdict::Mismatch => r matches Err(MCSError::InvalidParams(m)) && m@
                    == "vector payload does not match job operation"@,
                Verdict::Misshapen => r matches Err(MCSError::InvalidParams(m)) && m@
                    == "vector dimensions or finite-value validation failed"@,
                Verdict::NotUnit => r matches Err(MCSError::InvalidParams(m)) && m@
                    == "vector is not L2 normalized"@,
                Verdict::Accepted => {
                    &&& r matches Ok(true)
                    &&& vectors_data(final(self).vectors@) == completed_vectors(
                        vectors_data(old(self).vectors@),
                        *job,
                        now,
                        vector_data(vector),
                        source@,
                    )
                    &&& final(self).jobs@ == done_jobs(old(self).jobs@, job.entity_id, job.profile_id)
                    &&& final(self).generations@ == advanced(old(self).generations@, job.profile_id)
                },
            },
    {
        let row: usize = match self.claimed_row(job) {
            Some(i) => i,
            None => {
                return Ok(false);
            },
        };
        if self.jobs[row].state == JobState::Done {
            return Ok(true);
        }
        if self.jobs[row].state != JobState::Leased || self.jobs[row].lease_until_us <= now
            || !self.state.is_writable(job.profile_id) {
            return Ok(false);
        }
        match find_revision(&self.revisions, job.entity_id) {
            None => {
                return Ok(false);
            },
            Some(rev) => {
                if rev.revision != job.entity_revision || rev.deleted != (job.operation
                    == IndexOperation::Delete) {
                    return Ok(false);
                }
            },
        }
        match self.profile(job.profile_id) {
            None => {
                return Err(memory("unknown profile"));
            },
            Some(profile) => match (job.operation, vector) {
                (IndexOperation::Upsert, Some(v)) => match profile.validate_vector(v, unit) {
                    Ok(_) => {},
                    Err(e) => {
                        return Err(e);
                    },
                },
                (IndexOperation::Delete, None) => {},
                _ => {
                    return Err(invalid("vector payload does not match job operation"));
                },
            },
        }
        match vector {
            Some(v) => {
                store_vector(&mut self.vectors, job, now, v, source);
            },
            None => {
                drop_vector(&mut self.vectors, job.profile_id, job.entity_id);
            },
        }
        finish_jobs(&mut self.jobs, job.entity_id, job.profile_id);
        advance(&mut self.generations, job.profile_id);
        Ok(true)
    }
}

// ---------------------------------------------------------------------------
// Laws
// ---------------------------------------------------------------------------

/// Whoever holds a lease that another claim has replaced changes nothing by
/// completing the job: no row of the entity in the profile has the lease's
/// epoch any more, so the completion is stale.
pub proof fn law_a_replaced_lease_cannot_complete(
    store: IndexStore,
    job: IndexJob,
    now: int,
    vector: Option<Seq<u32>>,
    unit: bool,
)
    requires
        forall|i: int|
            0 <= i < store.jobs@.len() && is_job_of(
                #[trigger] store.jobs@[i],
                job.entity_id,
                job.profile_id,
            ) ==> store.jobs@[i].lease_epoch > job.lease.epoch,
    ensures
        verdict_on(store, job, now, vector, unit) is Stale,
{
    let p = |j: JobRow| was_claimed(j, job);
    if exists|i: int| is_first(store.jobs@, p, i) {
        let i = choose|i: int| is_first(store.jobs@, p, i);
        assert(p(store.jobs@[i]));
    }
}

/// A job that was completed is found completed: completing it again, under
/// the lease that completed it, is answered alike and changes nothing.
pub proof fn law_completion_is_idempotent(
    before: IndexStore,
    after: IndexStore,
    job: IndexJob,
    now: int,
    later: int,
    vector: Option<Seq<u32>>,
    again: Option<Seq<u32>>,
    unit: bool,
)
    requires
        verdict_on(before, job, now, vector, unit) is Accepted,
        after.jobs@ == done_jobs(before.jobs@, job.entity_id, job.profile_id),
    ensures
        verdict_on(after, job, later, again, unit) is Repeated,
{
    let p = |j: JobRow| was_claimed(j, job);
    let i = choose|i: int| is_first(before.jobs@, p, i);
    assert(is_first(before.jobs@, p, i));
    assert(is_first(after.jobs@, p, i));
    lemma_first(after.jobs@, p, i);
}

/// A vector that is stored voids the scan, so that the profile cannot take
/// over before it is scanned again.
pub proof fn law_a_commit_voids_the_scan(gens: Seq<AnnGeneration>, profile_id: u128)
    ensures
        generation_of(advanced(gens, profile_id), profile_id) matches Some(g) ==> !published(g),
{
    let p = |g: AnnGeneration| g.profile_id == profile_id;
    let after = advanced(gens, profile_id);
    if exists|i: int| is_first(after, p, i) {
        let i = choose|i: int| is_first(after, p, i);
        assert(is_first(after, p, i));
        lemma_first(after, p, i);
        assert(after[i].full_scan_generation is None);
    }
}

/// A change of an entity voids the scan of every profile it concerns.
pub proof fn law_a_change_voids_the_scan(
    gens: Seq<AnnGeneration>,
    profiles: Seq<u128>,
    profile_id: u128,
)
    requires
        profiles.contains(profile_id),
    ensures
        generation_of(changed_generations(gens, profiles), profile_id) matches Some(g) ==> !published(g),
    decreases profiles.len(),
{
    let p = |g: AnnGeneration| g.profile_id == profile_id;
    let after = changed_generations(gens, profiles);
    lemma_changed_generations(gens, profiles, profile_id);
    if exists|i: int| is_first(after, p, i) {
        let i = choose|i: int| is_first(after, p, i);
        assert(is_first(after, p, i));
        lemma_first(after, p, i);
    }
}

proof fn lemma_changed_generations(
    gens: Seq<AnnGeneration>,
    profiles: Seq<u128>,
    profile_id: u128,
)
    ensures
        changed_generations(gens, profiles).len() == gens.len(),
        profiles.contains(profile_id) ==> forall|i: int|
            0 <= i < gens.len() && (#[trigger] changed_generations(gens, profiles)[i]).profile_id
                == profile_id ==> changed_generations(gens, profiles)[i].full_scan_generation is None,
    decreases profiles.len(),
{
    if profiles.len() > 0 {
        lemma_changed_generations(gens, profiles.drop_last(), profile_id);
        if profiles.contains(profile_id) && profiles.last() != profile_id {
            let k = profiles.index_of(profile_id);
            assert(profiles.drop_last()[k] == profile_id);
            let before = changed_generations(gens, profiles.drop_last());
            assert forall|i: int|
                0 <= i < gens.len() && (#[trigger] changed_generations(gens, profiles)[i]).profile_id
                    == profile_id implies changed_generations(gens, profiles)[i].full_scan_generation is None by {
                assert(before[i].profile_id == profile_id);
            }
        }
    }
}

/// A profile takes over only once it has a vector of the current revision of
/// every live entity, and none of any other, and searches use all of them.
pub proof fn law_only_a_complete_index_takes_over(store: IndexStore, candidate: u128)
    requires
        store.activation_refusal(candidate) is None,
        generation_of(store.generations@, candidate) is Some,
    ensures
        is_rebuilding(store.state, candidate),
        forall|i: int| 0 <= i < store.live@.len() ==> up_to_date(store, candidate, #[trigger] store.live@[i]),
        forall|i: int|
            0 <= i < store.vectors@.len() && (#[trigger] store.vectors@[i]).profile_id == candidate
                ==> store.live@.contains(store.vectors@[i].entity_id),
        published(generation_of(store.generations@, candidate)->0),
{
}

/// Beginning a rebuild, and giving it up, leave what is served as it was: an
/// active profile stays the served one throughout, it takes vectors and every
/// change reaches it. While the rebuild runs, the candidate does so too; once it
/// is given up, nothing is written for the candidate any more.
pub proof fn law_what_is_served_stays_served(
    before: IndexStore,
    during: IndexStore,
    profile: IndexProfile,
    after: IndexStore,
    reason: Seq<char>,
    p: u128,
)
    requires
        before.state == StoreState::Active(p),
        before.rebuild_refusal(profile) is None,
        rebuild_begun(before, during, profile),
        rebuild_given_up(during, after, profile.id, reason),
    ensures
        before.state.serves() == Some(p),
        during.state.serves() == Some(p),
        after.state.serves() == Some(p),
        before.state.writable(p) && during.state.writable(p) && after.state.writable(p),
        targets(before.state).contains(p) && targets(during.state).contains(p) && targets(after.state).contains(p),
        during.state.writable(profile.id) && targets(during.state).contains(profile.id),
        !before.state.writable(profile.id) && !after.state.writable(profile.id),
        candidate_of(during.state) == Some(profile.id) && candidate_of(after.state) == Some(profile.id),
{
    lemma_targets(before.state, p);
    lemma_targets(during.state, p);
    lemma_targets(after.state, p);
    lemma_targets(during.state, profile.id);
}

/// A second rebuild after one that was given up serves what the first served.
pub proof fn law_a_new_rebuild_serves_what_the_last_did(
    before: IndexStore,
    profile: IndexProfile,
    during: IndexStore,
)
    requires
        rebuild_begun(before, during, profile),
    ensures
        during.state.serves() == before.state.serves(),
        before.state matches StoreState::Failed { serving, .. } ==> during.state.serves() == serving,
        before.state matches StoreState::Rebuilding { serving, .. } ==> during.state.serves() == serving,
        before.state is LegacyCompat ==> during.state.serves() is None,
{
}

proof fn lemma_targets(state: StoreState, p: u128)
    ensures
        targets(state).contains(p) <==> state.writable(p) || (p == 0 && forall|q: u128|
            !#[trigger] state.writable(q)),
{
    let t = targets(state);
    match (state.serves(), candidate_of(state)) {
        (Some(s), _) => {
            assert(state.writable(s));
        },
        (None, Some(c)) => {
            if state is Rebuilding {
                assert(state.writable(c));
            }
        },
        _ => {},
    }
    if t.contains(p) {
        let k = t.index_of(p);
        assert(t[k] == p);
    }
    if state.writable(p) {
        assert(t[0] == p || t[1] == p);
        if t[0] != p {
            assert(t.len() == 2);
        }
    }
    if p == 0 && forall|q: u128| !#[trigger] state.writable(q) {
        assert(t[0] == p);
    }
}

/// A change concerns exactly the profiles that take vectors, each once; where
/// there is none, the nil profile keeps it.
pub proof fn law_a_change_concerns_what_takes_vectors(state: StoreState, p: u128)
    ensures
        targets(state).contains(p) <==> state.writable(p) || (p == 0 && forall|q: u128|
            !#[trigger] state.writable(q)),
        forall|i: int, j: int|
            0 <= i < j < targets(state).len() ==> #[trigger] targets(state)[i] < #[trigger] targets(state)[j],
        state.writable(p) <==> state == StoreState::Active(p) || (state matches StoreState::Rebuilding {
            serving,
            candidate,
        } && (serving == Some(p) || candidate == p)) || (state matches StoreState::Failed { serving, .. }
            && serving == Some(p)),
{
    lemma_targets(state, p);
}

/// Setting a job up leaves every other job alone, and the entity has exactly one
/// such job more or as many as before.
proof fn lemma_set_up(jobs: Seq<JobRow>, row: JobRow)
    ensures
        set_up(jobs, row).len() >= jobs.len(),
        forall|i: int|
            0 <= i < jobs.len() && !is_job_of(#[trigger] jobs[i], row.entity_id, row.profile_id)
                ==> set_up(jobs, row)[i] == jobs[i],
        forall|i: int|
            0 <= i < jobs.len() && is_job_of(#[trigger] jobs[i], row.entity_id, row.profile_id)
                ==> set_up(jobs, row)[i] == (JobRow {
                lease_epoch: (jobs[i].lease_epoch + 1) as i64,
                ..row
            }),
        forall|i: int|
            jobs.len() <= i < set_up(jobs, row).len() ==> #[trigger] set_up(jobs, row)[i] == row,
        exists|i: int|
            0 <= i < set_up(jobs, row).len() && is_job_of(
                #[trigger] set_up(jobs, row)[i],
                row.entity_id,
                row.profile_id,
            ),
{
    let w = set_up(jobs, row);
    if exists|i: int|
        0 <= i < jobs.len() && is_job_of(#[trigger] jobs[i], row.entity_id, row.profile_id) {
        let i = choose|i: int|
            0 <= i < jobs.len() && is_job_of(#[trigger] jobs[i], row.entity_id, row.profile_id);
        assert(is_job_of(w[i], row.entity_id, row.profile_id));
    } else {
        assert(w[jobs.len() as int] == row);
        assert(is_job_of(w[jobs.len() as int], row.entity_id, row.profile_id));
    }
}

/// Every profile that a change concerns has the change as its job for the
/// entity: due at once, or held by the nil profile, and under no lease that was
/// handed out before. Jobs of other entities, and of other profiles, are as they
/// were.
pub proof fn law_a_change_reaches_every_profile(
    jobs: Seq<JobRow>,
    profiles: Seq<u128>,
    entity_id: i64,
    revision: i64,
    deleted: bool,
    p: u128,
    i: int,
)
    requires
        profiles.no_duplicates(),
        epochs_left(jobs, 1),
    ensures
        ({
            let after = changed_jobs(jobs, profiles, entity_id, revision, deleted);
            &&& after.len() >= jobs.len()
            &&& profiles.contains(p) ==> exists|k: int|
                0 <= k < after.len() && is_job_of(#[trigger] after[k], entity_id, p)
            &&& 0 <= i < jobs.len() && !(jobs[i].entity_id == entity_id && profiles.contains(jobs[i].profile_id))
                ==> after[i] == jobs[i]
            &&& 0 <= i < after.len() && is_job_of(after[i], entity_id, p) && profiles.contains(p) ==> {
                &&& after[i].entity_revision == revision
                &&& after[i].operation == (if deleted {
                    IndexOperation::Delete
                } else {
                    IndexOperation::Upsert
                })
                &&& after[i].state == (if p == 0 {
                    JobState::Held
                } else {
                    JobState::Pending
                })
                &&& after[i].lease_token is None
                &&& after[i].attempts == 0 && after[i].next_attempt_us == 0
                &&& i < jobs.len() ==> after[i].lease_epoch == jobs[i].lease_epoch + 1
            }
            &&& jobs.len() <= i < after.len() ==> after[i].entity_id == entity_id && profiles.contains(
                after[i].profile_id,
            )
            &&& 0 <= i < jobs.len() ==> after[i].entity_id == jobs[i].entity_id && after[i].profile_id
                == jobs[i].profile_id
        }),
    decreases profiles.len(),
{
    if profiles.len() > 0 {
        let front = profiles.drop_last();
        let last = profiles.last();
        let before = changed_jobs(jobs, front, entity_id, revision, deleted);
        let row = change_job(entity_id, last, revision, deleted);
        let after = set_up(before, row);
        law_a_change_reaches_every_profile(jobs, front, entity_id, revision, deleted, p, i);
        lemma_set_up(before, row);
        assert(profiles[profiles.len() - 1] == last);
        assert(!front.contains(last)) by {
            if front.contains(last) {
                let k = front.index_of(last);
                assert(profiles[k] == profiles[profiles.len() - 1]);
            }
        }
        assert(profiles.contains(p) <==> front.contains(p) || p == last) by {
            if profiles.contains(p) && p != last {
                assert(front[profiles.index_of(p)] == p);
            }
            if front.contains(p) {
                assert(profiles[front.index_of(p)] == p);
            }
        }
        if front.contains(p) {
            let k = choose|k: int| 0 <= k < before.len() && is_job_of(#[trigger] before[k], entity_id, p);
            assert(after[k] == before[k]);
            assert(is_job_of(after[k], entity_id, p));
        }
        if 0 <= i < before.len() {
            let q = before[i].profile_id;
            assert(profiles.contains(q) <==> front.contains(q) || q == last) by {
                if profiles.contains(q) && q != last {
                    assert(front[profiles.index_of(q)] == q);
                }
                if front.contains(q) {
                    assert(profiles[front.index_of(q)] == q);
                }
            }
            if i < jobs.len() && is_job_of(before[i], entity_id, last) {
                law_a_change_reaches_every_profile(jobs, front, entity_id, revision, deleted, last, i);
                assert(after[i].lease_epoch == (before[i].lease_epoch + 1) as i64);
                assert(before[i] == jobs[i]);
                assert(jobs[i].lease_epoch + 1 <= i64::MAX);
            }
        }
    }
}

/// Every listed entity has a revision afterwards, and whoever had one keeps it.
proof fn lemma_revised(revisions: Seq<EntityRevision>, live: Seq<i64>)
    ensures
        revised(revisions, live).len() >= revisions.len(),
        forall|i: int| 0 <= i < revisions.len() ==> #[trigger] revised(revisions, live)[i] == revisions[i],
        forall|i: int|
            revisions.len() <= i < revised(revisions, live).len() ==> {
                let r = #[trigger] revised(revisions, live)[i];
                live.contains(r.entity_id) && !is_revised(revisions, r.entity_id) && r.revision == 1 && !r.deleted
            },
        forall|k: int| 0 <= k < live.len() ==> is_revised(revised(revisions, live), #[trigger] live[k]),
    decreases live.len(),
{
    if live.len() > 0 {
        let front = live.drop_last();
        let before = revised(revisions, front);
        let after = revised(revisions, live);
        lemma_revised(revisions, front);
        assert(live[live.len() - 1] == live.last());
        assert forall|i: int| revisions.len() <= i < after.len() implies ({
            let r = #[trigger] after[i];
            live.contains(r.entity_id) && !is_revised(revisions, r.entity_id) && r.revision == 1 && !r.deleted
        }) by {
            if i < before.len() {
                assert(after[i] == before[i]);
                let k = front.index_of(before[i].entity_id);
                assert(live[k] == before[i].entity_id);
            } else if is_revised(revisions, live.last()) {
                let k = choose|k: int|
                    0 <= k < revisions.len() && (#[trigger] revisions[k]).entity_id == live.last();
                assert(before[k].entity_id == live.last());
            }
        }
        assert forall|k: int| 0 <= k < live.len() implies is_revised(after, #[trigger] live[k]) by {
            if k < front.len() {
                assert(front[k] == live[k]);
                let x = choose|x: int| 0 <= x < before.len() && (#[trigger] before[x]).entity_id == live[k];
                assert(after[x] == before[x]);
            } else if !is_revised(before, live.last()) {
                assert(after[before.len() as int].entity_id == live.last());
            }
        }
    }
}

/// A rebuild builds everything: every live entity gets a job for the candidate,
/// due at once, to store a vector of the revision on record. No job, revision,
/// vector or generation that was there before is lost, and no other profile's
/// job is touched.
pub proof fn law_a_rebuild_covers_every_live_entity(
    before: IndexStore,
    after: IndexStore,
    profile: IndexProfile,
    k: int,
    i: int,
)
    requires
        rebuild_begun(before, after, profile),
        0 <= k < before.live@.len(),
    ensures
        exists|j: int|
            {
                let row = #[trigger] after.jobs@[before.jobs@.len() + j];
                &&& 0 <= j < before.live@.len()
                &&& after.jobs@.len() == before.jobs@.len() + before.live@.len()
                &&& row.entity_id == before.live@[k] && row.profile_id == profile.id
                &&& row.operation == IndexOperation::Upsert && row.state == JobState::Pending
                &&& row.lease_token is None && row.next_attempt_us == 0 && row.attempts == 0
                &&& exists|x: int|
                    0 <= x < after.revisions@.len() && (#[trigger] after.revisions@[x]).entity_id == row.entity_id
                        && after.revisions@[x].revision == row.entity_revision
            },
        0 <= i < before.jobs@.len() ==> after.jobs@[i] == before.jobs@[i],
        0 <= i < before.revisions@.len() ==> after.revisions@[i] == before.revisions@[i],
        0 <= i < before.generations@.len() ==> after.generations@[i] == before.generations@[i],
        0 <= i < before.profiles@.len() ==> after.profiles@[i].profile == before.profiles@[i].profile,
{
    lemma_revised(before.revisions@, before.live@);
    let e = before.live@[k];
    let p = |r: EntityRevision| r.entity_id == e;
    let all = after.revisions@;
    let x = choose|x: int| 0 <= x < all.len() && (#[trigger] all[x]).entity_id == e;
    let y = lemma_find_first(all, p, x);
    lemma_first(all, p, y);
    let row = after.jobs@[before.jobs@.len() + k];
    assert(row == building_jobs(all, before.live@, profile.id)[k]);
    assert(all[y].entity_id == row.entity_id && all[y].revision == row.entity_revision);
}

/// Where some item meets the condition, one is the first.
proof fn lemma_find_first<T>(s: Seq<T>, p: spec_fn(T) -> bool, x: int) -> (y: int)
    requires
        0 <= x < s.len(),
        p(s[x]),
    ensures
        is_first(s, p, y),
        y <= x,
    decreases x,
{
    if exists|j: int| 0 <= j < x && p(#[trigger] s[j]) {
        let j = choose|j: int| 0 <= j < x && p(#[trigger] s[j]);
        lemma_find_first(s, p, j)
    } else {
        x
    }
}

/// Where a vector is stored, the entity has it in the profile and no other, and
/// the vectors of other entities and profiles are as they were.
proof fn lemma_stored(all: Seq<VectorData>, row: VectorData, v: VectorData)
    ensures
        stored(all, row).contains(v) && data_of(v, row.profile_id, row.entity_id) <==> v == row,
        !data_of(v, row.profile_id, row.entity_id) ==> (stored(all, row).contains(v) <==> all.contains(v)),
{
    let w = stored(all, row);
    if exists|i: int| 0 <= i < all.len() && data_of(#[trigger] all[i], row.profile_id, row.entity_id) {
        let i = choose|i: int| 0 <= i < all.len() && data_of(#[trigger] all[i], row.profile_id, row.entity_id);
        assert(w[i] == row);
        if all.contains(v) && !data_of(v, row.profile_id, row.entity_id) {
            assert(w[all.index_of(v)] == v);
        }
        if w.contains(v) && !data_of(v, row.profile_id, row.entity_id) {
            assert(all[w.index_of(v)] == v);
        }
    } else {
        assert(w[all.len() as int] == row);
        if all.contains(v) {
            assert(w[all.index_of(v)] == v);
        }
        if w.contains(v) {
            let k = w.index_of(v);
            if k < all.len() {
                assert(all[k] == v);
            }
        }
    }
}

proof fn lemma_dropped(all: Seq<VectorData>, profile_id: u128, entity_id: i64, v: VectorData)
    ensures
        dropped(all, profile_id, entity_id).contains(v) <==> all.contains(v) && !data_of(v, profile_id, entity_id),
    decreases all.len(),
{
    if all.len() > 0 {
        let front = all.drop_last();
        let rest = dropped(front, profile_id, entity_id);
        lemma_dropped(front, profile_id, entity_id, v);
        let w = dropped(all, profile_id, entity_id);
        assert(all[all.len() - 1] == all.last());
        assert(all.contains(v) <==> front.contains(v) || v == all.last()) by {
            if all.contains(v) && v != all.last() {
                assert(front[all.index_of(v)] == v);
            }
            if front.contains(v) {
                assert(all[front.index_of(v)] == v);
            }
        }
        if !data_of(all.last(), profile_id, entity_id) {
            assert(w[rest.len() as int] == all.last());
            assert(w.contains(v) <==> rest.contains(v) || v == all.last()) by {
                if w.contains(v) && v != all.last() {
                    assert(rest[w.index_of(v)] == v);
                }
                if rest.contains(v) {
                    assert(w[rest.index_of(v)] == v);
                }
            }
        }
    } else {
        assert(!dropped(all, profile_id, entity_id).contains(v));
    }
}

/// What is stored for the entity in the profile once a job was completed is the
/// vector that was handed over, of the job's revision, or nothing after a
/// deletion. Every other stored vector stays.
pub proof fn law_a_completed_job_stores_its_vector(
    all: Seq<VectorData>,
    job: IndexJob,
    now: i64,
    vector: Option<Seq<u32>>,
    source: Seq<char>,
    v: VectorData,
)
    ensures
        ({
            let after = completed_vectors(all, job, now, vector, source);
            let its = v.profile_id == job.profile_id && v.entity_id == job.entity_id;
            &&& !its ==> (after.contains(v) <==> all.contains(v))
            &&& its && vector is None ==> !after.contains(v)
            &&& its && vector is Some ==> (after.contains(v) <==> v.entity_revision == job.entity_revision && v.blob
                == vector_bytes(vector->0) && v.created_at_us == now && v.source == source)
        }),
{
    match vector {
        Some(x) => {
            let row = VectorData {
                profile_id: job.profile_id,
                entity_id: job.entity_id,
                entity_revision: job.entity_revision,
                blob: vector_bytes(x),
                created_at_us: now,
                source,
            };
            lemma_stored(all, row, v);
        },
        None => {
            lemma_dropped(all, job.profile_id, job.entity_id, v);
        },
    }
}

/// Completing a job ends that job, for the entity in the profile, and no other.
pub proof fn law_completing_ends_one_job(jobs: Seq<JobRow>, job: IndexJob, i: int, now: int, state: StoreState)
    requires
        0 <= i < jobs.len(),
    ensures
        ({
            let after = done_jobs(jobs, job.entity_id, job.profile_id);
            let its = jobs[i].entity_id == job.entity_id && jobs[i].profile_id == job.profile_id;
            &&& after.len() == jobs.len()
            &&& its ==> after[i].state == JobState::Done && !crate::index::due(after[i], now, state)
            &&& !its ==> after[i] == jobs[i]
        }),
{
}

/// A job that is claimed, not expired, for the entity's present revision and a
/// profile that takes vectors, is completed by a vector that fits the profile.
pub proof fn law_a_held_job_can_be_completed(
    store: IndexStore,
    job: IndexJob,
    now: int,
    vector: Option<Seq<u32>>,
    unit: bool,
    i: int,
    x: int,
    y: int,
)
    requires
        0 <= i < store.jobs@.len(),
        crate::index::holds(store.jobs@[i], job, now),
        store.jobs@[i].entity_revision == job.entity_revision,
        forall|j: int|
            0 <= j < store.jobs@.len() && j != i ==> !((#[trigger] store.jobs@[j]).entity_id == job.entity_id
                && store.jobs@[j].profile_id == job.profile_id),
        store.state.writable(job.profile_id),
        0 <= x < store.revisions@.len(),
        forall|j: int|
            0 <= j < store.revisions@.len() ==> ((#[trigger] store.revisions@[j]).entity_id == job.entity_id <==> j == x),
        store.revisions@[x].revision == job.entity_revision,
        store.revisions@[x].deleted <==> job.operation == IndexOperation::Delete,
        0 <= y < store.profiles@.len(),
        forall|j: int|
            0 <= j < store.profiles@.len() ==> ((#[trigger] store.profiles@[j]).profile.id == job.profile_id <==> j == y),
        job.operation == IndexOperation::Delete <==> vector is None,
        vector matches Some(v) ==> store.profiles@[y].profile.fits(v) && (store.profiles@[y].profile.normalization
            == Normalization::L2 ==> unit),
    ensures
        verdict_on(store, job, now, vector, unit) is Accepted,
{
    let p = |j: JobRow| was_claimed(j, job);
    assert(is_first(store.jobs@, p, i));
    lemma_first(store.jobs@, p, i);
    let q = |r: EntityRevision| r.entity_id == job.entity_id;
    assert(is_first(store.revisions@, q, x));
    lemma_first(store.revisions@, q, x);
    let t = |r: ProfileRow| r.profile.id == job.profile_id;
    assert(is_first(store.profiles@, t, y));
    lemma_first(store.profiles@, t, y);
}

/// A completion is accepted only under a lease that is held, for the entity's
/// present revision, with a vector that fits the profile.
pub proof fn law_only_a_held_job_is_completed(
    store: IndexStore,
    job: IndexJob,
    now: int,
    vector: Option<Seq<u32>>,
    unit: bool,
)
    requires
        verdict_on(store, job, now, vector, unit) is Accepted,
    ensures
        exists|i: int|
            0 <= i < store.jobs@.len() && crate::index::holds(#[trigger] store.jobs@[i], job, now)
                && store.jobs@[i].entity_revision == job.entity_revision,
        store.state.writable(job.profile_id),
        exists|x: int|
            0 <= x < store.revisions@.len() && (#[trigger] store.revisions@[x]).entity_id == job.entity_id
                && store.revisions@[x].revision == job.entity_revision && (store.revisions@[x].deleted <==> job.operation
                == IndexOperation::Delete),
        exists|y: int|
            0 <= y < store.profiles@.len() && (#[trigger] store.profiles@[y]).profile.id == job.profile_id && (
            vector matches Some(v) ==> v.len() == store.profiles@[y].profile.dimensions && (
            store.profiles@[y].profile.normalization == Normalization::L2 ==> unit)),
        vector is None <==> job.operation == IndexOperation::Delete,
{
    let p = |j: JobRow| was_claimed(j, job);
    let i = choose|i: int| is_first(store.jobs@, p, i);
    assert(is_first(store.jobs@, p, i));
    lemma_first(store.jobs@, p, i);
    assert(crate::index::holds(store.jobs@[i], job, now));
    let q = |r: EntityRevision| r.entity_id == job.entity_id;
    let x = choose|x: int| is_first(store.revisions@, q, x);
    assert(is_first(store.revisions@, q, x));
    lemma_first(store.revisions@, q, x);
    assert(store.revisions@[x].entity_id == job.entity_id);
    let t = |r: ProfileRow| r.profile.id == job.profile_id;
    let y = choose|y: int| is_first(store.profiles@, t, y);
    assert(is_first(store.profiles@, t, y));
    lemma_first(store.profiles@, t, y);
    assert(store.profiles@[y].profile.id == job.profile_id);
}

/// A complete index takes over: nothing stands in the way of a candidate that is
/// being built, has a vector of the present revision of every live entity and of
/// no other, has no job left, and whose vectors were scanned and are all used.
pub proof fn law_a_complete_index_takes_over(store: IndexStore, candidate: u128, g: int)
    requires
        store.state matches StoreState::Rebuilding { candidate: c, .. } && c == candidate,
        forall|i: int| 0 <= i < store.live@.len() ==> up_to_date(store, candidate, #[trigger] store.live@[i]),
        forall|i: int|
            0 <= i < store.vectors@.len() && (#[trigger] store.vectors@[i]).profile_id == candidate
                ==> store.live@.contains(store.vectors@[i].entity_id),
        forall|i: int|
            0 <= i < store.jobs@.len() && (#[trigger] store.jobs@[i]).profile_id == candidate
                ==> store.jobs@[i].state == JobState::Done,
        0 <= g < store.generations@.len(),
        forall|j: int|
            0 <= j < store.generations@.len() ==> ((#[trigger] store.generations@[j]).profile_id == candidate <==> j == g),
        store.generations@[g].full_scan_generation == Some(store.generations@[g].durable_generation),
        store.generations@[g].published_generation == store.generations@[g].durable_generation,
    ensures
        store.activation_refusal(candidate) is None,
        generation_of(store.generations@, candidate) == Some(store.generations@[g]),
{
    let p = |x: AnnGeneration| x.profile_id == candidate;
    assert(is_first(store.generations@, p, g));
    lemma_first(store.generations@, p, g);
}

/// Once a candidate has taken over, it alone is served and takes vectors, its
/// row says so, no other row is active, and no job of another profile can be
/// claimed. Its own jobs are as they were.
pub proof fn law_one_profile_serves_after_a_switch(
    before: IndexStore,
    after: IndexStore,
    candidate: u128,
    other: u128,
    i: int,
    now: int,
)
    requires
        taken_over(before, after, candidate),
    ensures
        after.state.serves() == Some(candidate),
        after.state.writable(other) <==> other == candidate,
        after.profiles@.len() == before.profiles@.len() && after.jobs@.len() == before.jobs@.len(),
        0 <= i < after.profiles@.len() ==> after.profiles@[i].profile == before.profiles@[i].profile && (
        after.profiles@[i].state == ProfileState::Active <==> before.profiles@[i].profile.id == candidate),
        0 <= i < after.jobs@.len() && crate::index::due(after.jobs@[i], now, after.state)
            ==> after.jobs@[i].profile_id == candidate && after.jobs@[i] == before.jobs@[i],
        0 <= i < after.jobs@.len() && before.jobs@[i].profile_id == candidate ==> after.jobs@[i] == before.jobs@[i],
        0 <= i < after.jobs@.len() && before.jobs@[i].profile_id != candidate ==> after.jobs@[i].state
            == JobState::Done || (after.jobs@[i].state == JobState::Held && after.jobs@[i].lease_token is None),
{
}

/// Once a rebuild was given up, none of its jobs can be claimed or completed
/// under an old lease, and the jobs of other profiles are as they were.
pub proof fn law_a_rebuild_given_up_stops(
    before: IndexStore,
    after: IndexStore,
    candidate: u128,
    reason: Seq<char>,
    i: int,
    job: IndexJob,
    now: int,
)
    requires
        rebuild_given_up(before, after, candidate, reason),
        0 <= i < before.jobs@.len(),
    ensures
        before.jobs@[i].profile_id != candidate ==> after.jobs@[i] == before.jobs@[i],
        before.jobs@[i].profile_id == candidate ==> !crate::index::due(after.jobs@[i], now, after.state)
            && !crate::index::holds(after.jobs@[i], job, now),
        after.vectors@ == before.vectors@ && after.profiles@ == before.profiles@ && after.revisions@
            == before.revisions@,
        after.state matches StoreState::Failed { reason: why, .. } && why@.is_prefix_of(reason) && (reason.len()
            <= 2048 ==> why@ == reason),
{
    if reason.len() > crate::index::MAX_REASON_CHARS {
        assert(clipped(reason) =~= reason.subrange(0, clipped(reason).len() as int));
    } else {
        assert(reason =~= reason.subrange(0, reason.len() as int));
    }
}

/// A scan that succeeds, and searches that use what it saw, make a profile ready;
/// other profiles are left alone.
pub proof fn law_scanning_and_publishing_make_a_profile_ready(gens: Seq<AnnGeneration>, profile_id: u128, i: int)
    requires
        0 <= i < gens.len(),
    ensures
        ({
            let after = marked(scanned(gens, profile_id), profile_id, gens[i].durable_generation);
            &&& after.len() == gens.len()
            &&& gens[i].profile_id == profile_id ==> published(after[i]) && after[i].durable_generation
                == gens[i].durable_generation
            &&& gens[i].profile_id != profile_id ==> after[i] == gens[i]
        }),
{
}

/// What is looked for is found wherever it stands, and it is the first of its
/// kind; where nothing is of that kind, nothing is found.
pub proof fn law_the_first_of_its_kind_is_found<T>(s: Seq<T>, p: spec_fn(T) -> bool, k: int)
    ensures
        0 <= k < s.len() && p(s[k]) ==> exists|i: int|
            0 <= i <= k && p(#[trigger] s[i]) && first_where(s, p) == Some(s[i]) && forall|j: int|
                0 <= j < i ==> !p(#[trigger] s[j]),
        first_where(s, p) is None <==> forall|j: int| 0 <= j < s.len() ==> !p(#[trigger] s[j]),
{
    if 0 <= k < s.len() && p(s[k]) {
        let i = lemma_first_up_to(s, p, k);
        lemma_first(s, p, i);
        assert(p(s[i]));
    }
    if exists|j: int| 0 <= j < s.len() && p(#[trigger] s[j]) {
        let j = choose|j: int| 0 <= j < s.len() && p(#[trigger] s[j]);
        let i = lemma_first_up_to(s, p, j);
        lemma_first(s, p, i);
    } else {
        assert forall|i: int| !is_first(s, p, i) by {
            if is_first(s, p, i) {
                assert(p(s[i]));
            }
        }
    }
}

proof fn lemma_first_up_to<T>(s: Seq<T>, p: spec_fn(T) -> bool, k: int) -> (i: int)
    requires
        0 <= k < s.len(),
        p(s[k]),
    ensures
        0 <= i <= k,
        is_first(s, p, i),
    decreases k,
{
    if exists|j: int| 0 <= j < k && p(#[trigger] s[j]) {
        let j = choose|j: int| 0 <= j < k && p(#[trigger] s[j]);
        lemma_first_up_to(s, p, j)
    } else {
        assert(is_first(s, p, k));
        k
    }
}

/// A rebuild may begin into every valid profile that is not the one being served,
/// unless one is under way; a rebuild that failed is no hindrance.
pub proof fn law_which_rebuilds_begin(store: IndexStore, profile: IndexProfile)
    ensures
        store.rebuild_refusal(profile) is None <==> {
            &&& profile.valid()
            &&& store.state is LegacyCompat || (store.state matches StoreState::Active(p) && p != profile.id) || (
            store.state matches StoreState::Failed { serving, .. } && serving != Some(profile.id))
        },
{
}

/// Beginning a rebuild retires the candidate before it, and no other row of a
/// profile; the new profile is stored as it was given.
pub proof fn law_a_new_candidate_retires_the_last(
    before: IndexStore,
    after: IndexStore,
    profile: IndexProfile,
    i: int,
)
    requires
        rebuild_begun(before, after, profile),
        0 <= i < before.profiles@.len(),
    ensures
        (before.state matches StoreState::Failed { candidate, .. } && before.profiles@[i].profile.id == candidate)
            ==> after.profiles@[i].state == ProfileState::Retired,
        !(before.state matches StoreState::Failed { candidate, .. } && before.profiles@[i].profile.id == candidate)
            && !(before.state matches StoreState::Rebuilding { candidate, .. } && before.profiles@[i].profile.id
            == candidate) ==> after.profiles@[i] == before.profiles@[i],
        after.profiles@.last().profile == profile,
        before.state is Active || before.state is LegacyCompat ==> after.profiles@.last().state
            == ProfileState::Rebuilding,
{
}

/// A change voids the scans of the profiles it concerns and touches no other
/// generation, nor what any of them has stored or published.
pub proof fn law_a_change_spares_other_generations(gens: Seq<AnnGeneration>, profiles: Seq<u128>, i: int)
    requires
        0 <= i < gens.len(),
    ensures
        changed_generations(gens, profiles).len() == gens.len(),
        changed_generations(gens, profiles)[i].profile_id == gens[i].profile_id,
        changed_generations(gens, profiles)[i].durable_generation == gens[i].durable_generation,
        changed_generations(gens, profiles)[i].published_generation == gens[i].published_generation,
        !profiles.contains(gens[i].profile_id) ==> changed_generations(gens, profiles)[i] == gens[i],
        profiles.contains(gens[i].profile_id) ==> changed_generations(gens, profiles)[i].full_scan_generation is None,
    decreases profiles.len(),
{
    if profiles.len() > 0 {
        let front = profiles.drop_last();
        law_a_change_spares_other_generations(gens, front, i);
        assert(profiles[profiles.len() - 1] == profiles.last());
        let id = gens[i].profile_id;
        if profiles.contains(id) && id != profiles.last() {
            assert(front[profiles.index_of(id)] == id);
        }
        if front.contains(id) {
            assert(profiles[front.index_of(id)] == id);
        }
    }
}

/// A stored vector moves its own profile on by one, and no other.
pub proof fn law_a_commit_moves_one_profile_on(gens: Seq<AnnGeneration>, profile_id: u128, i: int)
    requires
        0 <= i < gens.len(),
        gens[i].durable_generation < i64::MAX,
    ensures
        advanced(gens, profile_id).len() == gens.len(),
        gens[i].profile_id == profile_id ==> advanced(gens, profile_id)[i].durable_generation
            == gens[i].durable_generation + 1 && advanced(gens, profile_id)[i].published_generation
            == gens[i].published_generation,
        gens[i].profile_id != profile_id ==> advanced(gens, profile_id)[i] == gens[i],
{
}

/// An entity is up to date in a profile where it has a vector of the revision on
/// record: with no vector, no revision, or a vector of another one it is not.
pub proof fn law_what_up_to_date_means(store: IndexStore, profile_id: u128, entity_id: i64, i: int, k: int)
    ensures
        up_to_date(store, profile_id, entity_id) ==> exists|x: int, y: int|
            {
                &&& 0 <= x < store.vectors@.len() && 0 <= y < store.revisions@.len()
                &&& (#[trigger] store.vectors@[x]).profile_id == profile_id && store.vectors@[x].entity_id == entity_id
                &&& (#[trigger] store.revisions@[y]).entity_id == entity_id
                &&& store.vectors@[x].entity_revision == store.revisions@[y].revision
            },
        0 <= i < store.vectors@.len() && 0 <= k < store.revisions@.len() && store.vectors@[i].profile_id == profile_id
            && store.vectors@[i].entity_id == entity_id && store.revisions@[k].entity_id == entity_id
            && store.vectors@[i].entity_revision != store.revisions@[k].revision ==> !up_to_date(
            store,
            profile_id,
            entity_id,
        ),
{
    if up_to_date(store, profile_id, entity_id) {
        let x = choose|x: int|
            0 <= x < store.vectors@.len() && is_vector_of(#[trigger] store.vectors@[x], profile_id, entity_id);
        let y = choose|y: int| 0 <= y < store.revisions@.len() && (#[trigger] store.revisions@[y]).entity_id == entity_id;
        assert(is_vector_of(store.vectors@[x], profile_id, entity_id));
        assert(store.vectors@[x].entity_revision == store.revisions@[y].revision);
    }
    if 0 <= i < store.vectors@.len() && 0 <= k < store.revisions@.len() && store.vectors@[i].profile_id == profile_id
        && store.vectors@[i].entity_id == entity_id {
        assert(is_vector_of(store.vectors@[i], profile_id, entity_id));
    }
}

/// Nothing of a stored vector goes unseen, and a list shows
/// every item in its place.
pub proof fn law_nothing_goes_unseen(a: VectorRow, x: Seq<VectorRow>, i: int)
    ensures
        a@.profile_id == a.profile_id,
        a@.entity_id == a.entity_id,
        a@.entity_revision == a.entity_revision,
        a@.blob == a.blob@,
        a@.created_at_us == a.created_at_us,
        a@.source == a.source@,
        vectors_data(x).len() == x.len(),
        0 <= i < x.len() ==> vectors_data(x)[i] == x[i]@,
{
}

} // verus!
