//! The write service: it checks who asks, applies the request to the graph
//! and reports what changed. Nothing of a refused request remains.
use vstd::prelude::*;

use crate::changes::{
    affected, affected_names, capture, captured, changes_data, copy_changes, effective_changes,
    rename_changes, renamed, tell_all, Captured, ChangeData, EntityChange, Snapshot,
};
use crate::counters::{fits, recounted, update_counters};
use crate::errors::{invalid, memory, MCSError, Result};
use crate::graph::{Graph, GraphModel};
use crate::ids::random_uuid;
use crate::mutation::{
    demand, execute, executed, refuses, MutationContext, MutationRequest, MutationResult,
    ResultData,
};
use crate::order::TextSet;
use crate::rebuild::{first_where, is_first, lemma_first};
use crate::text::{chars_of, same};

verus! {

#[derive(Debug)]
pub struct CommittedChangeSet {
    pub transaction_id: u128,
    pub changes: Vec<EntityChange>,
}

#[derive(Debug)]
pub struct MutationOutcome {
    pub changes: CommittedChangeSet,
    pub result: MutationResult,
    pub replayed: bool,
}

/// What a [`MutationOutcome`] holds.
#[verifier::ext_equal]
pub struct OutcomeData {
    pub transaction_id: u128,
    pub changes: Seq<ChangeData>,
    pub result: ResultData,
    pub replayed: bool,
}

impl View for MutationOutcome {
    type V = OutcomeData;

    open spec fn view(&self) -> OutcomeData {
        OutcomeData {
            transaction_id: self.changes.transaction_id,
            changes: changes_data(self.changes.changes@),
            result: self.result@,
            replayed: self.replayed,
        }
    }
}

impl Clone for MutationOutcome {
    fn clone(&self) -> (r: Self)
        ensures
            r@ == self@,
    {
        MutationOutcome {
            changes: CommittedChangeSet {
                transaction_id: self.changes.transaction_id,
                changes: copy_changes(&self.changes.changes),
            },
            result: self.result.clone(),
            replayed: self.replayed,
        }
    }
}

/// The provenance of the event that a mutation says it was caused by.
#[derive(Clone, Copy, Debug)]
pub struct ParentEvent {
    pub correlation_id: u128,
    pub hop_count: u8,
}

/// What the request of a principal under an idempotency key was answered, and
/// when.
#[derive(Debug)]
pub struct IdempotencyRecord {
    pub principal_id: String,
    pub idempotency_key: String,
    pub fingerprint: String,
    pub outcome: MutationOutcome,
    pub created_us: i64,
}

/// What an [`IdempotencyRecord`] holds.
#[verifier::ext_equal]
pub struct RecordData {
    pub principal_id: Seq<char>,
    pub idempotency_key: Seq<char>,
    pub fingerprint: Seq<char>,
    pub outcome: OutcomeData,
    pub created_us: i64,
}

impl View for IdempotencyRecord {
    type V = RecordData;

    open spec fn view(&self) -> RecordData {
        RecordData {
            principal_id: self.principal_id@,
            idempotency_key: self.idempotency_key@,
            fingerprint: self.fingerprint@,
            outcome: self.outcome@,
            created_us: self.created_us,
        }
    }
}

/// What a list of records holds.
pub open spec fn records_data(v: Seq<IdempotencyRecord>) -> Seq<RecordData> {
    v.map_values(|r: IdempotencyRecord| r@)
}

/// The record is that of the principal under the key.
pub open spec fn is_record_of(r: RecordData, principal: Seq<char>, key: Seq<char>) -> bool {
    r.principal_id == principal && r.idempotency_key == key
}

/// The record that is kept of a principal's request under a key.
pub open spec fn saved(records: Seq<RecordData>, principal: Seq<char>, key: Seq<char>) -> Option<RecordData> {
    first_where(records, |r: RecordData| is_record_of(r, principal, key))
}

/// What the store holds, in the same transaction, beside the graph: the event
/// named as the request's cause, and the time.
#[derive(Debug)]
pub struct Surroundings {
    pub parent: Option<ParentEvent>,
    pub now_us: i64,
}

/// The graph behind its write boundary, with the records of the requests that
/// came under an idempotency key.
#[derive(Debug)]
pub struct MutationService {
    pub graph: Graph,
    pub records: Vec<IdempotencyRecord>,
}

fn find_record(records: &Vec<IdempotencyRecord>, principal: &str, key: &str) -> (r: Option<usize>)
    ensures
        match r {
            Some(i) => i < records@.len() && saved(records_data(records@), principal@, key@) == Some(
                records@[i as int]@,
            ),
            None => saved(records_data(records@), principal@, key@) is None,
        },
{
    let ghost all = records_data(records@);
    let ghost p = |r: RecordData| is_record_of(r, principal@, key@);
    let mut i: usize = 0;
    while i < records.len()
        invariant
            i <= records@.len(),
            all == records_data(records@),
            p == (|r: RecordData| is_record_of(r, principal@, key@)),
            forall|j: int| 0 <= j < i ==> !p(#[trigger] all[j]),
        decreases records@.len() - i,
    {
        assert(all[i as int] == records@[i as int]@);
        if same(&records[i].principal_id, principal) && same(&records[i].idempotency_key, key) {
            proof {
                lemma_first(all, p, i as int);
            }
            return Some(i);
        }
        i += 1;
    }
    None
}

/// 64 lower-case hexadecimal digits.
pub open spec fn is_fingerprint(s: Seq<char>) -> bool {
    &&& s.len() == 64
    &&& forall|i: int| 0 <= i < s.len() ==> ('0' <= #[trigger] s[i] <= '9' || 'a' <= s[i] <= 'f')
}

fn looks_like_fingerprint(s: &str) -> (r: bool)
    ensures
        r == is_fingerprint(s@),
{
    let v: Vec<char> = chars_of(s);
    if v.len() != 64 {
        return false;
    }
    let mut i: usize = 0;
    while i < v.len()
        invariant
            i <= v@.len(),
            v@ == s@,
            v@.len() == 64,
            forall|j: int| 0 <= j < i ==> ('0' <= #[trigger] v@[j] <= '9' || 'a' <= v@[j] <= 'f'),
        decreases v@.len() - i,
    {
        let c: char = v[i];
        if !(('0' <= c && c <= '9') || ('a' <= c && c <= 'f')) {
            assert(!('0' <= s@[i as int] <= '9' || 'a' <= s@[i as int] <= 'f'));
            return false;
        }
        i += 1;
    }
    true
}

/// The event is the one right before the request in its chain of causes.
pub open spec fn follows(parent: ParentEvent, context: MutationContext) -> bool {
    parent.correlation_id == context.correlation_id && parent.hop_count + 1 == context.hop_count
}

/// What becomes of a request before the graph is looked at.
pub enum Verdict {
    Refuse(Seq<char>),
    Replay,
    Proceed,
}

/// What is kept of the principal's earlier request under the key that this one
/// comes under; only a request with a fingerprint looks for it.
pub open spec fn earlier(
    records: Seq<RecordData>,
    context: MutationContext,
    fingerprint: Option<Seq<char>>,
) -> Option<RecordData> {
    if context.idempotency_key is Some && fingerprint is Some {
        saved(records, context.actor@, context.idempotency_key->0@)
    } else {
        None
    }
}

/// What becomes of a request: a malformed provenance is refused, an earlier
/// request under the same key is replayed if it was the same request and
/// refused if it was not, and a cause must exist and be the previous hop.
pub open spec fn verdict(
    records: Seq<RecordData>,
    context: MutationContext,
    fingerprint: Option<Seq<char>>,
    around: Surroundings,
) -> Verdict {
    let prior = earlier(records, context, fingerprint);
    if !context.valid() {
        Verdict::Refuse("Invalid mutation provenance"@)
    } else if prior is Some {
        if prior->0.fingerprint == fingerprint->0 {
            Verdict::Replay
        } else {
            Verdict::Refuse("idempotency_conflict"@)
        }
    } else if context.causation_id is Some {
        match around.parent {
            None => Verdict::Refuse("unknown causation event"@),
            Some(parent) => if follows(parent, context) {
                Verdict::Proceed
            } else {
                Verdict::Refuse("invalid causation chain"@)
            },
        }
    } else {
        Verdict::Proceed
    }
}

/// The changes report the difference between the captures: a renaming as
/// such, anything else entity by entity.
pub open spec fn reports(
    cs: Seq<ChangeData>,
    request: MutationRequest,
    before: Captured,
    after: Captured,
) -> bool {
    match request {
        MutationRequest::RenameEntity { old_name, new_name } => if old_name@ != new_name@ {
            cs == renamed(before, after, old_name@, new_name@)
        } else {
            tell_all(cs, before, after)
        },
        _ => tell_all(cs, before, after),
    }
}

/// The request leads from `m` to `g` with that result and those changes.
pub open spec fn applied(
    m: GraphModel,
    request: MutationRequest,
    now: int,
    g: GraphModel,
    result: ResultData,
    cs: Seq<ChangeData>,
) -> bool {
    match executed(m, request, now) {
        Ok((h, x)) => {
            let before = captured(m, affected(m, request));
            let after = captured(h, affected(m, request));
            &&& x == result
            &&& reports(cs, request, before, after)
            &&& fits(h, before, after, cs)
            &&& g == recounted(h, before, after, cs, now)
        },
        Err(_) => false,
    }
}

/// Some counter would not fit after the request.
pub open spec fn overflows(m: GraphModel, request: MutationRequest, now: int) -> bool {
    match executed(m, request, now) {
        Ok((h, _)) => exists|cs: Seq<ChangeData>|
            #![trigger reports(
                cs,
                request,
                captured(m, affected(m, request)),
                captured(h, affected(m, request)),
            )]
            {
                &&& reports(
                    cs,
                    request,
                    captured(m, affected(m, request)),
                    captured(h, affected(m, request)),
                )
                &&& !fits(
                    h,
                    captured(m, affected(m, request)),
                    captured(h, affected(m, request)),
                    cs,
                )
            },
        Err(_) => false,
    }
}

/// What a mutation that is neither refused nor replayed leads to.
pub open spec fn carried_out(
    m: GraphModel,
    request: MutationRequest,
    now: int,
    g: GraphModel,
    r: Result<MutationOutcome>,
) -> bool {
    match r {
        Ok(o) => {
            &&& !o.replayed
            &&& crate::ids::is_random_uuid(o.changes.transaction_id)
            &&& applied(m, request, now, g, o.result@, changes_data(o.changes.changes@))
        },
        Err(e) => {
            &&& g == m
            &&& {
                ||| !m.room(demand(m, request)) && (e matches MCSError::MemoryError(w) && w@
                    == "identifier space exhausted"@)
                ||| m.room(demand(m, request)) && (executed(m, request, now) matches Err(w) && refuses(e, w))
                ||| m.room(demand(m, request)) && overflows(m, request, now) && (e
                    matches MCSError::MemoryError(w) && w@ == "counter out of range"@)
            }
        },
    }
}

impl MutationService {
    pub fn new(graph: Graph) -> (r: Self)
        ensures
            r.graph == graph,
            r.records@.len() == 0,
    {
        MutationService { graph, records: Vec::new() }
    }

    /// Applies a request and reports the changes.
    pub fn apply(
        &mut self,
        request: MutationRequest,
        context: MutationContext,
        around: Surroundings,
    ) -> (r: Result<CommittedChangeSet>)
        ensures
            match r {
                Ok(c) => context.idempotency_key is None && verdict(records_data(old(self).records@), context, None, around) is Proceed
                    && crate::ids::is_random_uuid(c.transaction_id) && exists|x: ResultData| #[trigger]
                    applied(
                        old(self).graph@,
                        request,
                        around.now_us as int,
                        final(self).graph@,
                        x,
                        changes_data(c.changes@),
                    ),
                Err(e) => final(self).graph@ == old(self).graph@ && refused_plainly(
                    old(self).graph@,
                    records_data(old(self).records@),
                    request,
                    context,
                    around,
                    e,
                ),
            },
            records_data(final(self).records@) == records_data(old(self).records@),
    {
        match self.apply_with_result(request, context, around) {
            Ok((changes, result)) => {
                assert(applied(
                    old(self).graph@,
                    request,
                    around.now_us as int,
                    self.graph@,
                    result@,
                    changes_data(changes.changes@),
                ));
                Ok(changes)
            },
            Err(e) => Err(e),
        }
    }

    /// Applies a request and reports the changes and the result.
    pub fn apply_with_result(
        &mut self,
        request: MutationRequest,
        context: MutationContext,
        around: Surroundings,
    ) -> (r: Result<(CommittedChangeSet, MutationResult)>)
        ensures
            match r {
                Ok((c, x)) => context.idempotency_key is None && verdict(records_data(old(self).records@), context, None, around) is Proceed
                    && crate::ids::is_random_uuid(c.transaction_id) && applied(
                    old(self).graph@,
                    request,
                    around.now_us as int,
                    final(self).graph@,
                    x@,
                    changes_data(c.changes@),
                ),
                Err(e) => final(self).graph@ == old(self).graph@ && refused_plainly(
                    old(self).graph@,
                    records_data(old(self).records@),
                    request,
                    context,
                    around,
                    e,
                ),
            },
            records_data(final(self).records@) == records_data(old(self).records@),
    {
        if context.idempotency_key.is_some() {
            return Err(invalid("idempotent ingress requires a raw request fingerprint"));
        }
        match self.apply_inner(request, context, None, around) {
            Ok(outcome) => Ok((outcome.changes, outcome.result)),
            Err(e) => Err(e),
        }
    }

    /// Applies a request once: a repetition under the same key and with the
    /// same fingerprint is answered with the outcome that was saved.
    pub fn apply_idempotent(
        &mut self,
        request: MutationRequest,
        context: MutationContext,
        fingerprint: &str,
        around: Surroundings,
    ) -> (r: Result<MutationOutcome>)
        ensures
            answered_once(
                old(self).graph@,
                records_data(old(self).records@),
                request,
                context,
                fingerprint@,
                around,
                final(self).graph@,
                records_data(final(self).records@),
                r,
            ),
    {
        if context.idempotency_key.is_none() || !looks_like_fingerprint(fingerprint) {
            return Err(
                invalid("idempotent ingress requires a key and SHA-256 request fingerprint"),
            );
        }
        self.apply_inner(request, context, Some(fingerprint), around)
    }

    /// Applies a request to a copy of the graph, which replaces the graph when
    /// everything has succeeded.
    fn apply_inner(
        &mut self,
        request: MutationRequest,
        context: MutationContext,
        fingerprint: Option<&str>,
        around: Surroundings,
    ) -> (r: Result<MutationOutcome>)
        ensures
            concludes(
                old(self).graph@,
                records_data(old(self).records@),
                request,
                context,
                crate::text::opt_str(fingerprint),
                around,
                final(self).graph@,
                records_data(final(self).records@),
                r,
            ),
    {
        let context: MutationContext = match context.validate() {
            Ok(c) => c,
            Err(e) => {
                return Err(e);
            },
        };
        let now: i64 = around.now_us;
        if let (Some(key), Some(fingerprint)) = (&context.idempotency_key, fingerprint) {
            if let Some(i) = find_record(&self.records, &context.actor, key) {
                if !same(&self.records[i].fingerprint, fingerprint) {
                    return Err(invalid("idempotency_conflict"));
                }
                let mut outcome: MutationOutcome = self.records[i].outcome.clone();
                outcome.replayed = true;
                return Ok(outcome);
            }
        }
        if context.causation_id.is_some() {
            match around.parent {
                None => {
                    return Err(invalid("unknown causation event"));
                },
                Some(parent) => {
                    if parent.correlation_id != context.correlation_id || parent.hop_count as u16 + 1
                        != context.hop_count as u16 {
                        return Err(invalid("invalid causation chain"));
                    }
                },
            }
        }
        let ghost m = self.graph@;
        if !self.graph.has_room(demand_of(&self.graph, &request)) {
            return Err(memory("identifier space exhausted"));
        }
        let names: TextSet = affected_names(&self.graph, &request);
        let mut graph: Graph = self.graph.clone();
        let before: Snapshot = capture(&graph, &names);
        let result: MutationResult = match execute(&mut graph, &request, now) {
            Ok(x) => x,
            Err(e) => {
                return Err(e);
            },
        };
        let after: Snapshot = capture(&graph, &names);
        let changes: Vec<EntityChange> = match &request {
            MutationRequest::RenameEntity { old_name, new_name } => if !same(old_name, new_name) {
                rename_changes(&before, &after, old_name, new_name)
            } else {
                effective_changes(&before, &after)
            },
            _ => effective_changes(&before, &after),
        };
        proof {
            assert(reports(changes_data(changes@), request, before@, after@));
        }
        match update_counters(&mut graph, &before, &after, &changes, now) {
            Ok(_) => {},
            Err(e) => {
                return Err(e);
            },
        }
        self.graph = graph;
        let outcome: MutationOutcome = MutationOutcome {
            changes: CommittedChangeSet { transaction_id: random_uuid(), changes },
            result,
            replayed: false,
        };
        if let (Some(key), Some(fingerprint)) = (context.idempotency_key, fingerprint) {
            let ghost kept = records_data(self.records@);
            let record: IdempotencyRecord = IdempotencyRecord {
                principal_id: context.actor,
                idempotency_key: key,
                fingerprint: fingerprint.to_owned(),
                outcome: outcome.clone(),
                created_us: now,
            };
            let ghost x = record@;
            self.records.push(record);
            assert(records_data(self.records@) =~= kept.push(x));
        }
        Ok(outcome)
    }
}

/// How many fresh identifiers a request may use up.
fn demand_of(graph: &Graph, request: &MutationRequest) -> (r: usize)
    ensures
        r == demand(graph@, *request),
{
    match request {
        MutationRequest::CreateEntities { entities } => entities.len(),
        MutationRequest::UpsertEntities { entities } => entities.len(),
        MutationRequest::CreateRelations { relations } => relations.len(),
        MutationRequest::MergeEntities { .. } => {
            assert(graph@.relations.len() == graph.relations@.len());
            graph.relations.len()
        },
        _ => 0,
    }
}

/// The records once a request was carried out: it is kept, where it came under a
/// key and with a fingerprint.
pub open spec fn kept(
    records: Seq<RecordData>,
    context: MutationContext,
    fingerprint: Option<Seq<char>>,
    outcome: OutcomeData,
    now: i64,
) -> Seq<RecordData> {
    if context.idempotency_key is Some && fingerprint is Some {
        records.push(
            RecordData {
                principal_id: context.actor@,
                idempotency_key: context.idempotency_key->0@,
                fingerprint: fingerprint->0,
                outcome,
                created_us: now,
            },
        )
    } else {
        records
    }
}

/// How a request ends: refused without a trace, answered with what was saved,
/// or carried out and kept.
pub open spec fn concludes(
    m: GraphModel,
    records: Seq<RecordData>,
    request: MutationRequest,
    context: MutationContext,
    fingerprint: Option<Seq<char>>,
    around: Surroundings,
    g: GraphModel,
    records_after: Seq<RecordData>,
    r: Result<MutationOutcome>,
) -> bool {
    match verdict(records, context, fingerprint, around) {
        Verdict::Refuse(w) => g == m && records_after == records && (r matches Err(e) && refuses(e, w)),
        Verdict::Replay => {
            &&& g == m
            &&& records_after == records
            &&& r matches Ok(o) && o@ == (OutcomeData {
                replayed: true,
                ..earlier(records, context, fingerprint)->0.outcome
            })
        },
        Verdict::Proceed => {
            &&& carried_out(m, request, around.now_us as int, g, r)
            &&& records_after == (match r {
                Ok(o) => kept(records, context, fingerprint, o@, around.now_us),
                Err(_) => records,
            })
        },
    }
}

/// How a request ends that is to be answered once: one without a key or a
/// fingerprint is refused, any other ends as said.
pub open spec fn answered_once(
    m: GraphModel,
    records: Seq<RecordData>,
    request: MutationRequest,
    context: MutationContext,
    fingerprint: Seq<char>,
    around: Surroundings,
    g: GraphModel,
    records_after: Seq<RecordData>,
    r: Result<MutationOutcome>,
) -> bool {
    if context.idempotency_key is Some && is_fingerprint(fingerprint) {
        concludes(m, records, request, context, Some(fingerprint), around, g, records_after, r)
    } else {
        &&& g == m
        &&& records_after == records
        &&& r matches Err(e) && refuses(
            e,
            "idempotent ingress requires a key and SHA-256 request fingerprint"@,
        )
    }
}

/// Why a request without an idempotency record was refused.
pub open spec fn refused_plainly(
    m: GraphModel,
    records: Seq<RecordData>,
    request: MutationRequest,
    context: MutationContext,
    around: Surroundings,
    e: MCSError,
) -> bool {
    if context.idempotency_key is Some {
        refuses(e, "idempotent ingress requires a raw request fingerprint"@)
    } else {
        match verdict(records, context, None, around) {
            Verdict::Refuse(w) => refuses(e, w),
            Verdict::Replay => false,
            Verdict::Proceed => carried_out(m, request, around.now_us as int, m, Err(e)),
        }
    }
}

/// A request that is refused, for whatever reason, leaves the graph and the
/// records as they were.
pub proof fn law_a_refused_request_leaves_no_trace(
    m: GraphModel,
    records: Seq<RecordData>,
    request: MutationRequest,
    context: MutationContext,
    fingerprint: Seq<char>,
    around: Surroundings,
    g: GraphModel,
    records_after: Seq<RecordData>,
    e: MCSError,
)
    requires
        answered_once(m, records, request, context, fingerprint, around, g, records_after, Err(e)),
    ensures
        g == m,
        records_after == records,
{
}

/// A second request of a principal under the key of one that was carried out is
/// answered with the outcome of the first where the fingerprints agree, whatever
/// it asks for, and refused where they do not. Either way it changes nothing.
pub proof fn law_a_repeated_request_is_replayed(
    m: GraphModel,
    records: Seq<RecordData>,
    request: MutationRequest,
    context: MutationContext,
    fingerprint: Seq<char>,
    around: Surroundings,
    g: GraphModel,
    records_after: Seq<RecordData>,
    first: MutationOutcome,
    second_request: MutationRequest,
    second_context: MutationContext,
    second_fingerprint: Seq<char>,
    second_around: Surroundings,
    second_g: GraphModel,
    second_records: Seq<RecordData>,
    second: Result<MutationOutcome>,
)
    requires
        answered_once(m, records, request, context, fingerprint, around, g, records_after, Ok(first)),
        !first.replayed,
        second_context.valid(),
        second_context.actor@ == context.actor@,
        second_context.idempotency_key is Some,
        context.idempotency_key is Some,
        second_context.idempotency_key->0@ == context.idempotency_key->0@,
        is_fingerprint(second_fingerprint),
        answered_once(
            g,
            records_after,
            second_request,
            second_context,
            second_fingerprint,
            second_around,
            second_g,
            second_records,
            second,
        ),
    ensures
        second_g == g,
        second_records == records_after,
        second_fingerprint == fingerprint ==> (second matches Ok(o) && o@ == (OutcomeData {
            replayed: true,
            ..first@
        })),
        second_fingerprint != fingerprint ==> (second matches Err(e) && refuses(
            e,
            "idempotency_conflict"@,
        )),
{
    let key = context.idempotency_key->0@;
    let p = |r: RecordData| is_record_of(r, context.actor@, key);
    let n = records.len() as int;
    assert forall|j: int| 0 <= j < n implies !p(#[trigger] records_after[j]) by {
        assert(records_after[j] == records[j]);
        if p(records[j]) {
            lemma_first_exists(records, p, j);
        }
    }
    assert(is_first(records_after, p, n));
    lemma_first(records_after, p, n);
}

/// Where some item meets the condition there is a first.
proof fn lemma_first_exists(s: Seq<RecordData>, p: spec_fn(RecordData) -> bool, i: int)
    requires
        0 <= i < s.len(),
        p(s[i]),
    ensures
        first_where(s, p) is Some,
    decreases i,
{
    if exists|j: int| 0 <= j < i && p(#[trigger] s[j]) {
        let j = choose|j: int| 0 <= j < i && p(#[trigger] s[j]);
        lemma_first_exists(s, p, j);
    } else {
        assert(is_first(s, p, i));
    }
}

/// What was answered under a key is found again, wherever it is kept, for the one
/// who asked and under that key alone.
pub proof fn law_every_answer_is_found_again(records: Seq<RecordData>, principal: Seq<char>, key: Seq<char>, k: int)
    ensures
        0 <= k < records.len() && records[k].principal_id == principal && records[k].idempotency_key == key ==> saved(
            records,
            principal,
            key,
        ) is Some,
        saved(records, principal, key) matches Some(r) ==> r.principal_id == principal && r.idempotency_key == key
            && records.contains(r),
        saved(records, principal, key) is None <==> forall|i: int|
            0 <= i < records.len() ==> !((#[trigger] records[i]).principal_id == principal
                && records[i].idempotency_key == key),
{
    let p = |r: RecordData| is_record_of(r, principal, key);
    crate::rebuild::law_the_first_of_its_kind_is_found(records, p, k);
    if saved(records, principal, key) is None {
        assert forall|i: int| 0 <= i < records.len() implies !((#[trigger] records[i]).principal_id == principal
            && records[i].idempotency_key == key) by {
            assert(!p(records[i]));
        }
    } else {
        let j = choose|j: int| 0 <= j < records.len() && p(#[trigger] records[j]);
        assert(p(records[j]));
        crate::rebuild::law_the_first_of_its_kind_is_found(records, p, j);
    }
    if forall|i: int|
        0 <= i < records.len() ==> !((#[trigger] records[i]).principal_id == principal
            && records[i].idempotency_key == key) {
        assert forall|j: int| 0 <= j < records.len() implies !p(#[trigger] records[j]) by {}
    }
}

/// A request goes ahead exactly where its provenance is a valid one, nothing was
/// answered to the same principal under its key before, and its cause, if it
/// names one, is the event right before it.
pub proof fn law_which_requests_go_ahead(
    records: Seq<RecordData>,
    context: MutationContext,
    fingerprint: Option<Seq<char>>,
    around: Surroundings,
)
    ensures
        verdict(records, context, fingerprint, around) is Proceed <==> {
            &&& context.valid()
            &&& context.idempotency_key is Some && fingerprint is Some ==> forall|i: int|
                0 <= i < records.len() ==> !((#[trigger] records[i]).principal_id == context.actor@
                    && records[i].idempotency_key == context.idempotency_key->0@)
            &&& context.causation_id is Some ==> (around.parent matches Some(p) && p.correlation_id
                == context.correlation_id && p.hop_count + 1 == context.hop_count)
        },
        !context.valid() ==> verdict(records, context, fingerprint, around) is Refuse,
{
    if context.idempotency_key is Some {
        law_every_answer_is_found_again(records, context.actor@, context.idempotency_key->0@, 0);
    }
}

/// A request that goes ahead, that the graph can take and whose counters fit is
/// carried out: nothing else stands in its way, and its result is what carrying
/// it out gives.
pub proof fn law_a_sound_request_is_carried_out(
    m: GraphModel,
    records: Seq<RecordData>,
    request: MutationRequest,
    context: MutationContext,
    fingerprint: Option<Seq<char>>,
    around: Surroundings,
    g: GraphModel,
    records_after: Seq<RecordData>,
    r: Result<MutationOutcome>,
)
    requires
        concludes(m, records, request, context, fingerprint, around, g, records_after, r),
        verdict(records, context, fingerprint, around) is Proceed,
        m.room(demand(m, request)),
        executed(m, request, around.now_us as int) is Ok,
        !overflows(m, request, around.now_us as int),
    ensures
        r matches Ok(o) && !o.replayed && o.result@ == (executed(m, request, around.now_us as int)->Ok_0).1,
{
}

/// What was carried out under a key is kept, as it was answered and with its
/// fingerprint, behind everything that was kept before; what came without a key
/// is not.
pub proof fn law_an_answer_is_kept_under_its_key(
    records: Seq<RecordData>,
    context: MutationContext,
    fingerprint: Option<Seq<char>>,
    outcome: OutcomeData,
    now: i64,
)
    ensures
        records.is_prefix_of(kept(records, context, fingerprint, outcome, now)),
        context.idempotency_key is Some && fingerprint is Some ==> {
            let all = kept(records, context, fingerprint, outcome, now);
            &&& all.len() == records.len() + 1
            &&& all.last().outcome == outcome && all.last().fingerprint == fingerprint->0
            &&& all.last().principal_id == context.actor@ && all.last().idempotency_key
                == context.idempotency_key->0@
            &&& saved(all, context.actor@, context.idempotency_key->0@) is Some
        },
        context.idempotency_key is None || fingerprint is None ==> kept(
            records,
            context,
            fingerprint,
            outcome,
            now,
        ) == records,
{
    let all = kept(records, context, fingerprint, outcome, now);
    if context.idempotency_key is Some && fingerprint is Some {
        law_every_answer_is_found_again(
            all,
            context.actor@,
            context.idempotency_key->0@,
            records.len() as int,
        );
    }
}

/// Nothing of an outcome or of what is kept of it goes unseen, and a list shows
/// every item in its place.
pub proof fn law_nothing_goes_unseen(
    a: MutationOutcome,
    b: IdempotencyRecord,
    x: Seq<IdempotencyRecord>,
    i: int,
)
    ensures
        a@.transaction_id == a.changes.transaction_id,
        a@.changes == changes_data(a.changes.changes@),
        a@.result == a.result@,
        a@.replayed == a.replayed,
        b@.principal_id == b.principal_id@,
        b@.idempotency_key == b.idempotency_key@,
        b@.fingerprint == b.fingerprint@,
        b@.outcome == b.outcome@,
        b@.created_us == b.created_us,
        records_data(x).len() == x.len(),
        0 <= i < x.len() ==> records_data(x)[i] == x[i]@,
{
}

} // verus!
