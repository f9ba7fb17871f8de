//! The single graph write boundary: who asks for a change, what the change
//! does to the rows, and how it is reported.
use vstd::prelude::*;
use vstd::utf8::encode_utf8;

use crate::errors::{invalid, MCSError, Result};
use crate::graph::{EntityModel, EntitySnapshot, Graph, GraphModel};
use crate::ids::{lemma_random_uuid_is_not_nil, random_uuid};
use crate::order::{listed, TextSet};
use crate::text::{
    byte_len, copy_texts, has_control, same, texts, trim, trimmed, control, white_space,
};
use crate::types::{
    copy_entities, copy_relations, entities_data, relations_data, Entity, EntityData, Relation,
    RelationData,
};

verus! {

pub type MutationError = MCSError;

/// Who asks for a mutation, and what caused it.
#[derive(Debug)]
pub struct MutationContext {
    pub actor: String,
    pub origin: String,
    pub correlation_id: u128,
    pub causation_id: Option<u128>,
    pub hop_count: u8,
    pub idempotency_key: Option<String>,
}

/// A text with something to read in it, of at most 256 bytes and without
/// control codes.
pub open spec fn plain_label(s: Seq<char>) -> bool {
    &&& trimmed(s).len() > 0
    &&& encode_utf8(s).len() <= 256
    &&& forall|i: int| 0 <= i < s.len() ==> !control(#[trigger] s[i])
}

/// A key of 1 to 128 bytes without control codes.
pub open spec fn plain_key(s: Seq<char>) -> bool {
    &&& s.len() > 0
    &&& encode_utf8(s).len() <= 128
    &&& forall|i: int| 0 <= i < s.len() ==> !control(#[trigger] s[i])
}

/// Whether a text is a plain label.
pub fn is_plain_label(s: &str) -> (r: bool)
    ensures
        r == plain_label(s@),
{
    let blank: bool = trim(s).as_str().is_empty();
    let controlled: bool = has_control(s);
    proof {
        if controlled {
            let i = choose|i: int| 0 <= i < s@.len() && control(s@[i]);
            assert(control(s@[i]));
        }
    }
    !blank && byte_len(s) <= 256 && !controlled
}

/// A short ASCII word is a plain label.
proof fn lemma_plain_ascii(s: Seq<char>)
    requires
        0 < s.len() <= 256,
        forall|i: int| 0 <= i < s.len() ==> 'a' <= #[trigger] s[i] <= 'z',
    ensures
        plain_label(s),
{
    vstd::utf8::is_ascii_chars_encode_utf8(s);
    assert(!white_space(s[0]));
    assert(!white_space(s.last()));
}

impl MutationContext {
    /// The provenance is one that a mutation may carry.
    pub open spec fn valid(self) -> bool {
        &&& plain_label(self.actor@)
        &&& plain_label(self.origin@)
        &&& self.correlation_id != 0
        &&& self.hop_count <= 15
        &&& self.causation_id != Some(0u128)
        &&& (self.hop_count > 0 <==> self.causation_id is Some)
        &&& (self.idempotency_key matches Some(key) ==> plain_key(key@))
    }

    /// Trusted in-process ingress. Network callers must supply a context
    /// derived from their authenticated principal instead.
    pub fn local() -> (r: Self)
        ensures
            r.actor@ == "local"@,
            r.origin@ == "mcp"@,
            crate::ids::is_random_uuid(r.correlation_id),
            r.causation_id is None,
            r.hop_count == 0,
            r.idempotency_key is None,
            r.valid(),
    {
        let r: MutationContext = MutationContext {
            actor: "local".to_owned(),
            origin: "mcp".to_owned(),
            correlation_id: random_uuid(),
            causation_id: None,
            hop_count: 0,
            idempotency_key: None,
        };
        proof {
            lemma_random_uuid_is_not_nil(r.correlation_id);
            reveal_strlit("local");
            reveal_strlit("mcp");
            lemma_plain_ascii(r.actor@);
            lemma_plain_ascii(r.origin@);
        }
        r
    }

    /// Accepts the provenance, or refuses it.
    pub fn validate(self) -> (r: Result<Self>)
        ensures
            match r {
                Ok(c) => self.valid() && c == self,
                Err(e) => !self.valid() && (e matches MCSError::InvalidParams(m) && m@
                    == "Invalid mutation provenance"@),
            },
    {
        let key_ok: bool = match &self.idempotency_key {
            Some(key) => {
                let controlled: bool = has_control(key);
                proof {
                    if controlled {
                        let i = choose|i: int| 0 <= i < key@.len() && control(key@[i]);
                        assert(control(key@[i]));
                    }
                }
                !key.as_str().is_empty() && byte_len(key) <= 128 && !controlled
            },
            None => true,
        };
        let cause_ok: bool = match self.causation_id {
            Some(id) => id != 0 && self.hop_count > 0,
            None => self.hop_count == 0,
        };
        if !is_plain_label(&self.actor) || !is_plain_label(&self.origin) || self.correlation_id == 0
            || self.hop_count > 15 || !cause_ok || !key_ok {
            return Err(invalid("Invalid mutation provenance"));
        }
        Ok(self)
    }
}

#[derive(Debug)]
pub struct ObservationUpdate {
    pub entity_name: String,
    pub contents: Vec<String>,
}

#[derive(Debug)]
pub enum MutationRequest {
    CreateEntities { entities: Vec<Entity> },
    UpsertEntities { entities: Vec<Entity> },
    DeleteEntities { names: Vec<String> },
    CreateRelations { relations: Vec<Relation> },
    DeleteRelations { relations: Vec<Relation> },
    AddObservations { observations: Vec<ObservationUpdate> },
    DeleteObservations { observations: Vec<ObservationUpdate> },
    MergeEntities { source: String, target: String },
    RenameEntity { old_name: String, new_name: String },
    PurgeDefinedEntities { name: String },
    Compact,
    Wipe,
}

#[derive(Debug)]
pub struct ObservationResult {
    pub entity_name: String,
    pub added_observations: Vec<String>,
}

/// What the caller of a mutation is told. It is captured inside the same
/// transaction, so that it never shows a later writer's state.
#[derive(Debug)]
pub enum MutationResult {
    Entities(Vec<Entity>),
    Relations(Vec<Relation>),
    Observations(Vec<ObservationResult>),
    Entity(Entity),
    Count(usize),
    Unit,
}

/// What an [`ObservationUpdate`] or an [`ObservationResult`] holds.
#[verifier::ext_equal]
pub struct ObservationData {
    pub entity_name: Seq<char>,
    pub contents: Seq<Seq<char>>,
}

/// What a [`MutationResult`] holds.
#[verifier::ext_equal]
pub enum ResultData {
    Entities(Seq<EntityData>),
    Relations(Seq<RelationData>),
    Observations(Seq<ObservationData>),
    Entity(EntityData),
    Count(int),
    Unit,
}

impl View for ObservationUpdate {
    type V = ObservationData;

    open spec fn view(&self) -> ObservationData {
        ObservationData { entity_name: self.entity_name@, contents: texts(self.contents@) }
    }
}

impl View for ObservationResult {
    type V = ObservationData;

    open spec fn view(&self) -> ObservationData {
        ObservationData { entity_name: self.entity_name@, contents: texts(self.added_observations@) }
    }
}

/// What a list of updates holds.
pub open spec fn updates_data(v: Seq<ObservationUpdate>) -> Seq<ObservationData> {
    v.map_values(|u: ObservationUpdate| u@)
}

/// What a list of results holds.
pub open spec fn results_data(v: Seq<ObservationResult>) -> Seq<ObservationData> {
    v.map_values(|u: ObservationResult| u@)
}

impl View for MutationResult {
    type V = ResultData;

    open spec fn view(&self) -> ResultData {
        match *self {
            MutationResult::Entities(v) => ResultData::Entities(entities_data(v@)),
            MutationResult::Relations(v) => ResultData::Relations(relations_data(v@)),
            MutationResult::Observations(v) => ResultData::Observations(results_data(v@)),
            MutationResult::Entity(e) => ResultData::Entity(e@),
            MutationResult::Count(n) => ResultData::Count(n as int),
            MutationResult::Unit => ResultData::Unit,
        }
    }
}

fn copy_results(v: &Vec<ObservationResult>) -> (r: Vec<ObservationResult>)
    ensures
        results_data(r@) == results_data(v@),
{
    let mut out: Vec<ObservationResult> = Vec::new();
    let mut i: usize = 0;
    while i < v.len()
        invariant
            i <= v@.len(),
            results_data(out@) =~= results_data(v@).take(i as int),
        decreases v@.len() - i,
    {
        let ghost done = results_data(out@);
        out.push(
            ObservationResult {
                entity_name: v[i].entity_name.clone(),
                added_observations: copy_texts(&v[i].added_observations),
            },
        );
        assert(results_data(out@) =~= done.push(results_data(v@)[i as int]));
        i += 1;
    }
    assert(results_data(v@).take(v@.len() as int) =~= results_data(v@));
    out
}

impl Clone for MutationResult {
    fn clone(&self) -> (r: Self)
        ensures
            r@ == self@,
    {
        match self {
            MutationResult::Entities(v) => MutationResult::Entities(copy_entities(v)),
            MutationResult::Relations(v) => MutationResult::Relations(copy_relations(v)),
            MutationResult::Observations(v) => MutationResult::Observations(copy_results(v)),
            MutationResult::Entity(e) => MutationResult::Entity(e.clone()),
            MutationResult::Count(n) => MutationResult::Count(*n),
            MutationResult::Unit => MutationResult::Unit,
        }
    }
}

// ---------------------------------------------------------------------------
// What a request does to the rows
// ---------------------------------------------------------------------------

/// What a step of a request leads to: the graph and what the step reports, or
/// the words of the refusal.
pub type Step<T> = std::result::Result<(GraphModel, T), Seq<char>>;

/// The refusal of a name that no live entity has.
pub open spec fn not_found(name: Seq<char>) -> Seq<char> {
    "Entity '"@ + name + "' not found"@
}

/// The refusal of a name that is taken.
pub open spec fn already_exists(name: Seq<char>) -> Seq<char> {
    "Entity '"@ + name + "' already exists"@
}

/// The texts of `list` that are not in `seen`, each once, in the order in
/// which they first occur.
pub open spec fn novel(seen: Seq<Seq<char>>, list: Seq<Seq<char>>) -> Seq<Seq<char>>
    decreases list.len(),
{
    if list.len() == 0 {
        list
    } else {
        let head = novel(seen, list.drop_last());
        if seen.contains(list.last()) || head.contains(list.last()) {
            head
        } else {
            head.push(list.last())
        }
    }
}

/// Creates entities one after another and lists those that were created.
pub open spec fn create_all(m: GraphModel, es: Seq<EntityData>, now: int) -> (
    GraphModel,
    Seq<EntityData>,
)
    decreases es.len(),
{
    if es.len() == 0 {
        (m, Seq::empty())
    } else {
        let (g, created) = create_all(m, es.drop_last(), now);
        let (h, made) = g.create_entity(es.last(), now);
        (
            h,
            if made {
                created.push(es.last())
            } else {
                created
            },
        )
    }
}

/// Creates an entity, or gives the one of that name the type and the
/// observations it does not have yet.
pub open spec fn upsert_one(m: GraphModel, e: EntityData, now: int) -> Step<Option<EntityData>> {
    match m.snapshot(e.name) {
        Some(x) => {
            let g = if x.entity_type != e.entity_type {
                m.retype(x.entity_id, e.entity_type)
            } else {
                m
            };
            let h = g.insert_observations(x.entity_id, novel(x.observations, e.observations));
            match h.snapshot(e.name) {
                Some(y) => Ok((h, Some(y.entity()))),
                None => Err(not_found(e.name)),
            }
        },
        None => {
            let (h, made) = m.create_entity(e, now);
            Ok(
                (
                    h,
                    if made {
                        Some(e)
                    } else {
                        None
                    },
                ),
            )
        },
    }
}

/// Upserts entities one after another.
pub open spec fn upsert_all(m: GraphModel, es: Seq<EntityData>, now: int) -> Step<Seq<EntityData>>
    decreases es.len(),
{
    if es.len() == 0 {
        Ok((m, Seq::empty()))
    } else {
        match upsert_all(m, es.drop_last(), now) {
            Ok((g, list)) => match upsert_one(g, es.last(), now) {
                Ok((h, Some(e))) => Ok((h, list.push(e))),
                Ok((h, None)) => Ok((h, list)),
                Err(w) => Err(w),
            },
            Err(w) => Err(w),
        }
    }
}

/// Creates relations one after another and lists those that were created.
pub open spec fn relate_all(m: GraphModel, rs: Seq<RelationData>, now: int) -> (
    GraphModel,
    Seq<RelationData>,
)
    decreases rs.len(),
{
    if rs.len() == 0 {
        (m, Seq::empty())
    } else {
        let (g, created) = relate_all(m, rs.drop_last(), now);
        let (h, made) = g.create_relation(rs.last(), now);
        (
            h,
            if made {
                created.push(rs.last())
            } else {
                created
            },
        )
    }
}

/// Deletes relations one after another.
pub open spec fn unrelate_all(m: GraphModel, rs: Seq<RelationData>) -> GraphModel
    decreases rs.len(),
{
    if rs.len() == 0 {
        m
    } else {
        unrelate_all(m, rs.drop_last()).delete_relation(rs.last())
    }
}

/// Adds observations to entities, one update after another.
pub open spec fn observe_all(m: GraphModel, us: Seq<ObservationData>) -> Step<Seq<ObservationData>>
    decreases us.len(),
{
    if us.len() == 0 {
        Ok((m, Seq::empty()))
    } else {
        match observe_all(m, us.drop_last()) {
            Ok((g, list)) => match g.snapshot(us.last().entity_name) {
                Some(x) => Ok(
                    (g.insert_observations(x.entity_id, us.last().contents), list.push(us.last())),
                ),
                None => Err(not_found(us.last().entity_name)),
            },
            Err(w) => Err(w),
        }
    }
}

/// Removes the observations of one entity that say one of `bodies`.
pub open spec fn forget_bodies(m: GraphModel, id: int, bodies: Seq<Seq<char>>) -> GraphModel
    decreases bodies.len(),
{
    if bodies.len() == 0 {
        m
    } else {
        forget_bodies(m, id, bodies.drop_last()).delete_observations(id, bodies.last())
    }
}

/// Removes observations, one update after another. An update without contents
/// asks for nothing, not even for the entity.
pub open spec fn forget_all(m: GraphModel, us: Seq<ObservationData>) -> Step<()>
    decreases us.len(),
{
    if us.len() == 0 {
        Ok((m, ()))
    } else {
        match forget_all(m, us.drop_last()) {
            Ok((g, _)) => if us.last().contents.len() == 0 {
                Ok((g, ()))
            } else {
                match g.snapshot(us.last().entity_name) {
                    Some(x) => Ok((forget_bodies(g, x.entity_id, us.last().contents), ())),
                    None => Err(not_found(us.last().entity_name)),
                }
            },
            Err(w) => Err(w),
        }
    }
}

/// A relation with one name replaced by another at both ends.
pub open spec fn redirect(d: RelationData, source: Seq<char>, target: Seq<char>) -> RelationData {
    RelationData {
        from: if d.from == source {
            target
        } else {
            d.from
        },
        to: if d.to == source {
            target
        } else {
            d.to
        },
        relation_type: d.relation_type,
    }
}

/// Relations with one name replaced by another.
pub open spec fn redirect_all(
    ds: Seq<RelationData>,
    source: Seq<char>,
    target: Seq<char>,
) -> Seq<RelationData> {
    ds.map_values(|d: RelationData| redirect(d, source, target))
}

/// Moves the observations and relations of one entity to another and deletes
/// the first.
pub open spec fn merge(m: GraphModel, source: Seq<char>, target: Seq<char>, now: int) -> Step<
    EntityData,
> {
    match (m.snapshot(source), m.snapshot(target)) {
        (Some(old), Some(into)) => {
            let g = if source != target {
                let h = m.insert_observations(into.entity_id, old.observations);
                relate_all(h, redirect_all(h.relations_of(source), source, target), now).0.delete_entity(
                    source,
                )
            } else {
                m
            };
            match g.snapshot(target) {
                Some(x) => Ok((g, x.entity())),
                None => Err(not_found(target)),
            }
        },
        (Some(_), None) => Err(not_found(target)),
        _ => Err(not_found(source)),
    }
}

/// Gives an entity a name that is free.
pub open spec fn rename(m: GraphModel, old_name: Seq<char>, new_name: Seq<char>) -> Step<EntityData> {
    match m.snapshot(old_name) {
        Some(x) => if old_name == new_name {
            Ok((m, x.entity()))
        } else if m.snapshot(new_name) is Some {
            Err(already_exists(new_name))
        } else {
            let g = m.rename(x.entity_id, new_name);
            match g.snapshot(new_name) {
                Some(y) => Ok((g, y.entity())),
                None => Err(not_found(new_name)),
            }
        },
        None => Err(not_found(old_name)),
    }
}

/// The entity itself and what it defines.
pub open spec fn defined_names(m: GraphModel, name: Seq<char>) -> Set<Seq<char>> {
    Set::new(
        |t: Seq<char>|
            t == name || m.relations_of(name).contains(
                RelationData { from: name, to: t, relation_type: "defines"@ },
            ),
    )
}

/// The names of the live entities, in table order.
pub open spec fn live_names(es: Seq<EntityModel>) -> Seq<Seq<char>>
    decreases es.len(),
{
    if es.len() == 0 {
        Seq::empty()
    } else if es.last().flags == 0 {
        live_names(es.drop_last()).push(es.last().name)
    } else {
        live_names(es.drop_last())
    }
}

/// What a request does to the rows and what it reports.
pub open spec fn executed(m: GraphModel, request: MutationRequest, now: int) -> Step<ResultData> {
    match request {
        MutationRequest::CreateEntities { entities } => {
            let (g, created) = create_all(m, entities_data(entities@), now);
            Ok((g, ResultData::Entities(created)))
        },
        MutationRequest::UpsertEntities { entities } => match upsert_all(
            m,
            entities_data(entities@),
            now,
        ) {
            Ok((g, list)) => Ok((g, ResultData::Entities(list))),
            Err(w) => Err(w),
        },
        MutationRequest::DeleteEntities { names } => Ok(
            (m.delete_entities(listed(texts(names@).to_set())), ResultData::Unit),
        ),
        MutationRequest::CreateRelations { relations } => {
            let (g, created) = relate_all(m, relations_data(relations@), now);
            Ok((g, ResultData::Relations(created)))
        },
        MutationRequest::DeleteRelations { relations } => Ok(
            (unrelate_all(m, relations_data(relations@)), ResultData::Unit),
        ),
        MutationRequest::AddObservations { observations } => match observe_all(
            m,
            updates_data(observations@),
        ) {
            Ok((g, list)) => Ok((g, ResultData::Observations(list))),
            Err(w) => Err(w),
        },
        MutationRequest::DeleteObservations { observations } => match forget_all(
            m,
            updates_data(observations@),
        ) {
            Ok((g, _)) => Ok((g, ResultData::Unit)),
            Err(w) => Err(w),
        },
        MutationRequest::MergeEntities { source, target } => match merge(
            m,
            source@,
            target@,
            now,
        ) {
            Ok((g, e)) => Ok((g, ResultData::Entity(e))),
            Err(w) => Err(w),
        },
        MutationRequest::RenameEntity { old_name, new_name } => match rename(
            m,
            old_name@,
            new_name@,
        ) {
            Ok((g, e)) => Ok((g, ResultData::Entity(e))),
            Err(w) => Err(w),
        },
        MutationRequest::PurgeDefinedEntities { name } => {
            let names = listed(defined_names(m, name@));
            Ok((m.delete_entities(names), ResultData::Count(names.len() as int)))
        },
        MutationRequest::Compact => Ok((m, ResultData::Unit)),
        MutationRequest::Wipe => Ok(
            (m.delete_entities(listed(live_names(m.entities).to_set())), ResultData::Unit),
        ),
    }
}

/// How many fresh identifiers a request may use up.
pub open spec fn demand(m: GraphModel, request: MutationRequest) -> int {
    match request {
        MutationRequest::CreateEntities { entities } => entities@.len() as int,
        MutationRequest::UpsertEntities { entities } => entities@.len() as int,
        MutationRequest::CreateRelations { relations } => relations@.len() as int,
        MutationRequest::MergeEntities { .. } => m.relations.len() as int,
        _ => 0,
    }
}

// ---------------------------------------------------------------------------
// Executing a request
// ---------------------------------------------------------------------------

/// The refusal with these words.
pub open spec fn refuses(e: MCSError, words: Seq<char>) -> bool {
    e matches MCSError::InvalidParams(m) && m@ == words
}

/// The live entity of that name, or the refusal.
fn require_entity(graph: &Graph, name: &str) -> (r: Result<EntitySnapshot>)
    ensures
        match r {
            Ok(s) => graph@.snapshot(name@) == Some(s@),
            Err(e) => graph@.snapshot(name@) is None && refuses(e, not_found(name@)),
        },
{
    match graph.read_entity(name) {
        Some(s) => Ok(s),
        None => Err(
            MCSError::InvalidParams("Entity '".to_owned().concat(name).concat("' not found")),
        ),
    }
}

/// An entity uses up at most one identifier of each sort.
proof fn lemma_create_entity_room(m: GraphModel, e: EntityData, now: int, n: int)
    requires
        m.room(n),
        n >= 1,
    ensures
        m.create_entity(e, now).0.room(n - 1),
{
    crate::graph::lemma_with_type_room(m, crate::graph::ENTITY_KIND as int, e.entity_type, n);
}

/// A relation uses up at most one identifier.
proof fn lemma_create_relation_room(m: GraphModel, r: RelationData, now: int, n: int)
    requires
        m.room(n),
        n >= 1,
    ensures
        m.create_relation(r, now).0.room(n - 1),
{
    crate::graph::lemma_with_type_room(m, crate::graph::RELATION_KIND as int, r.relation_type, n);
}

fn create_entities(graph: &mut Graph, entities: &Vec<Entity>, now: i64) -> (r: Vec<Entity>)
    requires
        old(graph)@.room(entities@.len() as int),
    ensures
        (final(graph)@, entities_data(r@)) == create_all(
            old(graph)@,
            entities_data(entities@),
            now as int,
        ),
{
    let ghost start = graph@;
    let ghost all = entities_data(entities@);
    let ghost n = entities@.len() as int;
    let mut created: Vec<Entity> = Vec::new();
    let mut i: usize = 0;
    assert(entities_data(created@) =~= Seq::<EntityData>::empty());
    assert(all.take(0) =~= Seq::<EntityData>::empty());
    while i < entities.len()
        invariant
            i <= entities@.len(),
            n == entities@.len(),
            all == entities_data(entities@),
            graph@.room(n - i),
            (graph@, entities_data(created@)) == create_all(start, all.take(i as int), now as int),
        decreases entities@.len() - i,
    {
        let ghost done = entities_data(created@);
        assert(all.take(i + 1).drop_last() =~= all.take(i as int));
        assert(all.take(i + 1).last() == entities@[i as int]@);
        proof {
            lemma_create_entity_room(graph@, entities@[i as int]@, now as int, n - i);
        }
        if graph.create_entity(&entities[i], now) {
            created.push(entities[i].clone());
            assert(entities_data(created@) =~= done.push(entities@[i as int]@));
        }
        i += 1;
    }
    assert(all.take(entities@.len() as int) =~= all);
    created
}

/// The texts of `list` that are not in `seen`, each once.
fn novel_texts(seen: &Vec<String>, list: &Vec<String>) -> (r: Vec<String>)
    ensures
        texts(r@) == novel(texts(seen@), texts(list@)),
{
    let ghost all = texts(list@);
    let mut out: Vec<String> = Vec::new();
    let mut i: usize = 0;
    assert(texts(out@) =~= novel(texts(seen@), all.take(0)));
    while i < list.len()
        invariant
            i <= list@.len(),
            all == texts(list@),
            texts(out@) == novel(texts(seen@), all.take(i as int)),
        decreases list@.len() - i,
    {
        let ghost done = texts(out@);
        assert(all.take(i + 1).drop_last() =~= all.take(i as int));
        assert(all.take(i + 1).last() == list@[i as int]@);
        if !crate::text::holds_text(seen, &list[i]) && !crate::text::holds_text(&out, &list[i]) {
            out.push(list[i].clone());
            assert(texts(out@) =~= done.push(list@[i as int]@));
        }
        i += 1;
    }
    assert(all.take(list@.len() as int) =~= all);
    out
}

fn upsert_entity(graph: &mut Graph, entity: &Entity, now: i64, Ghost(n): Ghost<int>) -> (r: Result<
    Option<Entity>,
>)
    requires
        old(graph)@.room(n),
        n >= 1,
    ensures
        match r {
            Ok(e) => final(graph)@.room(n - 1) && upsert_one(old(graph)@, entity@, now as int) == Ok::<
                (GraphModel, Option<EntityData>),
                Seq<char>,
            >(
                (
                    final(graph)@,
                    match e {
                        Some(x) => Some(x@),
                        None => None,
                    },
                ),
            ),
            Err(e) => (upsert_one(old(graph)@, entity@, now as int) matches Err(w) && refuses(e, w)),
        },
{
    match graph.read_entity(&entity.name) {
        Some(existing) => {
            proof {
                crate::graph::lemma_with_type_room(
                    graph@,
                    crate::graph::ENTITY_KIND as int,
                    entity.entity_type@,
                    n,
                );
            }
            if !same(&existing.entity_type, &entity.entity_type) {
                graph.retype(existing.entity_id, &entity.entity_type);
            }
            let added: Vec<String> = novel_texts(&existing.observations, &entity.observations);
            graph.insert_observations(existing.entity_id, &added);
            match require_entity(graph, &entity.name) {
                Ok(s) => Ok(Some(s.entity())),
                Err(e) => Err(e),
            }
        },
        None => {
            proof {
                lemma_create_entity_room(graph@, entity@, now as int, n);
            }
            if graph.create_entity(entity, now) {
                Ok(Some(entity.clone()))
            } else {
                Ok(None)
            }
        },
    }
}

fn upsert_entities(graph: &mut Graph, entities: &Vec<Entity>, now: i64) -> (r: Result<Vec<Entity>>)
    requires
        old(graph)@.room(entities@.len() as int),
    ensures
        match r {
            Ok(list) => upsert_all(old(graph)@, entities_data(entities@), now as int) == Ok::<
                (GraphModel, Seq<EntityData>),
                Seq<char>,
            >((final(graph)@, entities_data(list@))),
            Err(e) => (upsert_all(old(graph)@, entities_data(entities@), now as int) matches Err(w)
                && refuses(e, w)),
        },
{
    let ghost start = graph@;
    let ghost all = entities_data(entities@);
    let ghost n = entities@.len() as int;
    let mut list: Vec<Entity> = Vec::new();
    let mut i: usize = 0;
    assert(entities_data(list@) =~= Seq::<EntityData>::empty());
    assert(all.take(0) =~= Seq::<EntityData>::empty());
    while i < entities.len()
        invariant
            i <= entities@.len(),
            n == entities@.len(),
            all == entities_data(entities@),
            graph@.room(n - i),
            start == old(graph)@,
            upsert_all(start, all.take(i as int), now as int) == Ok::<
                (GraphModel, Seq<EntityData>),
                Seq<char>,
            >((graph@, entities_data(list@))),
        decreases entities@.len() - i,
    {
        let ghost done = entities_data(list@);
        assert(all.take(i + 1).drop_last() =~= all.take(i as int));
        assert(all.take(i + 1).last() == entities@[i as int]@);
        match upsert_entity(graph, &entities[i], now, Ghost(n - i)) {
            Ok(Some(e)) => {
                list.push(e);
                assert(entities_data(list@) =~= done.push(e@));
            },
            Ok(None) => {},
            Err(e) => {
                proof {
                    lemma_upsert_prefix(start, all, now as int, i + 1);
                }
                return Err(e);
            },
        }
        i += 1;
    }
    assert(all.take(entities@.len() as int) =~= all);
    Ok(list)
}

/// A refusal of an early entity is the refusal of the whole list.
proof fn lemma_upsert_prefix(m: GraphModel, es: Seq<EntityData>, now: int, k: int)
    requires
        0 <= k <= es.len(),
        upsert_all(m, es.take(k), now) is Err,
    ensures
        upsert_all(m, es, now) == upsert_all(m, es.take(k), now),
    decreases es.len() - k,
{
    if k < es.len() {
        assert(es.take(k + 1).drop_last() =~= es.take(k));
        lemma_upsert_prefix(m, es, now, k + 1);
    } else {
        assert(es.take(k) =~= es);
    }
}

fn create_relations(graph: &mut Graph, relations: &Vec<Relation>, now: i64) -> (r: Vec<Relation>)
    requires
        old(graph)@.room(relations@.len() as int),
    ensures
        (final(graph)@, relations_data(r@)) == relate_all(
            old(graph)@,
            relations_data(relations@),
            now as int,
        ),
{
    let ghost start = graph@;
    let ghost all = relations_data(relations@);
    let ghost n = relations@.len() as int;
    let mut created: Vec<Relation> = Vec::new();
    let mut i: usize = 0;
    assert(relations_data(created@) =~= Seq::<RelationData>::empty());
    assert(all.take(0) =~= Seq::<RelationData>::empty());
    while i < relations.len()
        invariant
            i <= relations@.len(),
            n == relations@.len(),
            all == relations_data(relations@),
            graph@.room(n - i),
            (graph@, relations_data(created@)) == relate_all(start, all.take(i as int), now as int),
        decreases relations@.len() - i,
    {
        let ghost done = relations_data(created@);
        assert(all.take(i + 1).drop_last() =~= all.take(i as int));
        assert(all.take(i + 1).last() == relations@[i as int]@);
        proof {
            lemma_create_relation_room(graph@, relations@[i as int]@, now as int, n - i);
        }
        if graph.create_relation(&relations[i], now) {
            created.push(relations[i].clone());
            assert(relations_data(created@) =~= done.push(relations@[i as int]@));
        }
        i += 1;
    }
    assert(all.take(relations@.len() as int) =~= all);
    created
}

fn delete_relations(graph: &mut Graph, relations: &Vec<Relation>)
    ensures
        final(graph)@ == unrelate_all(old(graph)@, relations_data(relations@)),
{
    let ghost start = graph@;
    let ghost all = relations_data(relations@);
    let mut i: usize = 0;
    assert(all.take(0) =~= Seq::<RelationData>::empty());
    while i < relations.len()
        invariant
            i <= relations@.len(),
            all == relations_data(relations@),
            graph@ == unrelate_all(start, all.take(i as int)),
        decreases relations@.len() - i,
    {
        assert(all.take(i + 1).drop_last() =~= all.take(i as int));
        assert(all.take(i + 1).last() == relations@[i as int]@);
        graph.delete_relation(&relations[i]);
        i += 1;
    }
    assert(all.take(relations@.len() as int) =~= all);
}

/// A refusal of an early update is the refusal of the whole list.
proof fn lemma_observe_prefix(m: GraphModel, us: Seq<ObservationData>, k: int)
    requires
        0 <= k <= us.len(),
        observe_all(m, us.take(k)) is Err,
    ensures
        observe_all(m, us) == observe_all(m, us.take(k)),
    decreases us.len() - k,
{
    if k < us.len() {
        assert(us.take(k + 1).drop_last() =~= us.take(k));
        lemma_observe_prefix(m, us, k + 1);
    } else {
        assert(us.take(k) =~= us);
    }
}

fn add_observations(graph: &mut Graph, updates: &Vec<ObservationUpdate>) -> (r: Result<
    Vec<ObservationResult>,
>)
    ensures
        match r {
            Ok(list) => observe_all(old(graph)@, updates_data(updates@)) == Ok::<
                (GraphModel, Seq<ObservationData>),
                Seq<char>,
            >((final(graph)@, results_data(list@))),
            Err(e) => (observe_all(old(graph)@, updates_data(updates@)) matches Err(w) && refuses(e, w)),
        },
{
    let ghost start = graph@;
    let ghost all = updates_data(updates@);
    let mut list: Vec<ObservationResult> = Vec::new();
    let mut i: usize = 0;
    assert(results_data(list@) =~= Seq::<ObservationData>::empty());
    assert(all.take(0) =~= Seq::<ObservationData>::empty());
    while i < updates.len()
        invariant
            i <= updates@.len(),
            all == updates_data(updates@),
            start == old(graph)@,
            observe_all(start, all.take(i as int)) == Ok::<
                (GraphModel, Seq<ObservationData>),
                Seq<char>,
            >((graph@, results_data(list@))),
        decreases updates@.len() - i,
    {
        let ghost done = results_data(list@);
        assert(all.take(i + 1).drop_last() =~= all.take(i as int));
        assert(all.take(i + 1).last() == updates@[i as int]@);
        match require_entity(graph, &updates[i].entity_name) {
            Ok(entity) => {
                graph.insert_observations(entity.entity_id, &updates[i].contents);
                let item: ObservationResult = ObservationResult {
                    entity_name: updates[i].entity_name.clone(),
                    added_observations: copy_texts(&updates[i].contents),
                };
                list.push(item);
                assert(results_data(list@) =~= done.push(item@));
            },
            Err(e) => {
                proof {
                    lemma_observe_prefix(start, all, i + 1);
                }
                return Err(e);
            },
        }
        i += 1;
    }
    assert(all.take(updates@.len() as int) =~= all);
    Ok(list)
}

/// A refusal of an early update is the refusal of the whole list.
proof fn lemma_forget_prefix(m: GraphModel, us: Seq<ObservationData>, k: int)
    requires
        0 <= k <= us.len(),
        forget_all(m, us.take(k)) is Err,
    ensures
        forget_all(m, us) == forget_all(m, us.take(k)),
    decreases us.len() - k,
{
    if k < us.len() {
        assert(us.take(k + 1).drop_last() =~= us.take(k));
        lemma_forget_prefix(m, us, k + 1);
    } else {
        assert(us.take(k) =~= us);
    }
}

fn delete_bodies(graph: &mut Graph, id: i64, bodies: &Vec<String>)
    ensures
        final(graph)@ == forget_bodies(old(graph)@, id as int, texts(bodies@)),
{
    let ghost start = graph@;
    let ghost all = texts(bodies@);
    let mut i: usize = 0;
    assert(all.take(0) =~= Seq::<Seq<char>>::empty());
    while i < bodies.len()
        invariant
            i <= bodies@.len(),
            all == texts(bodies@),
            graph@ == forget_bodies(start, id as int, all.take(i as int)),
        decreases bodies@.len() - i,
    {
        assert(all.take(i + 1).drop_last() =~= all.take(i as int));
        assert(all.take(i + 1).last() == bodies@[i as int]@);
        graph.delete_observations(id, &bodies[i]);
        i += 1;
    }
    assert(all.take(bodies@.len() as int) =~= all);
}

fn delete_observations(graph: &mut Graph, updates: &Vec<ObservationUpdate>) -> (r: Result<()>)
    ensures
        match r {
            Ok(_) => forget_all(old(graph)@, updates_data(updates@)) == Ok::<
                (GraphModel, ()),
                Seq<char>,
            >((final(graph)@, ())),
            Err(e) => (forget_all(old(graph)@, updates_data(updates@)) matches Err(w) && refuses(e, w)),
        },
{
    let ghost start = graph@;
    let ghost all = updates_data(updates@);
    let mut i: usize = 0;
    assert(all.take(0) =~= Seq::<ObservationData>::empty());
    while i < updates.len()
        invariant
            i <= updates@.len(),
            all == updates_data(updates@),
            start == old(graph)@,
            forget_all(start, all.take(i as int)) == Ok::<(GraphModel, ()), Seq<char>>((graph@, ())),
        decreases updates@.len() - i,
    {
        assert(all.take(i + 1).drop_last() =~= all.take(i as int));
        assert(all.take(i + 1).last() == updates@[i as int]@);
        if updates[i].contents.len() > 0 {
            match require_entity(graph, &updates[i].entity_name) {
                Ok(entity) => {
                    delete_bodies(graph, entity.entity_id, &updates[i].contents);
                },
                Err(e) => {
                    proof {
                        lemma_forget_prefix(start, all, i + 1);
                    }
                    return Err(e);
                },
            }
        }
        i += 1;
    }
    assert(all.take(updates@.len() as int) =~= all);
    Ok(())
}

/// No more relations are named than there are rows.
proof fn lemma_touching_len(m: GraphModel, rows: Seq<crate::graph::RelationModel>, names: Set<Seq<char>>)
    ensures
        m.touching(rows, names).len() <= rows.len(),
    decreases rows.len(),
{
    if rows.len() > 0 {
        lemma_touching_len(m, rows.drop_last(), names);
    }
}

fn merge_entities(graph: &mut Graph, source: &str, target: &str, now: i64) -> (r: Result<Entity>)
    requires
        old(graph)@.room(old(graph)@.relations.len() as int),
    ensures
        match r {
            Ok(e) => merge(old(graph)@, source@, target@, now as int) == Ok::<
                (GraphModel, EntityData),
                Seq<char>,
            >((final(graph)@, e@)),
            Err(e) => (merge(old(graph)@, source@, target@, now as int) matches Err(w) && refuses(
                e,
                w,
            )),
        },
{
    let ghost start = graph@;
    let old_entity: EntitySnapshot = match require_entity(graph, source) {
        Ok(s) => s,
        Err(e) => {
            return Err(e);
        },
    };
    let into: EntitySnapshot = match require_entity(graph, target) {
        Ok(s) => s,
        Err(e) => {
            return Err(e);
        },
    };
    if !same(source, target) {
        graph.insert_observations(into.entity_id, &old_entity.observations);
        let ghost h = graph@;
        let found: Vec<Relation> = graph.relations_for(source);
        let ghost ds = relations_data(found@);
        let mut moved: Vec<Relation> = Vec::new();
        let mut i: usize = 0;
        while i < found.len()
            invariant
                i <= found@.len(),
                ds == relations_data(found@),
                relations_data(moved@) == redirect_all(ds, source@, target@).take(i as int),
            decreases found@.len() - i,
        {
            let ghost done = relations_data(moved@);
            let d: &Relation = &found[i];
            assert(ds[i as int] == d@);
            let item: Relation = Relation {
                from: if same(&d.from, source) {
                    target.to_owned()
                } else {
                    d.from.clone()
                },
                to: if same(&d.to, source) {
                    target.to_owned()
                } else {
                    d.to.clone()
                },
                relation_type: d.relation_type.clone(),
            };
            assert(item@ =~= redirect(d@, source@, target@));
            moved.push(item);
            assert(relations_data(moved@) =~= done.push(item@));
            assert(relations_data(moved@) =~= redirect_all(ds, source@, target@).take(i + 1));
            i += 1;
        }
        assert(relations_data(moved@) =~= redirect_all(ds, source@, target@));
        proof {
            lemma_touching_len(h, h.relations, set![source@]);
            crate::types::lemma_sort_relations(h.touching(h.relations, set![source@]));
            assert(relations_data(moved@).len() == moved@.len());
            assert(h.relations == start.relations);
        }
        let _ = create_relations(graph, &moved, now);
        let mut gone: Vec<String> = Vec::new();
        gone.push(source.to_owned());
        let ghost related = graph@;
        graph.delete_entities(&gone);
        proof {
            assert(texts(gone@).drop_last() =~= Seq::<Seq<char>>::empty());
            assert(texts(gone@).last() == source@);
            assert(related.delete_entities(texts(gone@).drop_last()) == related);
            assert(graph@ == related.delete_entity(source@));
        }
    }
    match require_entity(graph, target) {
        Ok(s) => Ok(s.entity()),
        Err(e) => Err(e),
    }
}

fn rename_entity(graph: &mut Graph, old_name: &str, new_name: &str) -> (r: Result<Entity>)
    ensures
        match r {
            Ok(e) => rename(old(graph)@, old_name@, new_name@) == Ok::<
                (GraphModel, EntityData),
                Seq<char>,
            >((final(graph)@, e@)),
            Err(e) => (rename(old(graph)@, old_name@, new_name@) matches Err(w) && refuses(e, w)),
        },
{
    let entity: EntitySnapshot = match require_entity(graph, old_name) {
        Ok(s) => s,
        Err(e) => {
            return Err(e);
        },
    };
    if same(old_name, new_name) {
        return Ok(entity.entity());
    }
    if graph.read_entity(new_name).is_some() {
        return Err(
            MCSError::InvalidParams(
                "Entity '".to_owned().concat(new_name).concat("' already exists"),
            ),
        );
    }
    graph.rename(entity.entity_id, new_name);
    match require_entity(graph, new_name) {
        Ok(s) => Ok(s.entity()),
        Err(e) => Err(e),
    }
}

/// The entity itself and what it defines.
pub(crate) fn names_defined(graph: &Graph, name: &str) -> (r: TextSet)
    ensures
        r@ == defined_names(graph@, name@),
{
    let found: Vec<Relation> = graph.relations_for(name);
    let ghost ds = relations_data(found@);
    let mut names: TextSet = TextSet::new();
    names.insert(name);
    let mut i: usize = 0;
    while i < found.len()
        invariant
            i <= found@.len(),
            ds == relations_data(found@),
            forall|t: Seq<char>|
                names@.contains(t) <==> (t == name@ || exists|j: int|
                    0 <= j < i && #[trigger] ds[j] == (RelationData {
                        from: name@,
                        to: t,
                        relation_type: "defines"@,
                    })),
        decreases found@.len() - i,
    {
        let ghost prior = names@;
        let d: &Relation = &found[i];
        assert(ds[i as int] == d@);
        if same(&d.from, name) && same(&d.relation_type, "defines") {
            names.insert(&d.to);
            assert(ds[i as int] == (RelationData { from: name@, to: d.to@, relation_type: "defines"@ }));
        }
        i += 1;
    }
    proof {
        let want = defined_names(graph@, name@);
        assert forall|t: Seq<char>| names@.contains(t) <==> want.contains(t) by {
            let d = RelationData { from: name@, to: t, relation_type: "defines"@ };
            if ds.contains(d) {
                assert(ds[ds.index_of(d)] == d);
            }
        }
        assert(names@ =~= want);
    }
    names
}

/// The names of the live entities.
pub(crate) fn names_live(graph: &Graph) -> (r: TextSet)
    ensures
        r@ == live_names(graph@.entities).to_set(),
{
    let ghost es = graph@.entities;
    let mut names: TextSet = TextSet::new();
    let mut i: usize = 0;
    assert(live_names(es.take(0)).to_set() =~= Set::<Seq<char>>::empty());
    while i < graph.entities.len()
        invariant
            i <= graph.entities@.len(),
            es == graph@.entities,
            names@ == live_names(es.take(i as int)).to_set(),
        decreases graph.entities@.len() - i,
    {
        let ghost done = live_names(es.take(i as int));
        assert(es.take(i + 1).drop_last() =~= es.take(i as int));
        assert(es.take(i + 1).last() == graph.entities@[i as int]@);
        if graph.entities[i].flags == 0 {
            names.insert(&graph.entities[i].name);
            proof {
                let name = graph.entities@[i as int].name@;
                lemma_push_to_set(done, name);
            }
        }
        i += 1;
    }
    assert(es.take(graph.entities@.len() as int) =~= es);
    names
}

/// Appending an element to a list inserts it into the set of its elements.
pub proof fn lemma_push_to_set(s: Seq<Seq<char>>, x: Seq<char>)
    ensures
        s.push(x).to_set() == s.to_set().insert(x),
{
    assert forall|y: Seq<char>| s.push(x).to_set().contains(y) <==> s.to_set().insert(x).contains(y) by {
        if s.contains(y) {
            assert(s.push(x)[s.index_of(y)] == y);
        }
        assert(s.push(x)[s.len() as int] == x);
    }
    assert(s.push(x).to_set() =~= s.to_set().insert(x));
}

/// Applies a request to the rows.
pub fn execute(graph: &mut Graph, request: &MutationRequest, now: i64) -> (r: Result<MutationResult>)
    requires
        old(graph)@.room(demand(old(graph)@, *request)),
    ensures
        match r {
            Ok(x) => executed(old(graph)@, *request, now as int) == Ok::<
                (GraphModel, ResultData),
                Seq<char>,
            >((final(graph)@, x@)),
            Err(e) => (executed(old(graph)@, *request, now as int) matches Err(w) && refuses(e, w)),
        },
{
    match request {
        MutationRequest::CreateEntities { entities } => {
            let created: Vec<Entity> = create_entities(graph, entities, now);
            Ok(MutationResult::Entities(created))
        },
        MutationRequest::UpsertEntities { entities } => match upsert_entities(graph, entities, now) {
            Ok(list) => Ok(MutationResult::Entities(list)),
            Err(e) => Err(e),
        },
        MutationRequest::DeleteEntities { names } => {
            let set: TextSet = TextSet::from_list(names);
            graph.delete_entities(&set.to_vec());
            Ok(MutationResult::Unit)
        },
        MutationRequest::CreateRelations { relations } => {
            let created: Vec<Relation> = create_relations(graph, relations, now);
            Ok(MutationResult::Relations(created))
        },
        MutationRequest::DeleteRelations { relations } => {
            delete_relations(graph, relations);
            Ok(MutationResult::Unit)
        },
        MutationRequest::AddObservations { observations } => match add_observations(
            graph,
            observations,
        ) {
            Ok(list) => Ok(MutationResult::Observations(list)),
            Err(e) => Err(e),
        },
        MutationRequest::DeleteObservations { observations } => match delete_observations(
            graph,
            observations,
        ) {
            Ok(_) => Ok(MutationResult::Unit),
            Err(e) => Err(e),
        },
        MutationRequest::MergeEntities { source, target } => match merge_entities(
            graph,
            source,
            target,
            now,
        ) {
            Ok(entity) => Ok(MutationResult::Entity(entity)),
            Err(e) => Err(e),
        },
        MutationRequest::RenameEntity { old_name, new_name } => match rename_entity(
            graph,
            old_name,
            new_name,
        ) {
            Ok(entity) => Ok(MutationResult::Entity(entity)),
            Err(e) => Err(e),
        },
        MutationRequest::PurgeDefinedEntities { name } => {
            let names: Vec<String> = names_defined(graph, name).to_vec();
            graph.delete_entities(&names);
            assert(texts(names@).len() == names@.len());
            Ok(MutationResult::Count(names.len()))
        },
        MutationRequest::Compact => Ok(MutationResult::Unit),
        MutationRequest::Wipe => {
            let names: Vec<String> = names_live(graph).to_vec();
            graph.delete_entities(&names);
            Ok(MutationResult::Unit)
        },
    }
}

/// Which provenance a mutation may carry: an actor and an origin that can be read
/// and are at most 256 bytes, a correlation, at most fifteen hops with a cause for
/// each but the first, and a key of at most 128 bytes, if any.
pub proof fn law_which_provenance_is_valid(context: MutationContext)
    ensures
        context.valid() <==> {
            &&& trimmed(context.actor@).len() > 0 && encode_utf8(context.actor@).len() <= 256
            &&& forall|i: int| 0 <= i < context.actor@.len() ==> !control(#[trigger] context.actor@[i])
            &&& trimmed(context.origin@).len() > 0 && encode_utf8(context.origin@).len() <= 256
            &&& forall|i: int| 0 <= i < context.origin@.len() ==> !control(#[trigger] context.origin@[i])
            &&& context.correlation_id != 0 && context.hop_count <= 15
            &&& context.hop_count == 0 ==> context.causation_id is None
            &&& context.hop_count > 0 ==> (context.causation_id matches Some(c) && c != 0)
            &&& context.idempotency_key matches Some(k) ==> {
                &&& 0 < k@.len() && encode_utf8(k@).len() <= 128
                &&& forall|i: int| 0 <= i < k@.len() ==> !control(#[trigger] k@[i])
            }
        },
{
}

/// A request needs no more identifiers than it names things to create; one that
/// creates nothing needs none.
pub proof fn law_a_request_needs_no_more_than_it_names(m: GraphModel, request: MutationRequest)
    ensures
        request matches MutationRequest::CreateEntities { entities } ==> demand(m, request) <= entities@.len(),
        request matches MutationRequest::UpsertEntities { entities } ==> demand(m, request) <= entities@.len(),
        request matches MutationRequest::CreateRelations { relations } ==> demand(m, request) <= relations@.len(),
        request is MergeEntities ==> demand(m, request) <= m.relations.len(),
        request is DeleteEntities || request is DeleteRelations || request is AddObservations
            || request is DeleteObservations || request is RenameEntity || request is PurgeDefinedEntities
            || request is Compact || request is Wipe ==> demand(m, request) == 0,
{
}

/// Nothing of an update, of its report or of a result goes unseen, and a list shows
/// every item in its place.
pub proof fn law_nothing_goes_unseen(
    a: ObservationUpdate,
    b: ObservationResult,
    x: Seq<ObservationUpdate>,
    y: Seq<ObservationResult>,
    i: int,
)
    ensures
        a@.entity_name == a.entity_name@,
        a@.contents == texts(a.contents@),
        b@.entity_name == b.entity_name@,
        b@.contents == texts(b.added_observations@),
        updates_data(x).len() == x.len(),
        0 <= i < x.len() ==> updates_data(x)[i] == x[i]@,
        results_data(y).len() == y.len(),
        0 <= i < y.len() ==> results_data(y)[i] == y[i]@,
{
}

/// A result is seen as what it is, with everything it holds.
pub proof fn law_a_result_is_seen_whole(r: MutationResult)
    ensures
        r matches MutationResult::Entities(v) ==> (r@ matches ResultData::Entities(d) && d == entities_data(v@)),
        r matches MutationResult::Relations(v) ==> (r@ matches ResultData::Relations(d) && d == relations_data(v@)),
        r matches MutationResult::Observations(v) ==> (r@ matches ResultData::Observations(d) && d == results_data(
            v@,
        )),
        r matches MutationResult::Entity(e) ==> (r@ matches ResultData::Entity(d) && d == e@),
        r matches MutationResult::Count(n) ==> (r@ matches ResultData::Count(d) && d == n),
        r is Unit <==> r@ is Unit,
{
}

} // verus!
