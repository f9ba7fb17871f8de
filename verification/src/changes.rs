//! What a mutation changed: the rows of the affected names before and after
//! it, the difference between the two, and the counters that follow from it.
use vstd::prelude::*;

use crate::graph::{EntitySnapshot, Graph, GraphModel, SnapshotData};
use crate::mutation::{
    defined_names, live_names, names_defined, names_live, updates_data, MutationRequest,
    ObservationUpdate,
};
use crate::order::{ascending, lemma_listed_unique, listed, TextSet};
use crate::store::copy_opt;
use crate::text::{opt_text, same, same_texts, texts};
use crate::types::{
    copy_relations, entities_data, holds_relation, insert_relation, lemma_relations_listed_once, lists_relations,
    relations_ascending,
    relations_data, Entity, EntityData, Relation, RelationData,
};

verus! {

// ---------------------------------------------------------------------------
// The names that a request may change
// ---------------------------------------------------------------------------

/// The names that a list of entities mentions.
pub open spec fn entity_names(es: Seq<EntityData>) -> Set<Seq<char>> {
    Set::new(|n: Seq<char>| exists|i: int| 0 <= i < es.len() && (#[trigger] es[i]).name == n)
}

/// The names at the ends of a list of relations.
pub open spec fn end_names(ds: Seq<RelationData>) -> Set<Seq<char>> {
    Set::new(|n: Seq<char>| exists|i: int| 0 <= i < ds.len() && (#[trigger] ds[i]).touches(n))
}

/// The names that a list of updates mentions.
pub open spec fn update_names(us: Seq<crate::mutation::ObservationData>) -> Set<Seq<char>> {
    Set::new(|n: Seq<char>| exists|i: int| 0 <= i < us.len() && (#[trigger] us[i]).entity_name == n)
}

/// The names that a request itself speaks of.
pub open spec fn requested_names(m: GraphModel, request: MutationRequest) -> Set<Seq<char>> {
    match request {
        MutationRequest::CreateEntities { entities } => entity_names(entities_data(entities@)),
        MutationRequest::UpsertEntities { entities } => entity_names(entities_data(entities@)),
        MutationRequest::DeleteEntities { names } => texts(names@).to_set(),
        MutationRequest::CreateRelations { relations } => end_names(relations_data(relations@)),
        MutationRequest::DeleteRelations { relations } => end_names(relations_data(relations@)),
        MutationRequest::AddObservations { observations } => update_names(
            updates_data(observations@),
        ),
        MutationRequest::DeleteObservations { observations } => update_names(
            updates_data(observations@),
        ),
        MutationRequest::MergeEntities { source, target } => set![source@, target@],
        MutationRequest::RenameEntity { old_name, new_name } => set![old_name@, new_name@],
        MutationRequest::PurgeDefinedEntities { name } => defined_names(m, name@),
        MutationRequest::Compact => Set::empty(),
        MutationRequest::Wipe => live_names(m.entities).to_set(),
    }
}

/// Whether a request also changes the neighbours of what it speaks of.
pub open spec fn reaches_neighbours(request: MutationRequest) -> bool {
    match request {
        MutationRequest::DeleteEntities { .. } => true,
        MutationRequest::MergeEntities { .. } => true,
        MutationRequest::RenameEntity { .. } => true,
        MutationRequest::PurgeDefinedEntities { .. } => true,
        _ => false,
    }
}

/// The names whose rows a request may change.
pub open spec fn affected(m: GraphModel, request: MutationRequest) -> Set<Seq<char>> {
    let names = requested_names(m, request);
    if reaches_neighbours(request) {
        names.union(end_names(m.touching(m.relations, names)))
    } else {
        names
    }
}

fn add_entity_names(names: &mut TextSet, entities: &Vec<Entity>)
    ensures
        final(names)@ == old(names)@.union(entity_names(entities_data(entities@))),
{
    let ghost start = names@;
    let ghost es = entities_data(entities@);
    let mut i: usize = 0;
    while i < entities.len()
        invariant
            i <= entities@.len(),
            es == entities_data(entities@),
            forall|n: Seq<char>| #[trigger]
                names@.contains(n) <==> (start.contains(n) || exists|j: int|
                    0 <= j < i && (#[trigger] es[j]).name == n),
        decreases entities@.len() - i,
    {
        let ghost prior = names@;
        assert(es[i as int] == entities@[i as int]@);
        names.insert(&entities[i].name);
        i += 1;
        assert forall|n: Seq<char>| #[trigger]
            names@.contains(n) <==> (start.contains(n) || exists|j: int|
                0 <= j < i && (#[trigger] es[j]).name == n) by {
            assert(prior.contains(n) <==> (start.contains(n) || exists|j: int|
                0 <= j < i - 1 && (#[trigger] es[j]).name == n));
            assert(es[i - 1].name == entities@[i - 1].name@);
        }
    }
    assert(names@ =~= start.union(entity_names(es)));
}

fn add_end_names(names: &mut TextSet, relations: &Vec<Relation>)
    ensures
        final(names)@ == old(names)@.union(end_names(relations_data(relations@))),
{
    let ghost start = names@;
    let ghost ds = relations_data(relations@);
    let mut i: usize = 0;
    while i < relations.len()
        invariant
            i <= relations@.len(),
            ds == relations_data(relations@),
            forall|n: Seq<char>| #[trigger]
                names@.contains(n) <==> (start.contains(n) || exists|j: int|
                    0 <= j < i && (#[trigger] ds[j]).touches(n)),
        decreases relations@.len() - i,
    {
        let ghost prior = names@;
        assert(ds[i as int] == relations@[i as int]@);
        names.insert(&relations[i].from);
        names.insert(&relations[i].to);
        i += 1;
        assert forall|n: Seq<char>| #[trigger]
            names@.contains(n) <==> (start.contains(n) || exists|j: int|
                0 <= j < i && (#[trigger] ds[j]).touches(n)) by {
            assert(prior.contains(n) <==> (start.contains(n) || exists|j: int|
                0 <= j < i - 1 && (#[trigger] ds[j]).touches(n)));
            assert(ds[i - 1].touches(n) <==> n == relations@[i - 1].from@ || n == relations@[i - 1].to@);
        }
    }
    assert(names@ =~= start.union(end_names(ds)));
}

fn add_update_names(names: &mut TextSet, updates: &Vec<ObservationUpdate>)
    ensures
        final(names)@ == old(names)@.union(update_names(updates_data(updates@))),
{
    let ghost start = names@;
    let ghost us = updates_data(updates@);
    let mut i: usize = 0;
    while i < updates.len()
        invariant
            i <= updates@.len(),
            us == updates_data(updates@),
            forall|n: Seq<char>| #[trigger]
                names@.contains(n) <==> (start.contains(n) || exists|j: int|
                    0 <= j < i && (#[trigger] us[j]).entity_name == n),
        decreases updates@.len() - i,
    {
        let ghost prior = names@;
        assert(us[i as int] == updates@[i as int]@);
        names.insert(&updates[i].entity_name);
        i += 1;
        assert forall|n: Seq<char>| #[trigger]
            names@.contains(n) <==> (start.contains(n) || exists|j: int|
                0 <= j < i && (#[trigger] us[j]).entity_name == n) by {
            assert(prior.contains(n) <==> (start.contains(n) || exists|j: int|
                0 <= j < i - 1 && (#[trigger] us[j]).entity_name == n));
            assert(us[i - 1].entity_name == updates@[i - 1].entity_name@);
        }
    }
    assert(names@ =~= start.union(update_names(us)));
}

/// The names whose rows a request may change. Deleting, merging and renaming
/// change surviving neighbours too: they are resolved here, before any row is
/// gone.
pub fn affected_names(graph: &Graph, request: &MutationRequest) -> (r: TextSet)
    ensures
        r@ == affected(graph@, *request),
{
    let mut names: TextSet = TextSet::new();
    match request {
        MutationRequest::CreateEntities { entities } => {
            add_entity_names(&mut names, entities);
        },
        MutationRequest::UpsertEntities { entities } => {
            add_entity_names(&mut names, entities);
        },
        MutationRequest::DeleteEntities { names: gone } => {
            names = TextSet::from_list(gone);
        },
        MutationRequest::CreateRelations { relations } => {
            add_end_names(&mut names, relations);
        },
        MutationRequest::DeleteRelations { relations } => {
            add_end_names(&mut names, relations);
        },
        MutationRequest::AddObservations { observations } => {
            add_update_names(&mut names, observations);
        },
        MutationRequest::DeleteObservations { observations } => {
            add_update_names(&mut names, observations);
        },
        MutationRequest::MergeEntities { source, target } => {
            names.insert(source);
            names.insert(target);
            assert(names@ =~= set![source@, target@]);
        },
        MutationRequest::RenameEntity { old_name, new_name } => {
            names.insert(old_name);
            names.insert(new_name);
            assert(names@ =~= set![old_name@, new_name@]);
        },
        MutationRequest::PurgeDefinedEntities { name } => {
            names = names_defined(graph, name);
        },
        MutationRequest::Compact => {},
        MutationRequest::Wipe => {
            names = names_live(graph);
        },
    }
    assert(names@ =~= requested_names(graph@, *request));
    let near: bool = match request {
        MutationRequest::DeleteEntities { .. } => true,
        MutationRequest::MergeEntities { .. } => true,
        MutationRequest::RenameEntity { .. } => true,
        MutationRequest::PurgeDefinedEntities { .. } => true,
        _ => false,
    };
    if near {
        let found: Vec<Relation> = graph.relations_touching(&names);
        add_end_names(&mut names, &found);
    }
    names
}

// ---------------------------------------------------------------------------
// Capturing the rows of some names
// ---------------------------------------------------------------------------

/// The entities and relation rows of some names at one moment. The entities
/// are in the order of their names; a relation that is stored twice is listed
/// twice.
#[derive(Debug)]
pub struct Snapshot {
    pub entities: Vec<EntitySnapshot>,
    pub relation_rows: Vec<Relation>,
}

/// What a [`Snapshot`] holds.
#[verifier::ext_equal]
pub struct Captured {
    pub entities: Seq<SnapshotData>,
    pub rows: Seq<RelationData>,
}

/// What a list of entity snapshots holds.
pub open spec fn snapshots_data(v: Seq<EntitySnapshot>) -> Seq<SnapshotData> {
    v.map_values(|s: EntitySnapshot| s@)
}

impl View for Snapshot {
    type V = Captured;

    open spec fn view(&self) -> Captured {
        Captured {
            entities: snapshots_data(self.entities@),
            rows: relations_data(self.relation_rows@),
        }
    }
}

/// The live entities among some names.
pub open spec fn entities_of(m: GraphModel, names: Seq<Seq<char>>) -> Seq<SnapshotData>
    decreases names.len(),
{
    if names.len() == 0 {
        Seq::empty()
    } else {
        match m.snapshot(names.last()) {
            Some(s) => entities_of(m, names.drop_last()).push(s),
            None => entities_of(m, names.drop_last()),
        }
    }
}

/// The entities and relation rows of some names.
pub open spec fn captured(m: GraphModel, names: Set<Seq<char>>) -> Captured {
    Captured {
        entities: entities_of(m, listed(names)),
        rows: m.touching(m.relations, names),
    }
}

/// Reads the entities and relation rows of some names.
pub fn capture(graph: &Graph, names: &TextSet) -> (r: Snapshot)
    ensures
        r@ == captured(graph@, names@),
        r@.distinct(),
{
    let order: Vec<String> = names.to_vec();
    let ghost all = texts(order@);
    proof {
        lemma_captured_distinct(graph@, all);
    }
    let mut entities: Vec<EntitySnapshot> = Vec::new();
    let mut i: usize = 0;
    assert(snapshots_data(entities@) =~= entities_of(graph@, all.take(0)));
    while i < order.len()
        invariant
            i <= order@.len(),
            all == texts(order@),
            snapshots_data(entities@) == entities_of(graph@, all.take(i as int)),
        decreases order@.len() - i,
    {
        let ghost done = snapshots_data(entities@);
        assert(all.take(i + 1).drop_last() =~= all.take(i as int));
        assert(all.take(i + 1).last() == order@[i as int]@);
        match graph.read_entity(&order[i]) {
            Some(s) => {
                entities.push(s);
                assert(snapshots_data(entities@) =~= done.push(s@));
            },
            None => {},
        }
        i += 1;
    }
    assert(all.take(order@.len() as int) =~= all);
    let r: Snapshot = Snapshot { entities, relation_rows: graph.relations_touching(names) };
    proof {
        let bare = Captured { entities: entities_of(graph@, all), rows: Seq::empty() };
        assert forall|i: int, j: int| 0 <= i < j < r@.entities.len() implies (#[trigger] r@.entities[i]).name
            != (#[trigger] r@.entities[j]).name by {
            assert(bare.entities[i].name != bare.entities[j].name);
        }
    }
    r
}

// ---------------------------------------------------------------------------
// The difference between two captures
// ---------------------------------------------------------------------------

#[derive(Clone, Copy, Debug, PartialEq, Eq, Structural)]
pub enum ChangeOperation {
    Create,
    Update,
    Delete,
    Rename,
}

#[derive(Debug, PartialEq, Eq)]
pub struct RelationDelta {
    pub added: Vec<Relation>,
    pub removed: Vec<Relation>,
}

#[derive(Debug, PartialEq, Eq)]
pub struct EntityChange {
    pub operation: ChangeOperation,
    pub before: Option<EntitySnapshot>,
    pub after: Option<EntitySnapshot>,
    pub relation_delta: Option<RelationDelta>,
    pub old_name: Option<String>,
    pub new_name: Option<String>,
}

/// What a [`RelationDelta`] holds.
#[verifier::ext_equal]
pub struct DeltaData {
    pub added: Seq<RelationData>,
    pub removed: Seq<RelationData>,
}

/// What an [`EntityChange`] holds.
#[verifier::ext_equal]
pub struct ChangeData {
    pub operation: ChangeOperation,
    pub before: Option<SnapshotData>,
    pub after: Option<SnapshotData>,
    pub relation_delta: Option<DeltaData>,
    pub old_name: Option<Seq<char>>,
    pub new_name: Option<Seq<char>>,
}

/// What an optional snapshot holds.
pub open spec fn opt_snapshot(s: Option<EntitySnapshot>) -> Option<SnapshotData> {
    match s {
        Some(x) => Some(x@),
        None => None,
    }
}

impl View for EntityChange {
    type V = ChangeData;

    open spec fn view(&self) -> ChangeData {
        ChangeData {
            operation: self.operation,
            before: opt_snapshot(self.before),
            after: opt_snapshot(self.after),
            relation_delta: match self.relation_delta {
                Some(d) => Some(
                    DeltaData { added: relations_data(d.added@), removed: relations_data(d.removed@) },
                ),
                None => None,
            },
            old_name: opt_text(self.old_name),
            new_name: opt_text(self.new_name),
        }
    }
}

/// What a list of changes holds.
pub open spec fn changes_data(v: Seq<EntityChange>) -> Seq<ChangeData> {
    v.map_values(|c: EntityChange| c@)
}

fn copy_snapshot(s: &Option<EntitySnapshot>) -> (r: Option<EntitySnapshot>)
    ensures
        opt_snapshot(r) == opt_snapshot(*s),
{
    match s {
        Some(x) => Some(x.clone()),
        None => None,
    }
}

impl Clone for EntityChange {
    fn clone(&self) -> (r: Self)
        ensures
            r@ == self@,
    {
        EntityChange {
            operation: self.operation,
            before: copy_snapshot(&self.before),
            after: copy_snapshot(&self.after),
            relation_delta: match &self.relation_delta {
                Some(d) => Some(
                    RelationDelta {
                        added: copy_relations(&d.added),
                        removed: copy_relations(&d.removed),
                    },
                ),
                None => None,
            },
            old_name: copy_opt(&self.old_name),
            new_name: copy_opt(&self.new_name),
        }
    }
}

/// A copy of a list of changes.
pub fn copy_changes(v: &Vec<EntityChange>) -> (r: Vec<EntityChange>)
    ensures
        changes_data(r@) == changes_data(v@),
{
    let mut out: Vec<EntityChange> = Vec::new();
    let mut i: usize = 0;
    while i < v.len()
        invariant
            i <= v@.len(),
            changes_data(out@) =~= changes_data(v@).take(i as int),
        decreases v@.len() - i,
    {
        let ghost done = changes_data(out@);
        out.push(v[i].clone());
        assert(changes_data(out@) =~= done.push(changes_data(v@)[i as int]));
        i += 1;
    }
    assert(changes_data(v@).take(v@.len() as int) =~= changes_data(v@));
    out
}

impl ChangeData {
    /// The name of the entity that changed.
    pub open spec fn subject(self) -> Seq<char> {
        match (self.before, self.after) {
            (Some(s), _) => s.name,
            (None, Some(s)) => s.name,
            _ => Seq::empty(),
        }
    }
}

impl Captured {
    /// The entity of that name stands at `i`.
    pub open spec fn at(self, name: Seq<char>, i: int) -> bool {
        0 <= i < self.entities.len() && self.entities[i].name == name
    }

    /// The entity of that name.
    pub open spec fn entity(self, name: Seq<char>) -> Option<SnapshotData> {
        if exists|i: int| self.at(name, i) {
            Some(self.entities[choose|i: int| self.at(name, i)])
        } else {
            None
        }
    }

    /// No two entities have the same name.
    pub open spec fn distinct(self) -> bool {
        forall|i: int, j: int|
            0 <= i < j < self.entities.len() ==> (#[trigger] self.entities[i]).name != (
            #[trigger] self.entities[j]).name
    }
}

/// The relations of one entity that the second capture has and the first one
/// has not.
pub open spec fn gained(before: Captured, after: Captured, name: Seq<char>) -> Set<RelationData> {
    Set::new(
        |d: RelationData| d.touches(name) && after.rows.contains(d) && !before.rows.contains(d),
    )
}

/// Whether the entity of that name, or a relation of it, differs between the
/// captures.
pub open spec fn differs(before: Captured, after: Captured, name: Seq<char>) -> bool {
    &&& before.entity(name) is Some || after.entity(name) is Some
    &&& {
        ||| before.entity(name) != after.entity(name)
        ||| exists|d: RelationData| #[trigger] gained(before, after, name).contains(d)
        ||| exists|d: RelationData| #[trigger] gained(after, before, name).contains(d)
    }
}

/// The change tells exactly how the entity of that name differs.
pub open spec fn tells(c: ChangeData, before: Captured, after: Captured, name: Seq<char>) -> bool {
    &&& c.before == before.entity(name)
    &&& c.after == after.entity(name)
    &&& c.operation == (match (c.before, c.after) {
        (None, Some(_)) => ChangeOperation::Create,
        (Some(_), None) => ChangeOperation::Delete,
        _ => ChangeOperation::Update,
    })
    &&& match c.relation_delta {
        Some(d) => {
            &&& lists_relations(d.added, gained(before, after, name))
            &&& lists_relations(d.removed, gained(after, before, name))
            &&& d.added.len() > 0 || d.removed.len() > 0
        },
        None => {
            &&& forall|d: RelationData| !(#[trigger] gained(before, after, name).contains(d))
            &&& forall|d: RelationData| !(#[trigger] gained(after, before, name).contains(d))
        },
    }
    &&& c.old_name is None
    &&& c.new_name is None
}

/// The changes tell exactly what differs between the captures, one entity
/// after another in the order of their names.
pub open spec fn tell_all(cs: Seq<ChangeData>, before: Captured, after: Captured) -> bool {
    &&& ascending(cs.map_values(|c: ChangeData| c.subject()))
    &&& forall|i: int|
        0 <= i < cs.len() ==> {
            &&& tells(#[trigger] cs[i], before, after, cs[i].subject())
            &&& differs(before, after, cs[i].subject())
        }
    &&& forall|name: Seq<char>|
        differs(before, after, name) ==> exists|i: int|
            0 <= i < cs.len() && (#[trigger] cs[i]).subject() == name
}

impl Snapshot {
    /// The entity of that name.
    fn entity(&self, name: &str) -> (r: Option<&EntitySnapshot>)
        requires
            self@.distinct(),
        ensures
            match r {
                Some(s) => self@.entity(name@) == Some(s@),
                None => self@.entity(name@) is None,
            },
    {
        let ghost es = self@.entities;
        let mut i: usize = 0;
        while i < self.entities.len()
            invariant
                i <= self.entities@.len(),
                es == self@.entities,
                self@.distinct(),
                forall|j: int| 0 <= j < i ==> (#[trigger] es[j]).name != name@,
            decreases self.entities@.len() - i,
        {
            assert(es[i as int] == self.entities@[i as int]@);
            if same(&self.entities[i].name, name) {
                proof {
                    assert(self@.at(name@, i as int));
                    let k = choose|k: int| self@.at(name@, k);
                    assert(k == i);
                }
                return Some(&self.entities[i]);
            }
            i += 1;
        }
        assert forall|k: int| !self@.at(name@, k) by {
            if 0 <= k < es.len() {
                assert(es[k].name != name@);
            }
        }
        None
    }
}

/// Whether two snapshots hold the same.
fn same_snapshot(a: &EntitySnapshot, b: &EntitySnapshot) -> (r: bool)
    ensures
        r == (a@ == b@),
{
    a.entity_id == b.entity_id && same(&a.name, &b.name) && same(&a.entity_type, &b.entity_type)
        && same_texts(&a.observations, &b.observations)
}

/// The relations of one entity that `after` has and `before` has not.
fn gains(before: &Snapshot, after: &Snapshot, name: &str) -> (r: Vec<Relation>)
    ensures
        lists_relations(relations_data(r@), gained(before@, after@, name@)),
{
    let ghost rows = after@.rows;
    let mut out: Vec<Relation> = Vec::new();
    let mut i: usize = 0;
    while i < after.relation_rows.len()
        invariant
            i <= after.relation_rows@.len(),
            rows == after@.rows,
            relations_ascending(relations_data(out@)),
            forall|d: RelationData| #[trigger]
                relations_data(out@).contains(d) <==> (d.touches(name@) && !before@.rows.contains(d)
                    && exists|j: int| 0 <= j < i && #[trigger] rows[j] == d),
        decreases after.relation_rows@.len() - i,
    {
        let d: &Relation = &after.relation_rows[i];
        assert(rows[i as int] == d@);
        let ghost prior = relations_data(out@);
        if d.touches(name) && !holds_relation(&before.relation_rows, d) {
            insert_relation(&mut out, d);
        }
        i += 1;
        assert forall|x: RelationData| #[trigger]
            relations_data(out@).contains(x) <==> (x.touches(name@) && !before@.rows.contains(x)
                && exists|j: int| 0 <= j < i && #[trigger] rows[j] == x) by {
            assert(prior.contains(x) <==> (x.touches(name@) && !before@.rows.contains(x)
                && exists|j: int| 0 <= j < i - 1 && #[trigger] rows[j] == x));
            assert(rows[i - 1] == d@);
        }
    }
    out
}

/// The change of the entity of one name.
fn change_of(before: &Snapshot, after: &Snapshot, name: &str) -> (r: Option<EntityChange>)
    requires
        before@.distinct(),
        after@.distinct(),
        before@.entity(name@) is Some || after@.entity(name@) is Some,
    ensures
        match r {
            Some(c) => differs(before@, after@, name@) && tells(c@, before@, after@, name@)
                && c@.subject() == name@,
            None => !differs(before@, after@, name@),
        },
{
    let old_entity: Option<&EntitySnapshot> = before.entity(name);
    let new_entity: Option<&EntitySnapshot> = after.entity(name);
    let added: Vec<Relation> = gains(before, after, name);
    let removed: Vec<Relation> = gains(after, before, name);
    let unchanged: bool = match (&old_entity, &new_entity) {
        (Some(a), Some(b)) => same_snapshot(a, b),
        (None, None) => true,
        _ => false,
    };
    let has_delta: bool = added.len() > 0 || removed.len() > 0;
    proof {
        let (ad, rd) = (relations_data(added@), relations_data(removed@));
        if ad.len() > 0 {
            assert(ad.contains(ad[0]));
            assert(gained(before@, after@, name@).contains(ad[0]));
        }
        if rd.len() > 0 {
            assert(rd.contains(rd[0]));
            assert(gained(after@, before@, name@).contains(rd[0]));
        }
        if ad.len() == 0 {
            assert forall|d: RelationData| !(#[trigger] gained(before@, after@, name@).contains(d)) by {
                assert(!ad.contains(d));
            }
        }
        if rd.len() == 0 {
            assert forall|d: RelationData| !(#[trigger] gained(after@, before@, name@).contains(d)) by {
                assert(!rd.contains(d));
            }
        }
        assert(differs(before@, after@, name@) <==> !(unchanged && !has_delta));
    }
if unchanged && !has_delta {
        return None;
    }
    let operation: ChangeOperation = match (&old_entity, &new_entity) {
        (None, Some(_)) => ChangeOperation::Create,
        (Some(_), None) => ChangeOperation::Delete,
        _ => ChangeOperation::Update,
    };
    let relation_delta: Option<RelationDelta> = if has_delta {
        Some(RelationDelta { added, removed })
    } else {
        None
    };
    proof {
        lemma_entity_name(before@, name@);
        lemma_entity_name(after@, name@);
    }
    Some(
        EntityChange {
            operation,
            before: match old_entity {
                Some(s) => Some(s.clone()),
                None => None,
            },
            after: match new_entity {
                Some(s) => Some(s.clone()),
                None => None,
            },
            relation_delta,
            old_name: None,
            new_name: None,
        },
    )
}

/// The changes tell what differs among some names, given in order.
#[verifier::opaque]
pub open spec fn told(
    cs: Seq<ChangeData>,
    names: Seq<Seq<char>>,
    before: Captured,
    after: Captured,
) -> bool {
    &&& ascending(cs.map_values(|c: ChangeData| c.subject()))
    &&& forall|i: int|
        0 <= i < cs.len() ==> {
            &&& tells(#[trigger] cs[i], before, after, cs[i].subject())
            &&& differs(before, after, cs[i].subject())
            &&& names.contains(cs[i].subject())
        }
    &&& forall|j: int|
        0 <= j < names.len() && differs(before, after, #[trigger] names[j]) ==> exists|i: int|
            0 <= i < cs.len() && (#[trigger] cs[i]).subject() == names[j]
}

proof fn lemma_ascending_take(names: Seq<Seq<char>>, n: int)
    requires
        ascending(names),
        0 <= n <= names.len(),
    ensures
        ascending(names.take(n)),
{
    let t = names.take(n);
    assert forall|p: int, q: int| 0 <= p < q < t.len() implies crate::order::before(
        #[trigger] t[p],
        #[trigger] t[q],
    ) by {
        assert(crate::order::before(names[p], names[q]));
    }
}

proof fn lemma_told_push(
    cs: Seq<ChangeData>,
    names: Seq<Seq<char>>,
    c: ChangeData,
    before: Captured,
    after: Captured,
)
    requires
        told(cs, names, before, after),
        ascending(names.push(c.subject())),
        tells(c, before, after, c.subject()),
        differs(before, after, c.subject()),
    ensures
        told(cs.push(c), names.push(c.subject()), before, after),
{
    reveal(told);
    let name = c.subject();
    let all = names.push(name);
    let now = cs.push(c);
    let subjects = now.map_values(|c: ChangeData| c.subject());
    let past = cs.map_values(|c: ChangeData| c.subject());
    assert(subjects =~= past.push(name));
    assert forall|p: int, q: int| 0 <= p < q < subjects.len() implies crate::order::before(
        #[trigger] subjects[p],
        #[trigger] subjects[q],
    ) by {
        if q == past.len() {
            assert(cs[p].subject() == past[p]);
            let j = names.index_of(cs[p].subject());
            assert(crate::order::before(all[j], all[names.len() as int]));
        } else {
            assert(past[p] == subjects[p] && past[q] == subjects[q]);
        }
    }
    assert forall|i: int| 0 <= i < now.len() implies {
        &&& tells(#[trigger] now[i], before, after, now[i].subject())
        &&& differs(before, after, now[i].subject())
        &&& all.contains(now[i].subject())
    } by {
        if i < cs.len() {
            assert(now[i] == cs[i]);
            assert(all[names.index_of(cs[i].subject())] == now[i].subject());
        } else {
            assert(all[names.len() as int] == now[i].subject());
        }
    }
    assert forall|j: int| 0 <= j < all.len() && differs(before, after, #[trigger] all[j]) implies exists|i: int|
        0 <= i < now.len() && (#[trigger] now[i]).subject() == all[j] by {
        if j < names.len() {
            assert(names[j] == all[j]);
            let i = choose|i: int| 0 <= i < cs.len() && (#[trigger] cs[i]).subject() == names[j];
            assert(now[i].subject() == all[j]);
        } else {
            assert(now[cs.len() as int].subject() == all[j]);
        }
    }
}

proof fn lemma_told_skip(
    cs: Seq<ChangeData>,
    names: Seq<Seq<char>>,
    name: Seq<char>,
    before: Captured,
    after: Captured,
)
    requires
        told(cs, names, before, after),
        !differs(before, after, name),
    ensures
        told(cs, names.push(name), before, after),
{
    reveal(told);
    let all = names.push(name);
    assert forall|i: int| 0 <= i < cs.len() implies all.contains((#[trigger] cs[i]).subject()) by {
        assert(all[names.index_of(cs[i].subject())] == cs[i].subject());
    }
    assert forall|j: int| 0 <= j < all.len() && differs(before, after, #[trigger] all[j]) implies exists|i: int|
        0 <= i < cs.len() && (#[trigger] cs[i]).subject() == all[j] by {
        assert(names[j] == all[j]);
    }
}

/// The changes between two captures.
pub fn effective_changes(before: &Snapshot, after: &Snapshot) -> (r: Vec<EntityChange>)
    requires
        before@.distinct(),
        after@.distinct(),
    ensures
        tell_all(changes_data(r@), before@, after@),
{
    let mut union: TextSet = TextSet::new();
    let mut i: usize = 0;
    while i < before.entities.len()
        invariant
            i <= before.entities@.len(),
            forall|n: Seq<char>|
                union@.contains(n) <==> exists|j: int|
                    0 <= j < i && (#[trigger] before@.entities[j]).name == n,
        decreases before.entities@.len() - i,
    {
        assert(before@.entities[i as int] == before.entities@[i as int]@);
        union.insert(&before.entities[i].name);
        i += 1;
    }
    let mut k: usize = 0;
    while k < after.entities.len()
        invariant
            k <= after.entities@.len(),
            forall|n: Seq<char>|
                union@.contains(n) <==> ((exists|j: int|
                    0 <= j < before@.entities.len() && (#[trigger] before@.entities[j]).name == n)
                    || exists|j: int| 0 <= j < k && (#[trigger] after@.entities[j]).name == n),
        decreases after.entities@.len() - k,
    {
        assert(after@.entities[k as int] == after.entities@[k as int]@);
        union.insert(&after.entities[k].name);
        k += 1;
    }
    let names: Vec<String> = union.to_vec();
    let ghost all = texts(names@);
    proof {
        assert forall|n: Seq<char>| #[trigger] all.contains(n) <==> (before@.entity(n) is Some || after@.entity(
            n,
        ) is Some) by {
            assert(all.to_set().contains(n) <==> all.contains(n));
            if before@.entity(n) is Some {
                let j = choose|j: int| before@.at(n, j);
                assert(before@.entities[j].name == n);
            }
            if after@.entity(n) is Some {
                let j = choose|j: int| after@.at(n, j);
                assert(after@.entities[j].name == n);
            }
            if all.contains(n) {
                assert(union@.contains(n));
                if exists|j: int| 0 <= j < before@.entities.len() && (#[trigger] before@.entities[j]).name == n {
                    let j = choose|j: int|
                        0 <= j < before@.entities.len() && (#[trigger] before@.entities[j]).name == n;
                    assert(before@.at(n, j));
                } else {
                    let j = choose|j: int|
                        0 <= j < after@.entities.len() && (#[trigger] after@.entities[j]).name == n;
                    assert(after@.at(n, j));
                }
            }
        }
    }
    let mut out: Vec<EntityChange> = Vec::new();
    let mut n: usize = 0;
    proof {
        reveal(told);
    }
    while n < names.len()
        invariant
            n <= names@.len(),
            all == texts(names@),
            ascending(all),
            before@.distinct(),
            after@.distinct(),
            forall|x: Seq<char>| #[trigger]
                all.contains(x) <==> (before@.entity(x) is Some || after@.entity(x) is Some),
            told(changes_data(out@), all.take(n as int), before@, after@),
        decreases names@.len() - n,
    {
        let name: &String = &names[n];
        assert(all[n as int] == name@);
        assert(all.contains(name@));
        let ghost prior = changes_data(out@);
        assert(all.take(n + 1) =~= all.take(n as int).push(name@));
        assert(ascending(all.take(n + 1))) by {
            lemma_ascending_take(all, n + 1);
        }
        match change_of(before, after, name) {
            Some(change) => {
                let ghost c = change@;
                out.push(change);
                proof {
                    assert(changes_data(out@) =~= prior.push(c));
                    lemma_told_push(prior, all.take(n as int), c, before@, after@);
                }
            },
            None => {
                proof {
                    lemma_told_skip(prior, all.take(n as int), name@, before@, after@);
                }
            },
        }
        n += 1;
    }
    proof {
        let cs = changes_data(out@);
        reveal(told);
        assert(all.take(names@.len() as int) =~= all);
        assert forall|name: Seq<char>| differs(before@, after@, name) implies exists|i: int|
            0 <= i < cs.len() && (#[trigger] cs[i]).subject() == name by {
            assert(all.contains(name));
            assert(all[all.index_of(name)] == name);
        }
    }
    out
}

/// An entity that is found by a name has that name.
proof fn lemma_entity_name(c: Captured, name: Seq<char>)
    ensures
        c.entity(name) matches Some(s) ==> s.name == name,
{
    if exists|i: int| c.at(name, i) {
        let i = choose|i: int| c.at(name, i);
        assert(c.at(name, i));
    }
}

/// The change that a renaming is reported as.
pub open spec fn renamed(
    before: Captured,
    after: Captured,
    old_name: Seq<char>,
    new_name: Seq<char>,
) -> Seq<ChangeData> {
    match (before.entity(old_name), after.entity(new_name)) {
        (Some(b), Some(a)) => seq![
            ChangeData {
                operation: ChangeOperation::Rename,
                before: Some(b),
                after: Some(a),
                relation_delta: None,
                old_name: Some(old_name),
                new_name: Some(new_name),
            },
        ],
        _ => Seq::empty(),
    }
}

/// Reports a renaming.
pub fn rename_changes(before: &Snapshot, after: &Snapshot, old_name: &str, new_name: &str) -> (r: Vec<
    EntityChange,
>)
    requires
        before@.distinct(),
        after@.distinct(),
    ensures
        changes_data(r@) == renamed(before@, after@, old_name@, new_name@),
{
    let mut out: Vec<EntityChange> = Vec::new();
    match (before.entity(old_name), after.entity(new_name)) {
        (Some(b), Some(a)) => {
            let change: EntityChange = EntityChange {
                operation: ChangeOperation::Rename,
                before: Some(b.clone()),
                after: Some(a.clone()),
                relation_delta: None,
                old_name: Some(old_name.to_owned()),
                new_name: Some(new_name.to_owned()),
            };
            out.push(change);
        },
        _ => {},
    }
    assert(changes_data(out@) =~= renamed(before@, after@, old_name@, new_name@));
    out
}

/// A capture has no two entities of the same name.
pub proof fn lemma_captured_distinct(m: GraphModel, names: Seq<Seq<char>>)
    requires
        ascending(names),
    ensures
        (Captured { entities: entities_of(m, names), rows: Seq::empty() }).distinct(),
        forall|i: int|
            0 <= i < entities_of(m, names).len() ==> {
                &&& names.contains((#[trigger] entities_of(m, names)[i]).name)
                &&& m.snapshot(entities_of(m, names)[i].name) == Some(entities_of(m, names)[i])
            },
        forall|k: int|
            0 <= k < names.len() && m.snapshot(#[trigger] names[k]) is Some ==> entities_of(
                m,
                names,
            ).contains(m.snapshot(names[k])->0),
    decreases names.len(),
{
    if names.len() > 0 {
        let rest = names.drop_last();
        assert forall|p: int, q: int| 0 <= p < q < rest.len() implies crate::order::before(
            #[trigger] rest[p],
            #[trigger] rest[q],
        ) by {
            assert(crate::order::before(names[p], names[q]));
        }
        lemma_captured_distinct(m, rest);
        let (es, fs) = (entities_of(m, names), entities_of(m, rest));
        let name = names.last();
        lemma_snapshot_name(m, name);
        assert forall|i: int| 0 <= i < fs.len() implies rest.contains((#[trigger] fs[i]).name) && names.contains(
            fs[i].name,
        ) && fs[i].name != name by {
            let k = rest.index_of(fs[i].name);
            assert(names[k] == rest[k]);
            assert(crate::order::before(names[k], names[names.len() - 1]));
            crate::order::lemma_before_irreflexive(name);
        }
        if m.snapshot(name) is Some {
            let s = m.snapshot(name)->0;
            assert(es =~= fs.push(s));
            assert(names[names.len() - 1] == name);
            assert forall|i: int, j: int| 0 <= i < j < es.len() implies (#[trigger] es[i]).name != (
            #[trigger] es[j]).name by {
                if j < fs.len() {
                    let c = Captured { entities: fs, rows: Seq::empty() };
                    assert(es[i] == c.entities[i] && es[j] == c.entities[j]);
                } else {
                    assert(es[i] == fs[i]);
                }
            }
            assert forall|i: int| 0 <= i < es.len() implies {
                &&& names.contains((#[trigger] es[i]).name)
                &&& m.snapshot(es[i].name) == Some(es[i])
            } by {
                if i < fs.len() {
                    assert(es[i] == fs[i]);
                }
            }
        }
        assert forall|k: int| 0 <= k < names.len() && m.snapshot(#[trigger] names[k]) is Some implies es.contains(
            m.snapshot(names[k])->0,
        ) by {
            if k < rest.len() {
                assert(rest[k] == names[k]);
                let s = m.snapshot(names[k])->0;
                assert(fs.contains(s));
                assert(es[fs.index_of(s)] == s);
            } else {
                assert(es.last() == m.snapshot(names[k])->0);
            }
        }
    }
}

/// A snapshot that is found by a name has that name.
pub proof fn lemma_snapshot_name(m: GraphModel, name: Seq<char>)
    ensures
        m.snapshot(name) matches Some(s) ==> s.name == name,
{
}

/// A change told the other way round.
pub open spec fn mirrored(c: ChangeData) -> ChangeData {
    ChangeData {
        operation: match c.operation {
            ChangeOperation::Create => ChangeOperation::Delete,
            ChangeOperation::Delete => ChangeOperation::Create,
            other => other,
        },
        before: c.after,
        after: c.before,
        relation_delta: match c.relation_delta {
            Some(d) => Some(DeltaData { added: d.removed, removed: d.added }),
            None => None,
        },
        old_name: None,
        new_name: None,
    }
}

proof fn lemma_differs_both_ways(a: Captured, b: Captured, name: Seq<char>)
    ensures
        differs(a, b, name) == differs(b, a, name),
{
}

proof fn lemma_subjects_differ(cs: Seq<ChangeData>, a: Captured, b: Captured, name: Seq<char>)
    requires
        tell_all(cs, a, b),
    ensures
        cs.map_values(|c: ChangeData| c.subject()).to_set().contains(name) <==> differs(a, b, name),
{
    let names = cs.map_values(|c: ChangeData| c.subject());
    if names.contains(name) {
        let i = names.index_of(name);
        assert(cs[i].subject() == name);
    }
    if differs(a, b, name) {
        let i = choose|i: int| 0 <= i < cs.len() && (#[trigger] cs[i]).subject() == name;
        assert(names[i] == name);
    }
}

proof fn lemma_tells_both_ways(x: ChangeData, y: ChangeData, a: Captured, b: Captured, name: Seq<char>)
    requires
        tells(x, a, b, name),
        tells(y, b, a, name),
        differs(a, b, name),
    ensures
        y == mirrored(x),
{
    let (won, lost) = (gained(a, b, name), gained(b, a, name));
    match (x.relation_delta, y.relation_delta) {
        (Some(d), Some(e)) => {
            lemma_relations_listed_once(d.added, e.removed, won);
            lemma_relations_listed_once(d.removed, e.added, lost);
        },
        (Some(d), None) => {
            if d.added.len() > 0 {
                assert(d.added.contains(d.added[0]));
                assert(won.contains(d.added[0]));
            } else {
                assert(d.removed.contains(d.removed[0]));
                assert(lost.contains(d.removed[0]));
            }
        },
        (None, Some(e)) => {
            if e.added.len() > 0 {
                assert(e.added.contains(e.added[0]));
                assert(lost.contains(e.added[0]));
            } else {
                assert(e.removed.contains(e.removed[0]));
                assert(won.contains(e.removed[0]));
            }
        },
        (None, None) => {},
    }
}

/// The changes from one capture to another, taken the other way round, are the
/// changes back, in the same order. Between a capture and itself nothing
/// changes.
pub proof fn law_changes_back_mirror_the_changes(
    a: Captured,
    b: Captured,
    there: Seq<ChangeData>,
    back: Seq<ChangeData>,
    same: Seq<ChangeData>,
)
    requires
        tell_all(there, a, b),
        tell_all(back, b, a),
        tell_all(same, a, a),
    ensures
        back == there.map_values(|c: ChangeData| mirrored(c)),
        same.len() == 0,
{
    let xs = there.map_values(|c: ChangeData| c.subject());
    let ys = back.map_values(|c: ChangeData| c.subject());
    assert forall|n: Seq<char>| xs.to_set().contains(n) <==> ys.to_set().contains(n) by {
        lemma_subjects_differ(there, a, b, n);
        lemma_subjects_differ(back, b, a, n);
        lemma_differs_both_ways(a, b, n);
    }
    assert(xs.to_set() =~= ys.to_set());
    lemma_listed_unique(xs, ys);
    assert(xs.len() == there.len() && ys.len() == back.len());
    assert forall|i: int| 0 <= i < there.len() implies back[i] == mirrored(#[trigger] there[i]) by {
        assert(xs[i] == there[i].subject());
        assert(ys[i] == back[i].subject());
        lemma_tells_both_ways(there[i], back[i], a, b, xs[i]);
    }
    assert(back =~= there.map_values(|c: ChangeData| mirrored(c)));
    if same.len() > 0 {
        assert(differs(a, a, same[0].subject()));
    }
}

/// Nothing of a capture or of a change goes unseen, and a list shows
/// every item in its place.
pub proof fn law_nothing_goes_unseen(
    a: Snapshot,
    b: EntityChange,
    x: Seq<EntitySnapshot>,
    y: Seq<EntityChange>,
    i: int,
)
    ensures
        a@.entities == snapshots_data(a.entities@),
        a@.rows == relations_data(a.relation_rows@),
        b@.operation == b.operation,
        b@.before is Some <==> b.before is Some,
        b.before matches Some(s) ==> b@.before == Some(s@),
        b@.after is Some <==> b.after is Some,
        b.after matches Some(s) ==> b@.after == Some(s@),
        b@.relation_delta is Some <==> b.relation_delta is Some,
        b.relation_delta matches Some(d) ==> b@.relation_delta->0.added == relations_data(d.added@)
            && b@.relation_delta->0.removed == relations_data(d.removed@),
        b@.old_name == opt_text(b.old_name),
        b@.new_name == opt_text(b.new_name),
        snapshots_data(x).len() == x.len(),
        0 <= i < x.len() ==> snapshots_data(x)[i] == x[i]@,
        changes_data(y).len() == y.len(),
        0 <= i < y.len() ==> changes_data(y)[i] == y[i]@,
{
}

} // verus!
