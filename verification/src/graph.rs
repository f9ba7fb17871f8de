//! The stored graph: entity, relation and type rows with the counters that
//! are kept beside them, and the row operations that every write is made of.
use vstd::prelude::*;

use crate::text::{copy_texts, same, texts};
use crate::types::{
    Entity, EntityData, Relation, RelationData, relations_data, sort_relations, sorted_relations,
};

verus! {

/// The kind of a type row that entities refer to.
pub const ENTITY_KIND: i64 = 0;

/// The kind of a type row that relations refer to.
pub const RELATION_KIND: i64 = 1;

/// One entity row with its observations, in their order.
#[derive(Debug)]
pub struct EntityRow {
    pub id: i64,
    pub name: String,
    pub type_id: i64,
    pub observations: Vec<String>,
    pub obs_count: i64,
    pub out_deg: i64,
    pub in_deg: i64,
    pub created_us: i64,
    pub updated_us: i64,
    /// Zero for a live entity.
    pub flags: i64,
}

/// One physical relation row. The rows of a [`Graph`] stand in the order in
/// which they were stored.
#[derive(Clone, Copy, Debug)]
pub struct RelationRow {
    pub from_id: i64,
    pub to_id: i64,
    pub type_id: i64,
    pub created_us: i64,
}

/// One row of the type dictionary.
#[derive(Debug)]
pub struct TypeRow {
    pub id: i64,
    pub kind: i64,
    pub name: String,
    pub count: i64,
}

/// The stored totals. A damaged store may miss any of them.
#[derive(Clone, Copy, Debug)]
pub struct GraphStat {
    pub entities: Option<i64>,
    pub relations: Option<i64>,
    pub observations: Option<i64>,
}

#[derive(Debug)]
pub struct Graph {
    pub entities: Vec<EntityRow>,
    pub relations: Vec<RelationRow>,
    pub types: Vec<TypeRow>,
    pub stat: GraphStat,
    pub next_entity_id: i64,
}

/// One entity as it is currently stored.
#[derive(Debug, PartialEq, Eq)]
pub struct EntitySnapshot {
    pub entity_id: i64,
    pub name: String,
    pub entity_type: String,
    pub observations: Vec<String>,
}

/// What an [`EntityRow`] holds.
#[verifier::ext_equal]
pub struct EntityModel {
    pub id: int,
    pub name: Seq<char>,
    pub type_id: int,
    pub observations: Seq<Seq<char>>,
    pub obs_count: int,
    pub out_deg: int,
    pub in_deg: int,
    pub created_us: int,
    pub updated_us: int,
    pub flags: int,
}

/// What a [`TypeRow`] holds.
#[verifier::ext_equal]
pub struct TypeModel {
    pub id: int,
    pub kind: int,
    pub name: Seq<char>,
    pub count: int,
}

/// What a [`RelationRow`] holds.
#[verifier::ext_equal]
pub struct RelationModel {
    pub from_id: int,
    pub to_id: int,
    pub type_id: int,
    pub created_us: int,
}

/// What a [`GraphStat`] holds.
#[verifier::ext_equal]
pub struct StatModel {
    pub entities: Option<int>,
    pub relations: Option<int>,
    pub observations: Option<int>,
}

/// What a [`Graph`] holds.
#[verifier::ext_equal]
pub struct GraphModel {
    pub entities: Seq<EntityModel>,
    pub relations: Seq<RelationModel>,
    pub types: Seq<TypeModel>,
    pub stat: StatModel,
    pub next_entity_id: int,
}

/// What an [`EntitySnapshot`] holds.
#[verifier::ext_equal]
pub struct SnapshotData {
    pub entity_id: int,
    pub name: Seq<char>,
    pub entity_type: Seq<char>,
    pub observations: Seq<Seq<char>>,
}

impl View for EntityRow {
    type V = EntityModel;

    open spec fn view(&self) -> EntityModel {
        EntityModel {
            id: self.id as int,
            name: self.name@,
            type_id: self.type_id as int,
            observations: texts(self.observations@),
            obs_count: self.obs_count as int,
            out_deg: self.out_deg as int,
            in_deg: self.in_deg as int,
            created_us: self.created_us as int,
            updated_us: self.updated_us as int,
            flags: self.flags as int,
        }
    }
}

impl View for TypeRow {
    type V = TypeModel;

    open spec fn view(&self) -> TypeModel {
        TypeModel {
            id: self.id as int,
            kind: self.kind as int,
            name: self.name@,
            count: self.count as int,
        }
    }
}

impl View for RelationRow {
    type V = RelationModel;

    open spec fn view(&self) -> RelationModel {
        RelationModel {
            from_id: self.from_id as int,
            to_id: self.to_id as int,
            type_id: self.type_id as int,
            created_us: self.created_us as int,
        }
    }
}

/// The number that an optional counter holds.
pub open spec fn opt_int(n: Option<i64>) -> Option<int> {
    match n {
        Some(v) => Some(v as int),
        None => None,
    }
}

impl View for GraphStat {
    type V = StatModel;

    open spec fn view(&self) -> StatModel {
        StatModel {
            entities: opt_int(self.entities),
            relations: opt_int(self.relations),
            observations: opt_int(self.observations),
        }
    }
}

/// What a list of entity rows holds.
pub open spec fn entity_models(v: Seq<EntityRow>) -> Seq<EntityModel> {
    v.map_values(|e: EntityRow| e@)
}

/// What a list of relation rows holds.
pub open spec fn relation_models(v: Seq<RelationRow>) -> Seq<RelationModel> {
    v.map_values(|r: RelationRow| r@)
}

/// What a list of type rows holds.
pub open spec fn type_models(v: Seq<TypeRow>) -> Seq<TypeModel> {
    v.map_values(|t: TypeRow| t@)
}

impl View for Graph {
    type V = GraphModel;

    open spec fn view(&self) -> GraphModel {
        GraphModel {
            entities: entity_models(self.entities@),
            relations: relation_models(self.relations@),
            types: type_models(self.types@),
            stat: self.stat@,
            next_entity_id: self.next_entity_id as int,
        }
    }
}

impl View for EntitySnapshot {
    type V = SnapshotData;

    open spec fn view(&self) -> SnapshotData {
        SnapshotData {
            entity_id: self.entity_id as int,
            name: self.name@,
            entity_type: self.entity_type@,
            observations: texts(self.observations@),
        }
    }
}

impl SnapshotData {
    /// The entity without its identifier.
    pub open spec fn entity(self) -> EntityData {
        EntityData {
            name: self.name,
            entity_type: self.entity_type,
            observations: self.observations,
        }
    }
}

impl Clone for EntitySnapshot {
    fn clone(&self) -> (r: Self)
        ensures
            r@ == self@,
    {
        EntitySnapshot {
            entity_id: self.entity_id,
            name: self.name.clone(),
            entity_type: self.entity_type.clone(),
            observations: copy_texts(&self.observations),
        }
    }
}

impl EntitySnapshot {
    /// The entity without its identifier.
    pub fn entity(&self) -> (r: Entity)
        ensures
            r@ == self@.entity(),
    {
        Entity {
            name: self.name.clone(),
            entity_type: self.entity_type.clone(),
            observations: copy_texts(&self.observations),
        }
    }
}

// ---------------------------------------------------------------------------
// Looking rows up
// ---------------------------------------------------------------------------

/// A live entity of that name.
pub open spec fn live_named(e: EntityModel, name: Seq<char>) -> bool {
    e.flags == 0 && e.name == name
}

/// The first live entity of that name stands at `i`.
pub open spec fn first_live(es: Seq<EntityModel>, name: Seq<char>, i: int) -> bool {
    &&& 0 <= i < es.len()
    &&& live_named(es[i], name)
    &&& forall|j: int| 0 <= j < i ==> !live_named(#[trigger] es[j], name)
}

/// Where the live entity of that name stands.
pub open spec fn find_live(es: Seq<EntityModel>, name: Seq<char>) -> Option<int> {
    if exists|i: int| first_live(es, name, i) {
        Some(choose|i: int| first_live(es, name, i))
    } else {
        None
    }
}

/// The first entity with that identifier stands at `i`.
pub open spec fn first_id(es: Seq<EntityModel>, id: int, i: int) -> bool {
    &&& 0 <= i < es.len()
    &&& es[i].id == id
    &&& forall|j: int| 0 <= j < i ==> (#[trigger] es[j]).id != id
}

/// Where the entity with that identifier stands.
pub open spec fn find_id(es: Seq<EntityModel>, id: int) -> Option<int> {
    if exists|i: int| first_id(es, id, i) {
        Some(choose|i: int| first_id(es, id, i))
    } else {
        None
    }
}

/// The first type of that kind and name stands at `i`.
pub open spec fn first_type(ts: Seq<TypeModel>, kind: int, name: Seq<char>, i: int) -> bool {
    &&& 0 <= i < ts.len()
    &&& ts[i].kind == kind && ts[i].name == name
    &&& forall|j: int| 0 <= j < i ==> !((#[trigger] ts[j]).kind == kind && ts[j].name == name)
}

/// Where the type of that kind and name stands.
pub open spec fn find_type(ts: Seq<TypeModel>, kind: int, name: Seq<char>) -> Option<int> {
    if exists|i: int| first_type(ts, kind, name, i) {
        Some(choose|i: int| first_type(ts, kind, name, i))
    } else {
        None
    }
}

/// The first type with that identifier stands at `i`.
pub open spec fn first_type_id(ts: Seq<TypeModel>, id: int, i: int) -> bool {
    &&& 0 <= i < ts.len()
    &&& ts[i].id == id
    &&& forall|j: int| 0 <= j < i ==> (#[trigger] ts[j]).id != id
}

/// Where the type with that identifier stands.
pub open spec fn find_type_id(ts: Seq<TypeModel>, id: int) -> Option<int> {
    if exists|i: int| first_type_id(ts, id, i) {
        Some(choose|i: int| first_type_id(ts, id, i))
    } else {
        None
    }
}

impl GraphModel {
    /// The live entity of that name whose type is known.
    pub open spec fn snapshot(self, name: Seq<char>) -> Option<SnapshotData> {
        match find_live(self.entities, name) {
            Some(i) => match find_type_id(self.types, self.entities[i].type_id) {
                Some(k) => Some(
                    SnapshotData {
                        entity_id: self.entities[i].id,
                        name: self.entities[i].name,
                        entity_type: self.types[k].name,
                        observations: self.entities[i].observations,
                    },
                ),
                None => None,
            },
            None => None,
        }
    }

    /// A relation row with the names that its identifiers stand for, if both
    /// ends are live and the type is known.
    pub open spec fn named(self, r: RelationModel) -> Option<RelationData> {
        match (
            find_id(self.entities, r.from_id),
            find_id(self.entities, r.to_id),
            find_type_id(self.types, r.type_id),
        ) {
            (Some(f), Some(t), Some(k)) => if self.entities[f].flags == 0 && self.entities[t].flags == 0 {
                Some(
                    RelationData {
                        from: self.entities[f].name,
                        to: self.entities[t].name,
                        relation_type: self.types[k].name,
                    },
                )
            } else {
                None
            },
            _ => None,
        }
    }

    /// The named rows among `rows` that begin or end at one of `names`.
    pub open spec fn touching(self, rows: Seq<RelationModel>, names: Set<Seq<char>>) -> Seq<RelationData>
        decreases rows.len(),
    {
        if rows.len() == 0 {
            Seq::empty()
        } else {
            let head = self.touching(rows.drop_last(), names);
            match self.named(rows.last()) {
                Some(d) => if names.contains(d.from) || names.contains(d.to) {
                    head.push(d)
                } else {
                    head
                },
                None => head,
            }
        }
    }

    /// The relations of one entity, in order; a relation that is stored twice
    /// is listed twice.
    pub open spec fn relations_of(self, name: Seq<char>) -> Seq<RelationData> {
        sort_relations(self.touching(self.relations, set![name]))
    }
}

impl Graph {
    /// Where the live entity of that name stands.
    fn position_live(&self, name: &str) -> (r: Option<usize>)
        ensures
            match r {
                Some(i) => find_live(self@.entities, name@) == Some(i as int) && i < self.entities@.len(),
                None => find_live(self@.entities, name@) is None,
            },
    {
        let ghost es = self@.entities;
        let mut i: usize = 0;
        while i < self.entities.len()
            invariant
                i <= self.entities@.len(),
                es == self@.entities,
                forall|j: int| 0 <= j < i ==> !live_named(#[trigger] es[j], name@),
            decreases self.entities@.len() - i,
        {
            assert(es[i as int] == self.entities@[i as int]@);
            if self.entities[i].flags == 0 && same(&self.entities[i].name, name) {
                proof {
                    assert(first_live(es, name@, i as int));
                    let k = choose|k: int| first_live(es, name@, k);
                    assert(k == i);
                }
                return Some(i);
            }
            i += 1;
        }
        None
    }

    /// Where the entity with that identifier stands.
    fn position_id(&self, id: i64) -> (r: Option<usize>)
        ensures
            match r {
                Some(i) => find_id(self@.entities, id as int) == Some(i as int) && i < self.entities@.len(),
                None => find_id(self@.entities, id as int) is None,
            },
    {
        let ghost es = self@.entities;
        let mut i: usize = 0;
        while i < self.entities.len()
            invariant
                i <= self.entities@.len(),
                es == self@.entities,
                forall|j: int| 0 <= j < i ==> (#[trigger] es[j]).id != id,
            decreases self.entities@.len() - i,
        {
            assert(es[i as int] == self.entities@[i as int]@);
            if self.entities[i].id == id {
                proof {
                    assert(first_id(es, id as int, i as int));
                    let k = choose|k: int| first_id(es, id as int, k);
                    assert(k == i);
                }
                return Some(i);
            }
            i += 1;
        }
        None
    }

    /// Where the type of that kind and name stands.
    fn position_type(&self, kind: i64, name: &str) -> (r: Option<usize>)
        ensures
            match r {
                Some(i) => find_type(self@.types, kind as int, name@) == Some(i as int) && i
                    < self.types@.len(),
                None => find_type(self@.types, kind as int, name@) is None,
            },
    {
        let ghost ts = self@.types;
        let mut i: usize = 0;
        while i < self.types.len()
            invariant
                i <= self.types@.len(),
                ts == self@.types,
                forall|j: int|
                    0 <= j < i ==> !((#[trigger] ts[j]).kind == kind && ts[j].name == name@),
            decreases self.types@.len() - i,
        {
            assert(ts[i as int] == self.types@[i as int]@);
            if self.types[i].kind == kind && same(&self.types[i].name, name) {
                proof {
                    assert(first_type(ts, kind as int, name@, i as int));
                    let k = choose|k: int| first_type(ts, kind as int, name@, k);
                    assert(k == i);
                }
                return Some(i);
            }
            i += 1;
        }
        None
    }

    /// Where the type with that identifier stands.
    fn position_type_id(&self, id: i64) -> (r: Option<usize>)
        ensures
            match r {
                Some(i) => find_type_id(self@.types, id as int) == Some(i as int) && i
                    < self.types@.len(),
                None => find_type_id(self@.types, id as int) is None,
            },
    {
        let ghost ts = self@.types;
        let mut i: usize = 0;
        while i < self.types.len()
            invariant
                i <= self.types@.len(),
                ts == self@.types,
                forall|j: int| 0 <= j < i ==> (#[trigger] ts[j]).id != id,
            decreases self.types@.len() - i,
        {
            assert(ts[i as int] == self.types@[i as int]@);
            if self.types[i].id == id {
                proof {
                    assert(first_type_id(ts, id as int, i as int));
                    let k = choose|k: int| first_type_id(ts, id as int, k);
                    assert(k == i);
                }
                return Some(i);
            }
            i += 1;
        }
        None
    }

    /// Reads the live entity of that name.
    pub fn read_entity(&self, name: &str) -> (r: Option<EntitySnapshot>)
        ensures
            match r {
                Some(s) => self@.snapshot(name@) == Some(s@),
                None => self@.snapshot(name@) is None,
            },
    {
        match self.position_live(name) {
            Some(i) => {
                let row: &EntityRow = &self.entities[i];
                assert(self@.entities[i as int] == row@);
                match self.position_type_id(row.type_id) {
                    Some(k) => {
                        assert(self@.types[k as int] == self.types@[k as int]@);
                        Some(
                            EntitySnapshot {
                                entity_id: row.id,
                                name: row.name.clone(),
                                entity_type: self.types[k].name.clone(),
                                observations: copy_texts(&row.observations),
                            },
                        )
                    },
                    None => None,
                }
            },
            None => None,
        }
    }

    /// Names the ends and the type of a relation row.
    pub fn name_relation(&self, row: &RelationRow) -> (r: Option<Relation>)
        ensures
            match r {
                Some(d) => self@.named(row@) == Some(d@),
                None => self@.named(row@) is None,
            },
    {
        match (
            self.position_id(row.from_id),
            self.position_id(row.to_id),
            self.position_type_id(row.type_id),
        ) {
            (Some(f), Some(t), Some(k)) => {
                assert(self@.entities[f as int] == self.entities@[f as int]@);
                assert(self@.entities[t as int] == self.entities@[t as int]@);
                assert(self@.types[k as int] == self.types@[k as int]@);
                if self.entities[f].flags == 0 && self.entities[t].flags == 0 {
                    Some(
                        Relation {
                            from: self.entities[f].name.clone(),
                            to: self.entities[t].name.clone(),
                            relation_type: self.types[k].name.clone(),
                        },
                    )
                } else {
                    None
                }
            },
            _ => None,
        }
    }

    /// Every stored relation that begins or ends at one of the names, row by
    /// row.
    pub fn relations_touching(&self, names: &crate::order::TextSet) -> (r: Vec<Relation>)
        ensures
            relations_data(r@) == self@.touching(self@.relations, names@),
    {
        let mut out: Vec<Relation> = Vec::new();
        let mut i: usize = 0;
        let ghost rows = self@.relations;
        assert(relations_data(out@) =~= self@.touching(rows.take(0), names@));
        while i < self.relations.len()
            invariant
                i <= self.relations@.len(),
                rows == self@.relations,
                relations_data(out@) == self@.touching(rows.take(i as int), names@),
            decreases self.relations@.len() - i,
        {
            let ghost done = out@;
            assert(rows.take(i + 1).drop_last() =~= rows.take(i as int));
            assert(rows.take(i + 1).last() == self.relations@[i as int]@);
            match self.name_relation(&self.relations[i]) {
                Some(d) => {
                    if names.contains(&d.from) || names.contains(&d.to) {
                        out.push(d);
                        assert(relations_data(out@) =~= relations_data(done).push(d@));
                    }
                },
                None => {},
            }
            i += 1;
        }
        assert(rows.take(self.relations@.len() as int) =~= rows);
        out
    }

    /// The relations of one entity, in order.
    pub fn relations_for(&self, name: &str) -> (r: Vec<Relation>)
        ensures
            relations_data(r@) == self@.relations_of(name@),
    {
        let mut names: crate::order::TextSet = crate::order::TextSet::new();
        names.insert(name);
        assert(names@ =~= set![name@]);
        sorted_relations(self.relations_touching(&names))
    }
}

// ---------------------------------------------------------------------------
// Writing rows
// ---------------------------------------------------------------------------

/// The largest identifier of a type, or zero.
pub open spec fn top_type_id(ts: Seq<TypeModel>) -> int
    decreases ts.len(),
{
    if ts.len() == 0 {
        0
    } else {
        let below = top_type_id(ts.drop_last());
        if ts.last().id > below {
            ts.last().id
        } else {
            below
        }
    }
}

/// The entity rows with those of one identifier replaced.
pub open spec fn rewrite(
    es: Seq<EntityModel>,
    id: int,
    f: spec_fn(EntityModel) -> EntityModel,
) -> Seq<EntityModel> {
    es.map_values(
        |e: EntityModel|
            if e.id == id {
                f(e)
            } else {
                e
            },
    )
}

/// The entity rows without those of one identifier.
pub open spec fn entities_without(es: Seq<EntityModel>, id: int) -> Seq<EntityModel>
    decreases es.len(),
{
    if es.len() == 0 {
        es
    } else if es.last().id == id {
        entities_without(es.drop_last(), id)
    } else {
        entities_without(es.drop_last(), id).push(es.last())
    }
}

/// The relation rows without those that begin or end at one identifier.
pub open spec fn relations_without(rs: Seq<RelationModel>, id: int) -> Seq<RelationModel>
    decreases rs.len(),
{
    if rs.len() == 0 {
        rs
    } else if rs.last().from_id == id || rs.last().to_id == id {
        relations_without(rs.drop_last(), id)
    } else {
        relations_without(rs.drop_last(), id).push(rs.last())
    }
}

/// Whether the row joins these ends by this type.
pub open spec fn joins(r: RelationModel, from_id: int, to_id: int, type_id: int) -> bool {
    r.from_id == from_id && r.to_id == to_id && r.type_id == type_id
}

/// Whether some row joins these ends by this type.
pub open spec fn joined(rs: Seq<RelationModel>, from_id: int, to_id: int, type_id: int) -> bool {
    exists|i: int| 0 <= i < rs.len() && joins(#[trigger] rs[i], from_id, to_id, type_id)
}

/// A live entity with that identifier and that name.
pub open spec fn id_names(es: Seq<EntityModel>, id: int, name: Seq<char>) -> bool {
    exists|i: int| 0 <= i < es.len() && (#[trigger] es[i]).id == id && live_named(es[i], name)
}

/// A relation type with that identifier and that name.
pub open spec fn type_names(ts: Seq<TypeModel>, id: int, name: Seq<char>) -> bool {
    exists|i: int|
        0 <= i < ts.len() && (#[trigger] ts[i]).id == id && ts[i].kind == RELATION_KIND && ts[i].name
            == name
}

/// The bodies that are not `body`.
pub open spec fn bodies_without(bodies: Seq<Seq<char>>, body: Seq<char>) -> Seq<Seq<char>>
    decreases bodies.len(),
{
    if bodies.len() == 0 {
        bodies
    } else if bodies.last() == body {
        bodies_without(bodies.drop_last(), body)
    } else {
        bodies_without(bodies.drop_last(), body).push(bodies.last())
    }
}

/// The entity with a list appended to its observations.
pub open spec fn observing(e: EntityModel, more: Seq<Seq<char>>) -> EntityModel {
    EntityModel { observations: e.observations + more, ..e }
}

/// The entity without the observations that say `body`.
pub open spec fn forgetting(e: EntityModel, body: Seq<char>) -> EntityModel {
    EntityModel { observations: bodies_without(e.observations, body), ..e }
}

impl GraphModel {
    /// Fresh identifiers remain for `n` more entities and `n` more types.
    pub open spec fn room(self, n: int) -> bool {
        self.next_entity_id + n <= i64::MAX && top_type_id(self.types) + n <= i64::MAX
    }

    /// The graph with a type of that kind and name in its dictionary.
    pub open spec fn with_type(self, kind: int, name: Seq<char>) -> GraphModel {
        if find_type(self.types, kind, name) is Some {
            self
        } else {
            GraphModel {
                types: self.types.push(
                    TypeModel { id: top_type_id(self.types) + 1, kind, name, count: 0 },
                ),
                ..self
            }
        }
    }

    /// The identifier of the type of that kind and name.
    pub open spec fn type_id(self, kind: int, name: Seq<char>) -> int {
        match find_type(self.types, kind, name) {
            Some(i) => self.types[i].id,
            None => top_type_id(self.types) + 1,
        }
    }

    /// The graph with a new entity, and whether there is one: an entity
    /// without a name or with a name that is taken is not created.
    pub open spec fn create_entity(self, e: EntityData, now: int) -> (GraphModel, bool) {
        if e.name.len() == 0 || self.snapshot(e.name) is Some {
            (self, false)
        } else {
            let typed = self.with_type(ENTITY_KIND as int, e.entity_type);
            (
                GraphModel {
                    entities: self.entities.push(
                        EntityModel {
                            id: self.next_entity_id,
                            name: e.name,
                            type_id: self.type_id(ENTITY_KIND as int, e.entity_type),
                            observations: e.observations,
                            obs_count: 0,
                            out_deg: 0,
                            in_deg: 0,
                            created_us: now,
                            updated_us: now,
                            flags: 0,
                        },
                    ),
                    next_entity_id: self.next_entity_id + 1,
                    ..typed
                },
                true,
            )
        }
    }

    /// The graph with a new relation row, and whether there is one: both ends
    /// must be live, and the relation must not be stored yet.
    pub open spec fn create_relation(self, r: RelationData, now: int) -> (GraphModel, bool) {
        match (self.snapshot(r.from), self.snapshot(r.to)) {
            (Some(f), Some(t)) => {
                let typed = self.with_type(RELATION_KIND as int, r.relation_type);
                let type_id = self.type_id(RELATION_KIND as int, r.relation_type);
                if joined(self.relations, f.entity_id, t.entity_id, type_id) {
                    (typed, false)
                } else {
                    (
                        GraphModel {
                            relations: self.relations.push(
                                RelationModel {
                                    from_id: f.entity_id,
                                    to_id: t.entity_id,
                                    type_id,
                                    created_us: now,
                                },
                            ),
                            ..typed
                        },
                        true,
                    )
                }
            },
            _ => (self, false),
        }
    }

    /// The graph with observations appended to an entity.
    pub open spec fn insert_observations(self, id: int, more: Seq<Seq<char>>) -> GraphModel {
        GraphModel {
            entities: rewrite(self.entities, id, |e: EntityModel| observing(e, more)),
            ..self
        }
    }

    /// The graph without the observations of an entity that say `body`.
    pub open spec fn delete_observations(self, id: int, body: Seq<char>) -> GraphModel {
        GraphModel {
            entities: rewrite(self.entities, id, |e: EntityModel| forgetting(e, body)),
            ..self
        }
    }

    /// The graph with an entity of another type.
    pub open spec fn retype(self, id: int, entity_type: Seq<char>) -> GraphModel {
        let type_id = self.type_id(ENTITY_KIND as int, entity_type);
        GraphModel {
            entities: rewrite(self.entities, id, |e: EntityModel| EntityModel { type_id, ..e }),
            ..self.with_type(ENTITY_KIND as int, entity_type)
        }
    }

    /// The graph with an entity of another name.
    pub open spec fn rename(self, id: int, name: Seq<char>) -> GraphModel {
        GraphModel {
            entities: rewrite(self.entities, id, |e: EntityModel| EntityModel { name, ..e }),
            ..self
        }
    }

    /// The graph without an entity, its observations and its relations.
    pub open spec fn delete_id(self, id: int) -> GraphModel {
        GraphModel {
            entities: entities_without(self.entities, id),
            relations: relations_without(self.relations, id),
            ..self
        }
    }

    /// Whether a relation row is one of those that `d` describes.
    pub open spec fn describes(self, d: RelationData, r: RelationModel) -> bool {
        &&& id_names(self.entities, r.from_id, d.from)
        &&& id_names(self.entities, r.to_id, d.to)
        &&& type_names(self.types, r.type_id, d.relation_type)
    }

    /// The rows among `rows` that `d` does not describe.
    pub open spec fn rows_except(self, rows: Seq<RelationModel>, d: RelationData) -> Seq<RelationModel>
        decreases rows.len(),
    {
        if rows.len() == 0 {
            rows
        } else if self.describes(d, rows.last()) {
            self.rows_except(rows.drop_last(), d)
        } else {
            self.rows_except(rows.drop_last(), d).push(rows.last())
        }
    }

    /// The graph without the rows of a relation.
    pub open spec fn delete_relation(self, d: RelationData) -> GraphModel {
        GraphModel { relations: self.rows_except(self.relations, d), ..self }
    }

    /// The graph without the live entity of that name.
    pub open spec fn delete_entity(self, name: Seq<char>) -> GraphModel {
        match self.snapshot(name) {
            Some(s) => self.delete_id(s.entity_id),
            None => self,
        }
    }

    /// The graph without the live entities of those names.
    pub open spec fn delete_entities(self, names: Seq<Seq<char>>) -> GraphModel
        decreases names.len(),
    {
        if names.len() == 0 {
            self
        } else {
            self.delete_entities(names.drop_last()).delete_entity(names.last())
        }
    }
}

/// The largest type identifier bounds every other.
pub proof fn lemma_top_type_id(ts: Seq<TypeModel>)
    ensures
        forall|i: int| 0 <= i < ts.len() ==> (#[trigger] ts[i]).id <= top_type_id(ts),
        top_type_id(ts) >= 0,
    decreases ts.len(),
{
    if ts.len() > 0 {
        lemma_top_type_id(ts.drop_last());
        assert forall|i: int| 0 <= i < ts.len() implies (#[trigger] ts[i]).id <= top_type_id(ts) by {
            if i < ts.len() - 1 {
                assert(ts.drop_last()[i] == ts[i]);
            }
        }
    }
}

/// A type uses up at most one identifier.
pub proof fn lemma_with_type_room(m: GraphModel, kind: int, name: Seq<char>, n: int)
    requires
        m.room(n),
        n >= 1,
    ensures
        m.with_type(kind, name).room(n - 1),
{
    let t = m.with_type(kind, name);
    if find_type(m.types, kind, name) is None {
        assert(t.types.drop_last() =~= m.types);
    }
}

impl Graph {
    /// The largest identifier of a type, or zero.
    fn top_type(&self) -> (r: i64)
        ensures
            r == top_type_id(self@.types),
    {
        let ghost ts = self@.types;
        let mut top: i64 = 0;
        let mut i: usize = 0;
        assert(ts.take(0) =~= Seq::<TypeModel>::empty());
        while i < self.types.len()
            invariant
                i <= self.types@.len(),
                ts == self@.types,
                top == top_type_id(ts.take(i as int)),
            decreases self.types@.len() - i,
        {
            assert(ts.take(i + 1).drop_last() =~= ts.take(i as int));
            assert(ts.take(i + 1).last() == self.types@[i as int]@);
            if self.types[i].id > top {
                top = self.types[i].id;
            }
            i += 1;
        }
        assert(ts.take(self.types@.len() as int) =~= ts);
        top
    }

    /// Whether fresh identifiers remain for `n` more entities and types.
    pub fn has_room(&self, n: usize) -> (r: bool)
        ensures
            r == self@.room(n as int),
    {
        let top: i64 = self.top_type();
        self.next_entity_id as i128 + n as i128 <= i64::MAX as i128 && top as i128 + n as i128
            <= i64::MAX as i128
    }

    /// Finds a type, or adds it to the dictionary.
    fn type_id(&mut self, kind: i64, name: &str) -> (r: i64)
        requires
            old(self)@.room(1),
        ensures
            final(self)@ == old(self)@.with_type(kind as int, name@),
            r == old(self)@.type_id(kind as int, name@),
    {
        match self.position_type(kind, name) {
            Some(i) => {
                assert(self@.types[i as int] == self.types@[i as int]@);
                self.types[i].id
            },
            None => {
                let id: i64 = self.top_type() + 1;
                let ghost start = self@.types;
                self.types.push(TypeRow { id, kind, name: name.to_owned(), count: 0 });
                assert(self@.types =~= start.push(
                    TypeModel { id: id as int, kind: kind as int, name: name@, count: 0 },
                ));
                id
            },
        }
    }

    /// Adds an entity. Returns whether it was created.
    pub fn create_entity(&mut self, entity: &Entity, now: i64) -> (r: bool)
        requires
            old(self)@.room(1),
        ensures
            (final(self)@, r) == old(self)@.create_entity(entity@, now as int),
    {
        if entity.name.as_str().is_empty() || self.read_entity(&entity.name).is_some() {
            return false;
        }
        let id: i64 = self.next_entity_id;
        let ghost start = self@;
        let type_id: i64 = self.type_id(ENTITY_KIND, &entity.entity_type);
        let ghost typed = self@;
        let row: EntityRow = EntityRow {
            id,
            name: entity.name.clone(),
            type_id,
            observations: copy_texts(&entity.observations),
            obs_count: 0,
            out_deg: 0,
            in_deg: 0,
            created_us: now,
            updated_us: now,
            flags: 0,
        };
        let ghost model = row@;
        self.entities.push(row);
        self.next_entity_id = id + 1;
        assert(self@.entities =~= start.entities.push(model));
        assert(self@ =~= start.create_entity(entity@, now as int).0);
        true
    }

    /// Whether some row joins these ends by this type.
    fn is_joined(&self, from_id: i64, to_id: i64, type_id: i64) -> (r: bool)
        ensures
            r == joined(self@.relations, from_id as int, to_id as int, type_id as int),
    {
        let ghost rs = self@.relations;
        let mut i: usize = 0;
        while i < self.relations.len()
            invariant
                i <= self.relations@.len(),
                rs == self@.relations,
                forall|j: int|
                    0 <= j < i ==> !joins(#[trigger] rs[j], from_id as int, to_id as int, type_id as int),
            decreases self.relations@.len() - i,
        {
            let row: RelationRow = self.relations[i];
            assert(rs[i as int] == row@);
            if row.from_id == from_id && row.to_id == to_id && row.type_id == type_id {
                assert(joins(rs[i as int], from_id as int, to_id as int, type_id as int));
                return true;
            }
            i += 1;
        }
        false
    }

    /// Adds a relation row. Returns whether it was created.
    pub fn create_relation(&mut self, relation: &Relation, now: i64) -> (r: bool)
        requires
            old(self)@.room(1),
        ensures
            (final(self)@, r) == old(self)@.create_relation(relation@, now as int),
    {
        match (self.read_entity(&relation.from), self.read_entity(&relation.to)) {
            (Some(from), Some(to)) => {
                let ghost start = self@;
                let type_id: i64 = self.type_id(RELATION_KIND, &relation.relation_type);
                if self.is_joined(from.entity_id, to.entity_id, type_id) {
                    return false;
                }
                let row: RelationRow = RelationRow {
                    from_id: from.entity_id,
                    to_id: to.entity_id,
                    type_id,
                    created_us: now,
                };
                self.relations.push(row);
                assert(self@.relations =~= start.relations.push(row@));
                assert(self@ =~= start.create_relation(relation@, now as int).0);
                true
            },
            _ => false,
        }
    }

    /// Appends observations to an entity.
    pub fn insert_observations(&mut self, id: i64, contents: &Vec<String>)
        ensures
            final(self)@ == old(self)@.insert_observations(id as int, texts(contents@)),
    {
        let ghost start = self@;
        let ghost f = |e: EntityModel| observing(e, texts(contents@));
        let mut i: usize = 0;
        while i < self.entities.len()
            invariant
                i <= self.entities@.len(),
                start.entities.len() == self.entities@.len(),
                f == (|e: EntityModel| observing(e, texts(contents@))),
                self@ == (GraphModel { entities: self@.entities, ..start }),
                forall|j: int| i <= j < start.entities.len() ==> self@.entities[j] == start.entities[j],
                forall|j: int|
                    0 <= j < i ==> self@.entities[j] == rewrite(start.entities, id as int, f)[j],
            decreases self.entities@.len() - i,
        {
            let ghost prior = self@.entities;
            assert(prior[i as int] == self.entities@[i as int]@);
            if self.entities[i].id == id {
                let mut more: Vec<String> = copy_texts(contents);
                let ghost all = texts(self.entities@[i as int].observations@) + texts(more@);
                let ghost was = self.entities@;
                self.entities[i].observations.append(&mut more);
                assert(texts(self.entities@[i as int].observations@) =~= all);
                assert(self@.entities =~= prior.update(i as int, f(prior[i as int])));
            }
            i += 1;
        }
        assert(self@.entities =~= rewrite(start.entities, id as int, f));
    }
}

impl Graph {
    /// Removes the observations of an entity that say `body`.
    pub fn delete_observations(&mut self, id: i64, body: &str)
        ensures
            final(self)@ == old(self)@.delete_observations(id as int, body@),
    {
        let ghost start = self@;
        let ghost f = |e: EntityModel| forgetting(e, body@);
        let mut i: usize = 0;
        while i < self.entities.len()
            invariant
                i <= self.entities@.len(),
                start.entities.len() == self.entities@.len(),
                f == (|e: EntityModel| forgetting(e, body@)),
                self@ == (GraphModel { entities: self@.entities, ..start }),
                forall|j: int| i <= j < start.entities.len() ==> self@.entities[j] == start.entities[j],
                forall|j: int|
                    0 <= j < i ==> self@.entities[j] == rewrite(start.entities, id as int, f)[j],
            decreases self.entities@.len() - i,
        {
            let ghost prior = self@.entities;
            assert(prior[i as int] == self.entities@[i as int]@);
            if self.entities[i].id == id {
                let kept: Vec<String> = without_body(&self.entities[i].observations, body);
                self.entities[i].observations = kept;
                assert(self@.entities =~= prior.update(i as int, f(prior[i as int])));
            }
            i += 1;
        }
        assert(self@.entities =~= rewrite(start.entities, id as int, f));
    }

    /// Gives an entity another type.
    pub fn retype(&mut self, id: i64, entity_type: &str)
        requires
            old(self)@.room(1),
        ensures
            final(self)@ == old(self)@.retype(id as int, entity_type@),
    {
        let ghost before = self@;
        let type_id: i64 = self.type_id(ENTITY_KIND, entity_type);
        let ghost start = self@;
        let ghost tid = type_id as int;
        let ghost f = |e: EntityModel| EntityModel { type_id: tid, ..e };
        let mut i: usize = 0;
        while i < self.entities.len()
            invariant
                i <= self.entities@.len(),
                start.entities.len() == self.entities@.len(),
                tid == type_id,
                f == (|e: EntityModel| EntityModel { type_id: tid, ..e }),
                self@ == (GraphModel { entities: self@.entities, ..start }),
                forall|j: int| i <= j < start.entities.len() ==> self@.entities[j] == start.entities[j],
                forall|j: int|
                    0 <= j < i ==> self@.entities[j] == rewrite(start.entities, id as int, f)[j],
            decreases self.entities@.len() - i,
        {
            let ghost prior = self@.entities;
            assert(prior[i as int] == self.entities@[i as int]@);
            if self.entities[i].id == id {
                self.entities[i].type_id = type_id;
                assert(self@.entities =~= prior.update(i as int, f(prior[i as int])));
            }
            i += 1;
        }
        assert(self@.entities =~= rewrite(start.entities, id as int, f));
        assert(self@ =~= before.retype(id as int, entity_type@));
    }

    /// Gives an entity another name.
    pub fn rename(&mut self, id: i64, name: &str)
        ensures
            final(self)@ == old(self)@.rename(id as int, name@),
    {
        let ghost start = self@;
        let ghost f = |e: EntityModel| EntityModel { name: name@, ..e };
        let mut i: usize = 0;
        while i < self.entities.len()
            invariant
                i <= self.entities@.len(),
                start.entities.len() == self.entities@.len(),
                f == (|e: EntityModel| EntityModel { name: name@, ..e }),
                self@ == (GraphModel { entities: self@.entities, ..start }),
                forall|j: int| i <= j < start.entities.len() ==> self@.entities[j] == start.entities[j],
                forall|j: int|
                    0 <= j < i ==> self@.entities[j] == rewrite(start.entities, id as int, f)[j],
            decreases self.entities@.len() - i,
        {
            let ghost prior = self@.entities;
            assert(prior[i as int] == self.entities@[i as int]@);
            if self.entities[i].id == id {
                self.entities[i].name = name.to_owned();
                assert(self@.entities =~= prior.update(i as int, f(prior[i as int])));
            }
            i += 1;
        }
        assert(self@.entities =~= rewrite(start.entities, id as int, f));
    }

    /// Removes an entity, its observations and its relations.
    fn delete_id(&mut self, id: i64)
        ensures
            final(self)@ == old(self)@.delete_id(id as int),
    {
        let ghost start = self@;
        let mut entities: Vec<EntityRow> = Vec::new();
        let mut i: usize = 0;
        assert(entity_models(entities@) =~= entities_without(start.entities.take(0), id as int));
        while i < self.entities.len()
            invariant
                i <= self.entities@.len(),
                start == self@,
                entity_models(entities@) == entities_without(start.entities.take(i as int), id as int),
            decreases self.entities@.len() - i,
        {
            let ghost done = entity_models(entities@);
            assert(start.entities.take(i + 1).drop_last() =~= start.entities.take(i as int));
            assert(start.entities.take(i + 1).last() == self.entities@[i as int]@);
            if self.entities[i].id != id {
                entities.push(self.entities[i].clone());
                assert(entity_models(entities@) =~= done.push(self.entities@[i as int]@));
            }
            i += 1;
        }
        let mut relations: Vec<RelationRow> = Vec::new();
        let mut k: usize = 0;
        assert(relation_models(relations@) =~= relations_without(start.relations.take(0), id as int));
        while k < self.relations.len()
            invariant
                k <= self.relations@.len(),
                start == self@,
                relation_models(relations@) == relations_without(
                    start.relations.take(k as int),
                    id as int,
                ),
            decreases self.relations@.len() - k,
        {
            let ghost done = relation_models(relations@);
            let row: RelationRow = self.relations[k];
            assert(start.relations.take(k + 1).drop_last() =~= start.relations.take(k as int));
            assert(start.relations.take(k + 1).last() == row@);
            if row.from_id != id && row.to_id != id {
                relations.push(row);
                assert(relation_models(relations@) =~= done.push(row@));
            }
            k += 1;
        }
        assert(start.entities.take(self.entities@.len() as int) =~= start.entities);
        assert(start.relations.take(self.relations@.len() as int) =~= start.relations);
        self.entities = entities;
        self.relations = relations;
    }

    /// Removes the live entities of those names.
    pub fn delete_entities(&mut self, names: &Vec<String>)
        ensures
            final(self)@ == old(self)@.delete_entities(texts(names@)),
    {
        let ghost start = self@;
        let ghost all = texts(names@);
        let mut i: usize = 0;
        assert(all.take(0) =~= Seq::<Seq<char>>::empty());
        while i < names.len()
            invariant
                i <= names@.len(),
                all == texts(names@),
                self@ == start.delete_entities(all.take(i as int)),
            decreases names@.len() - i,
        {
            assert(all.take(i + 1).drop_last() =~= all.take(i as int));
            assert(all.take(i + 1).last() == names@[i as int]@);
            match self.read_entity(&names[i]) {
                Some(entity) => self.delete_id(entity.entity_id),
                None => {},
            }
            i += 1;
        }
        assert(all.take(names@.len() as int) =~= all);
    }

    /// Whether a live entity has that identifier and that name.
    fn is_named(&self, id: i64, name: &str) -> (r: bool)
        ensures
            r == id_names(self@.entities, id as int, name@),
    {
        let ghost es = self@.entities;
        let mut i: usize = 0;
        while i < self.entities.len()
            invariant
                i <= self.entities@.len(),
                es == self@.entities,
                forall|j: int|
                    0 <= j < i ==> !((#[trigger] es[j]).id == id && live_named(es[j], name@)),
            decreases self.entities@.len() - i,
        {
            assert(es[i as int] == self.entities@[i as int]@);
            if self.entities[i].id == id && self.entities[i].flags == 0 && same(
                &self.entities[i].name,
                name,
            ) {
                assert(es[i as int].id == id);
                return true;
            }
            i += 1;
        }
        false
    }

    /// Whether a relation type has that identifier and that name.
    fn is_type(&self, id: i64, name: &str) -> (r: bool)
        ensures
            r == type_names(self@.types, id as int, name@),
    {
        let ghost ts = self@.types;
        let mut i: usize = 0;
        while i < self.types.len()
            invariant
                i <= self.types@.len(),
                ts == self@.types,
                forall|j: int|
                    0 <= j < i ==> !((#[trigger] ts[j]).id == id && ts[j].kind == RELATION_KIND
                        && ts[j].name == name@),
            decreases self.types@.len() - i,
        {
            assert(ts[i as int] == self.types@[i as int]@);
            if self.types[i].id == id && self.types[i].kind == RELATION_KIND && same(
                &self.types[i].name,
                name,
            ) {
                assert(ts[i as int].id == id);
                return true;
            }
            i += 1;
        }
        false
    }

    /// Removes every row of a relation.
    pub fn delete_relation(&mut self, d: &Relation)
        ensures
            final(self)@ == old(self)@.delete_relation(d@),
    {
        let ghost start = self@;
        let mut relations: Vec<RelationRow> = Vec::new();
        let mut k: usize = 0;
        assert(relation_models(relations@) =~= start.rows_except(start.relations.take(0), d@));
        while k < self.relations.len()
            invariant
                k <= self.relations@.len(),
                start == self@,
                relation_models(relations@) == start.rows_except(start.relations.take(k as int), d@),
            decreases self.relations@.len() - k,
        {
            let ghost done = relation_models(relations@);
            let row: RelationRow = self.relations[k];
            assert(start.relations.take(k + 1).drop_last() =~= start.relations.take(k as int));
            assert(start.relations.take(k + 1).last() == row@);
            if !(self.is_named(row.from_id, &d.from) && self.is_named(row.to_id, &d.to)
                && self.is_type(row.type_id, &d.relation_type)) {
                relations.push(row);
                assert(relation_models(relations@) =~= done.push(row@));
            }
            k += 1;
        }
        assert(start.relations.take(self.relations@.len() as int) =~= start.relations);
        self.relations = relations;
    }
}

/// The bodies that are not `body`.
fn without_body(bodies: &Vec<String>, body: &str) -> (r: Vec<String>)
    ensures
        texts(r@) == bodies_without(texts(bodies@), body@),
{
    let ghost all = texts(bodies@);
    let mut kept: Vec<String> = Vec::new();
    let mut i: usize = 0;
    assert(texts(kept@) =~= bodies_without(all.take(0), body@));
    while i < bodies.len()
        invariant
            i <= bodies@.len(),
            all == texts(bodies@),
            texts(kept@) == bodies_without(all.take(i as int), body@),
        decreases bodies@.len() - i,
    {
        let ghost done = texts(kept@);
        assert(all.take(i + 1).drop_last() =~= all.take(i as int));
        assert(all.take(i + 1).last() == bodies@[i as int]@);
        if !same(&bodies[i], body) {
            kept.push(bodies[i].clone());
            assert(texts(kept@) =~= done.push(bodies@[i as int]@));
        }
        i += 1;
    }
    assert(all.take(bodies@.len() as int) =~= all);
    kept
}

impl Clone for EntityRow {
    fn clone(&self) -> (r: Self)
        ensures
            r@ == self@,
    {
        EntityRow {
            id: self.id,
            name: self.name.clone(),
            type_id: self.type_id,
            observations: copy_texts(&self.observations),
            obs_count: self.obs_count,
            out_deg: self.out_deg,
            in_deg: self.in_deg,
            created_us: self.created_us,
            updated_us: self.updated_us,
            flags: self.flags,
        }
    }
}

impl Clone for TypeRow {
    fn clone(&self) -> (r: Self)
        ensures
            r@ == self@,
    {
        TypeRow { id: self.id, kind: self.kind, name: self.name.clone(), count: self.count }
    }
}

impl Clone for Graph {
    fn clone(&self) -> (r: Self)
        ensures
            r@ == self@,
    {
        let mut entities: Vec<EntityRow> = Vec::new();
        let mut i: usize = 0;
        while i < self.entities.len()
            invariant
                i <= self.entities@.len(),
                entity_models(entities@) == entity_models(self.entities@).take(i as int),
            decreases self.entities@.len() - i,
        {
            let ghost done = entity_models(entities@);
            entities.push(self.entities[i].clone());
            assert(entity_models(entities@) =~= done.push(self.entities@[i as int]@));
            assert(entity_models(entities@) =~= entity_models(self.entities@).take(i + 1));
            i += 1;
        }
        let mut types: Vec<TypeRow> = Vec::new();
        let mut k: usize = 0;
        while k < self.types.len()
            invariant
                k <= self.types@.len(),
                type_models(types@) == type_models(self.types@).take(k as int),
            decreases self.types@.len() - k,
        {
            let ghost done = type_models(types@);
            types.push(self.types[k].clone());
            assert(type_models(types@) =~= done.push(self.types@[k as int]@));
            assert(type_models(types@) =~= type_models(self.types@).take(k + 1));
            k += 1;
        }
        let mut relations: Vec<RelationRow> = Vec::new();
        let mut n: usize = 0;
        while n < self.relations.len()
            invariant
                n <= self.relations@.len(),
                relations@ == self.relations@.take(n as int),
            decreases self.relations@.len() - n,
        {
            relations.push(self.relations[n]);
            n += 1;
        }
        assert(entity_models(entities@) =~= entity_models(self.entities@));
        assert(type_models(types@) =~= type_models(self.types@));
        assert(relations@ =~= self.relations@);
        Graph { entities, relations, types, stat: self.stat, next_entity_id: self.next_entity_id }
    }
}

/// A new row carries the time at which it was made, a new entity an identifier
/// that no row had, and what was asked for; the rows that were there stay as they
/// were.
pub proof fn law_new_rows_carry_their_time(m: GraphModel, e: EntityData, r: RelationData, now: int, i: int)
    requires
        forall|k: int| 0 <= k < m.entities.len() ==> (#[trigger] m.entities[k]).id < m.next_entity_id,
    ensures
        ({
            let (g, made) = m.create_entity(e, now);
            let n = m.entities.len() as int;
            &&& 0 <= i < n ==> g.entities[i] == m.entities[i]
            &&& g.relations == m.relations && g.stat == m.stat
            &&& g.entities.len() == n + (if made {
                1int
            } else {
                0int
            })
            &&& made ==> {
                let row = g.entities[n];
                &&& row.name == e.name && row.observations == e.observations && row.flags == 0
                &&& row.created_us == now && row.updated_us == now
                &&& forall|k: int| 0 <= k < n ==> (#[trigger] m.entities[k]).id != row.id
                &&& row.id < g.next_entity_id
            }
        }),
        ({
            let (g, made) = m.create_relation(r, now);
            let n = m.relations.len() as int;
            &&& 0 <= i < n ==> g.relations[i] == m.relations[i]
            &&& g.entities == m.entities && g.stat == m.stat && g.next_entity_id == m.next_entity_id
            &&& g.relations.len() == n + (if made {
                1int
            } else {
                0int
            })
            &&& made ==> g.relations[n].created_us == now
        }),
{
}

/// There is room for a request as long as the identifiers that are in use leave
/// enough: the largest one of a type is what counts, wherever it stands.
pub proof fn law_there_is_room_while_identifiers_last(m: GraphModel, n: int)
    ensures
        0 <= n && m.next_entity_id + n <= i64::MAX && n <= i64::MAX && (forall|i: int|
            0 <= i < m.types.len() ==> (#[trigger] m.types[i]).id + n <= i64::MAX) ==> m.room(n),
        m.room(n) ==> m.next_entity_id + n <= i64::MAX && forall|i: int|
            0 <= i < m.types.len() ==> (#[trigger] m.types[i]).id + n <= i64::MAX,
{
    lemma_top_type_id(m.types);
    lemma_top_is_some(m.types);
}

proof fn lemma_top_is_some(ts: Seq<TypeModel>)
    ensures
        top_type_id(ts) == 0 || exists|i: int| 0 <= i < ts.len() && (#[trigger] ts[i]).id == top_type_id(ts),
    decreases ts.len(),
{
    if ts.len() > 0 {
        let front = ts.drop_last();
        lemma_top_is_some(front);
        if ts.last().id > top_type_id(front) {
            assert(ts[ts.len() - 1].id == top_type_id(ts));
        } else if top_type_id(front) != 0 {
            let i = choose|i: int| 0 <= i < front.len() && (#[trigger] front[i]).id == top_type_id(front);
            assert(ts[i].id == top_type_id(ts));
        }
    }
}

/// Nothing of a row, of the graph or of an entity that is read goes unseen, and a list shows
/// every item in its place.
pub proof fn law_nothing_goes_unseen(
    a: EntityRow,
    b: TypeRow,
    c: RelationRow,
    d: GraphStat,
    e: Graph,
    f: EntitySnapshot,
    x: Seq<EntityRow>,
    y: Seq<RelationRow>,
    z: Seq<TypeRow>,
    i: int,
)
    ensures
        a@.id == a.id,
        a@.name == a.name@,
        a@.type_id == a.type_id,
        a@.observations == texts(a.observations@),
        a@.obs_count == a.obs_count,
        a@.out_deg == a.out_deg,
        a@.in_deg == a.in_deg,
        a@.created_us == a.created_us,
        a@.updated_us == a.updated_us,
        a@.flags == a.flags,
        b@.id == b.id,
        b@.kind == b.kind,
        b@.name == b.name@,
        b@.count == b.count,
        c@.from_id == c.from_id,
        c@.to_id == c.to_id,
        c@.type_id == c.type_id,
        c@.created_us == c.created_us,
        d@.entities == opt_int(d.entities),
        d@.relations == opt_int(d.relations),
        d@.observations == opt_int(d.observations),
        e@.entities == entity_models(e.entities@),
        e@.relations == relation_models(e.relations@),
        e@.types == type_models(e.types@),
        e@.stat == e.stat@,
        e@.next_entity_id == e.next_entity_id,
        f@.entity_id == f.entity_id,
        f@.name == f.name@,
        f@.entity_type == f.entity_type@,
        f@.observations == texts(f.observations@),
        entity_models(x).len() == x.len(),
        0 <= i < x.len() ==> entity_models(x)[i] == x[i]@,
        relation_models(y).len() == y.len(),
        0 <= i < y.len() ==> relation_models(y)[i] == y[i]@,
        type_models(z).len() == z.len(),
        0 <= i < z.len() ==> type_models(z)[i] == z[i]@,
{
}

/// An optional number is seen whenever it is there, and only then.
pub proof fn law_an_optional_number_is_seen(n: Option<i64>)
    ensures
        opt_int(n) is Some <==> n is Some,
        n matches Some(v) ==> opt_int(n) == Some(v as int),
{
}

} // verus!
