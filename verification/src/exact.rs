//! What holds of a graph whose rows refer to each other soundly: every mutation
//! leaves each stored counter equal to what it counts, and a read gives back
//! what was written.
use vstd::prelude::*;

use crate::changes::{
    affected, captured, differs, end_names, entities_of, entity_names, gained, lemma_captured_distinct,
    lemma_snapshot_name, requested_names, tell_all, tells, update_names, Captured, ChangeData,
    ChangeOperation,
};
use crate::counters::{
    count_of, entering, leaving, lemma_count_bounds, observation_total, of_type, recount, recounted,
    refresh, refreshed, related_by, retotal,
};
use crate::graph::{
    bodies_without, entities_without, find_id, find_live, find_type, find_type_id, first_id, first_live, first_type,
    first_type_id, forgetting, joined, joins, lemma_top_type_id, live_named, observing,
    relations_without, rewrite, EntityModel, GraphModel, RelationModel, SnapshotData, TypeModel,
    ENTITY_KIND, RELATION_KIND,
};
use crate::integrity::{
    actual_count, audits, dangles, in_drifted, lemma_count_none, like, live_of_type, miscounted,
    out_drifted, repeated_groups, repeats, rows_from, rows_of_type, rows_to, AuditReport,
};
use crate::mutation::{
    create_all, executed, forget_all, forget_bodies, live_names, merge, novel, observe_all, redirect,
    redirect_all, relate_all, rename, unrelate_all, updates_data, upsert_all, upsert_one,
    MutationRequest, ObservationData, ObservationUpdate, ResultData,
};
use crate::order::{
    ascending, before, lemma_before_irreflexive, lemma_before_total, lemma_before_transitive,
    listed,
};
use crate::service::applied;
use crate::text::texts;
use crate::types::{entities_data, relations_data, Entity, EntityData, Relation, RelationData};

verus! {

// ---------------------------------------------------------------------------
// Sound graphs and exact counters
// ---------------------------------------------------------------------------

/// No two entities have the same identifier.
pub open spec fn ids_distinct(es: Seq<EntityModel>) -> bool {
    forall|i: int, j: int| 0 <= i < j < es.len() ==> (#[trigger] es[i]).id != (#[trigger] es[j]).id
}

/// No two live entities have the same name.
pub open spec fn names_distinct(es: Seq<EntityModel>) -> bool {
    forall|i: int, j: int|
        0 <= i < j < es.len() && (#[trigger] es[i]).flags == 0 && (#[trigger] es[j]).flags == 0
            ==> es[i].name != es[j].name
}

/// No two types have the same identifier, or the same kind and name.
pub open spec fn types_distinct(ts: Seq<TypeModel>) -> bool {
    forall|i: int, j: int|
        0 <= i < j < ts.len() ==> (#[trigger] ts[i]).id != (#[trigger] ts[j]).id && !(ts[i].kind
            == ts[j].kind && ts[i].name == ts[j].name)
}

/// Some type has that identifier and that kind.
pub open spec fn has_type(ts: Seq<TypeModel>, kind: int, id: int) -> bool {
    exists|k: int| 0 <= k < ts.len() && (#[trigger] ts[k]).id == id && ts[k].kind == kind
}

/// Some live entity has that identifier.
pub open spec fn live_id(es: Seq<EntityModel>, id: int) -> bool {
    exists|i: int| 0 <= i < es.len() && (#[trigger] es[i]).id == id && es[i].flags == 0
}

/// The row refers to live entities and to a relation type.
pub open spec fn anchored(m: GraphModel, r: RelationModel) -> bool {
    live_id(m.entities, r.from_id) && live_id(m.entities, r.to_id) && has_type(
        m.types,
        RELATION_KIND as int,
        r.type_id,
    )
}

/// The rows refer to each other as the tables promise.
pub open spec fn sound(m: GraphModel) -> bool {
    &&& ids_distinct(m.entities)
    &&& names_distinct(m.entities)
    &&& types_distinct(m.types)
    &&& forall|i: int| 0 <= i < m.entities.len() ==> (#[trigger] m.entities[i]).id < m.next_entity_id
    &&& forall|i: int|
        0 <= i < m.entities.len() && (#[trigger] m.entities[i]).flags == 0 ==> has_type(
            m.types,
            ENTITY_KIND as int,
            m.entities[i].type_id,
        )
    &&& forall|i: int| 0 <= i < m.relations.len() ==> anchored(m, #[trigger] m.relations[i])
}

/// The counters of an entity are those of its rows.
pub open spec fn entity_exact(m: GraphModel, e: EntityModel) -> bool {
    &&& e.obs_count == e.observations.len()
    &&& e.out_deg == count_of(m.relations, rows_from(e.id))
    &&& e.in_deg == count_of(m.relations, rows_to(e.id))
}

/// The number of live entities.
pub open spec fn live_count(es: Seq<EntityModel>) -> int {
    count_of(es, |e: EntityModel| e.flags == 0)
}

/// The number of observations of the live entities.
pub open spec fn live_observations(es: Seq<EntityModel>) -> int
    decreases es.len(),
{
    if es.len() == 0 {
        0
    } else {
        live_observations(es.drop_last()) + (if es.last().flags == 0 {
            es.last().observations.len() as int
        } else {
            0
        })
    }
}

/// A total that is stored is right.
pub open spec fn total_exact(stored: Option<int>, actual: int) -> bool {
    stored is Some ==> stored == Some(actual)
}

/// Every stored counter is the number of rows that it counts.
pub open spec fn counted(m: GraphModel) -> bool {
    &&& forall|i: int|
        0 <= i < m.types.len() ==> (#[trigger] m.types[i]).count == actual_count(m, m.types[i])
    &&& forall|i: int|
        0 <= i < m.entities.len() && (#[trigger] m.entities[i]).flags == 0 ==> entity_exact(
            m,
            m.entities[i],
        )
    &&& total_exact(m.stat.entities, live_count(m.entities))
    &&& total_exact(m.stat.relations, m.relations.len() as int)
    &&& total_exact(m.stat.observations, live_observations(m.entities))
}

/// The graph is sound and its counters are exact.
pub open spec fn exact(m: GraphModel) -> bool {
    sound(m) && counted(m)
}

// ---------------------------------------------------------------------------
// Sums and counts
// ---------------------------------------------------------------------------

/// The sum of the weights of some elements.
spec fn total<A>(s: Seq<A>, w: spec_fn(A) -> int) -> int
    decreases s.len(),
{
    if s.len() == 0 {
        0
    } else {
        total(s.drop_last(), w) + w(s.last())
    }
}

/// A count is a sum of ones.
spec fn ones<A>(p: spec_fn(A) -> bool) -> spec_fn(A) -> int {
    |x: A|
        if p(x) {
            1int
        } else {
            0int
        }
}

proof fn lemma_total_push<A>(s: Seq<A>, x: A, w: spec_fn(A) -> int)
    ensures
        total(s.push(x), w) == total(s, w) + w(x),
{
    assert(s.push(x).drop_last() =~= s);
}

proof fn lemma_count_push<A>(s: Seq<A>, x: A, p: spec_fn(A) -> bool)
    ensures
        count_of(s.push(x), p) == count_of(s, p) + (if p(x) {
            1int
        } else {
            0int
        }),
{
    assert(s.push(x).drop_last() =~= s);
}

proof fn lemma_count_total<A>(s: Seq<A>, p: spec_fn(A) -> bool)
    ensures
        count_of(s, p) == total(s, ones(p)),
    decreases s.len(),
{
    if s.len() > 0 {
        lemma_count_total(s.drop_last(), p);
    }
}

/// Predicates that agree count alike.
proof fn lemma_count_agree<A>(s: Seq<A>, p: spec_fn(A) -> bool, q: spec_fn(A) -> bool)
    requires
        forall|i: int| 0 <= i < s.len() ==> p(#[trigger] s[i]) == q(s[i]),
    ensures
        count_of(s, p) == count_of(s, q),
    decreases s.len(),
{
    if s.len() > 0 {
        let t = s.drop_last();
        assert forall|i: int| 0 <= i < t.len() implies p(#[trigger] t[i]) == q(t[i]) by {
            assert(t[i] == s[i]);
        }
        lemma_count_agree(t, p, q);
        assert(s[s.len() - 1] == s.last());
    }
}

/// What is taken out is no longer counted.
proof fn lemma_count_remove<A>(s: Seq<A>, j: int, p: spec_fn(A) -> bool)
    requires
        0 <= j < s.len(),
    ensures
        count_of(s.remove(j), p) == count_of(s, p) - (if p(s[j]) {
            1int
        } else {
            0int
        }),
    decreases s.len(),
{
    if j == s.len() - 1 {
        assert(s.remove(j) =~= s.drop_last());
    } else {
        let t = s.drop_last();
        lemma_count_remove(t, j, p);
        assert(s.remove(j).drop_last() =~= t.remove(j));
        assert(s.remove(j).last() == s.last());
    }
}

/// What is counted is there.
proof fn lemma_count_some<A>(s: Seq<A>, p: spec_fn(A) -> bool) -> (j: int)
    requires
        count_of(s, p) > 0,
    ensures
        0 <= j < s.len(),
        p(s[j]),
    decreases s.len(),
{
    if p(s.last()) {
        s.len() - 1
    } else {
        lemma_count_some(s.drop_last(), p)
    }
}

/// Lists that hold every relation of a sort equally often have as many of the
/// sort.
proof fn lemma_count_permuted(
    a: Seq<RelationData>,
    b: Seq<RelationData>,
    p: spec_fn(RelationData) -> bool,
)
    requires
        forall|d: RelationData|
            p(d) ==> #[trigger] count_of(a, same_as(d)) == count_of(b, same_as(d)),
    ensures
        count_of(a, p) == count_of(b, p),
    decreases a.len(),
{
    if a.len() == 0 {
        if count_of(b, p) > 0 {
            let j = lemma_count_some(b, p);
            assert(count_of(a, same_as(b[j])) == count_of(b, same_as(b[j])));
            lemma_count_remove(b, j, same_as(b[j]));
            lemma_count_bounds(b.remove(j), same_as(b[j]));
        }
        lemma_count_bounds(b, p);
    } else {
        let (t, x) = (a.drop_last(), a.last());
        assert(a =~= t.push(x));
        if p(x) {
            lemma_count_push(t, x, same_as(x));
            lemma_count_bounds(t, same_as(x));
            assert(count_of(a, same_as(x)) == count_of(b, same_as(x)));
            let j = lemma_count_some(b, same_as(x));
            let c = b.remove(j);
            assert forall|d: RelationData| p(d) implies #[trigger] count_of(t, same_as(d)) == count_of(
                c,
                same_as(d),
            ) by {
                assert(count_of(a, same_as(d)) == count_of(b, same_as(d)));
                lemma_count_push(t, x, same_as(d));
                lemma_count_remove(b, j, same_as(d));
            }
            lemma_count_permuted(t, c, p);
            lemma_count_push(t, x, p);
            lemma_count_remove(b, j, p);
        } else {
            assert forall|d: RelationData| p(d) implies #[trigger] count_of(t, same_as(d)) == count_of(
                b,
                same_as(d),
            ) by {
                assert(count_of(a, same_as(d)) == count_of(b, same_as(d)));
                lemma_count_push(t, x, same_as(d));
            }
            lemma_count_permuted(t, b, p);
            lemma_count_push(t, x, p);
        }
    }
}

/// The relation itself.
spec fn same_as(d: RelationData) -> spec_fn(RelationData) -> bool {
    |x: RelationData| x == d
}

// ---------------------------------------------------------------------------
// Looking rows up in a sound graph
// ---------------------------------------------------------------------------

proof fn lemma_find_id(es: Seq<EntityModel>, i: int)
    requires
        ids_distinct(es),
        0 <= i < es.len(),
    ensures
        find_id(es, es[i].id) == Some(i),
{
    let id = es[i].id;
    assert(first_id(es, id, i)) by {
        assert forall|j: int| 0 <= j < i implies (#[trigger] es[j]).id != id by {
            assert(es[j].id != es[i].id);
        }
    }
    let k = choose|k: int| first_id(es, id, k);
    assert(first_id(es, id, k));
    if k < i {
        assert(es[k].id != es[i].id);
    }
    if i < k {
        assert(es[i].id != id);
    }
}

proof fn lemma_find_type_id(ts: Seq<TypeModel>, i: int)
    requires
        types_distinct(ts),
        0 <= i < ts.len(),
    ensures
        find_type_id(ts, ts[i].id) == Some(i),
{
    let id = ts[i].id;
    assert(first_type_id(ts, id, i)) by {
        assert forall|j: int| 0 <= j < i implies (#[trigger] ts[j]).id != id by {
            assert(ts[j].id != ts[i].id);
        }
    }
    let k = choose|k: int| first_type_id(ts, id, k);
    assert(first_type_id(ts, id, k));
    if k < i {
        assert(ts[k].id != ts[i].id);
    }
    if i < k {
        assert(ts[i].id != id);
    }
}

proof fn lemma_find_live(es: Seq<EntityModel>, i: int)
    requires
        names_distinct(es),
        0 <= i < es.len(),
        es[i].flags == 0,
    ensures
        find_live(es, es[i].name) == Some(i),
{
    let name = es[i].name;
    assert(first_live(es, name, i)) by {
        assert forall|j: int| 0 <= j < i implies !live_named(#[trigger] es[j], name) by {
            if es[j].flags == 0 {
                assert(es[j].name != es[i].name);
            }
        }
    }
    let k = choose|k: int| first_live(es, name, k);
    assert(first_live(es, name, k));
    if k < i {
        assert(es[k].name != es[i].name);
    }
    if i < k {
        assert(!live_named(es[i], name));
    }
}

/// The name of the entity with that identifier.
spec fn name_of(m: GraphModel, id: int) -> Seq<char> {
    m.entities[find_id(m.entities, id)->0].name
}

/// The name of the type with that identifier.
spec fn kind_name(m: GraphModel, id: int) -> Seq<char> {
    m.types[find_type_id(m.types, id)->0].name
}

/// What a relation row says.
spec fn label(m: GraphModel, r: RelationModel) -> RelationData {
    RelationData {
        from: name_of(m, r.from_id),
        to: name_of(m, r.to_id),
        relation_type: kind_name(m, r.type_id),
    }
}

/// What an entity row says.
spec fn snap(m: GraphModel, e: EntityModel) -> SnapshotData {
    SnapshotData {
        entity_id: e.id,
        name: e.name,
        entity_type: kind_name(m, e.type_id),
        observations: e.observations,
    }
}

/// The entity with that identifier, where there is a live one.
proof fn lemma_live_id(m: GraphModel, id: int) -> (i: int)
    requires
        ids_distinct(m.entities),
        live_id(m.entities, id),
    ensures
        0 <= i < m.entities.len(),
        m.entities[i].id == id && m.entities[i].flags == 0,
        find_id(m.entities, id) == Some(i),
        name_of(m, id) == m.entities[i].name,
{
    let i = choose|i: int|
        0 <= i < m.entities.len() && (#[trigger] m.entities[i]).id == id && m.entities[i].flags == 0;
    lemma_find_id(m.entities, i);
    i
}

/// The type with that identifier, where there is one of the kind.
proof fn lemma_has_type(m: GraphModel, kind: int, id: int) -> (k: int)
    requires
        types_distinct(m.types),
        has_type(m.types, kind, id),
    ensures
        0 <= k < m.types.len(),
        m.types[k].id == id && m.types[k].kind == kind,
        find_type_id(m.types, id) == Some(k),
        kind_name(m, id) == m.types[k].name,
{
    let k = choose|k: int| 0 <= k < m.types.len() && (#[trigger] m.types[k]).id == id && m.types[k].kind == kind;
    lemma_find_type_id(m.types, k);
    k
}

proof fn lemma_named(m: GraphModel, r: RelationModel)
    requires
        sound(m),
        anchored(m, r),
    ensures
        m.named(r) == Some(label(m, r)),
{
    let _ = lemma_live_id(m, r.from_id);
    let _ = lemma_live_id(m, r.to_id);
    let _ = lemma_has_type(m, RELATION_KIND as int, r.type_id);
}

/// A snapshot is what the live row of that name says.
proof fn lemma_snapshot_at(m: GraphModel, i: int)
    requires
        sound(m),
        0 <= i < m.entities.len(),
        m.entities[i].flags == 0,
    ensures
        m.snapshot(m.entities[i].name) == Some(snap(m, m.entities[i])),
{
    lemma_find_live(m.entities, i);
    let _ = lemma_has_type(m, ENTITY_KIND as int, m.entities[i].type_id);
}

/// Where a snapshot was taken.
proof fn lemma_snapshot_row(m: GraphModel, name: Seq<char>) -> (i: int)
    requires
        sound(m),
        m.snapshot(name) is Some,
    ensures
        0 <= i < m.entities.len(),
        m.entities[i].flags == 0 && m.entities[i].name == name,
        m.snapshot(name) == Some(snap(m, m.entities[i])),
{
    let i = choose|i: int| first_live(m.entities, name, i);
    lemma_snapshot_at(m, i);
    i
}

// ---------------------------------------------------------------------------
// What the relation rows say
// ---------------------------------------------------------------------------

/// What those rows say that satisfy `p`.
spec fn rows_where(m: GraphModel, rows: Seq<RelationModel>, p: spec_fn(RelationData) -> bool) -> Seq<
    RelationData,
>
    decreases rows.len(),
{
    if rows.len() == 0 {
        Seq::empty()
    } else {
        let head = rows_where(m, rows.drop_last(), p);
        if p(label(m, rows.last())) {
            head.push(label(m, rows.last()))
        } else {
            head
        }
    }
}

spec fn any<A>() -> spec_fn(A) -> bool {
    |d: A| true
}

/// The relation begins or ends at one of the names.
spec fn near(names: Set<Seq<char>>) -> spec_fn(RelationData) -> bool {
    |d: RelationData| names.contains(d.from) || names.contains(d.to)
}

/// Some end of the relation is not among the names.
spec fn beyond(names: Set<Seq<char>>) -> spec_fn(RelationData) -> bool {
    |d: RelationData| !(names.contains(d.from) && names.contains(d.to))
}

spec fn both<A>(p: spec_fn(A) -> bool, q: spec_fn(A) -> bool) -> spec_fn(A) -> bool {
    |d: A| p(d) && q(d)
}

spec fn except<A>(p: spec_fn(A) -> bool, q: spec_fn(A) -> bool) -> spec_fn(A) -> bool {
    |d: A| !p(d) && q(d)
}

/// What every row says.
spec fn all_rows(m: GraphModel) -> Seq<RelationData> {
    rows_where(m, m.relations, any())
}

/// Every row is anchored.
spec fn all_anchored(m: GraphModel, rows: Seq<RelationModel>) -> bool {
    forall|i: int| 0 <= i < rows.len() ==> anchored(m, #[trigger] rows[i])
}

proof fn lemma_anchored_head(m: GraphModel, rows: Seq<RelationModel>)
    requires
        all_anchored(m, rows),
        rows.len() > 0,
    ensures
        all_anchored(m, rows.drop_last()),
        anchored(m, rows.last()),
{
    let t = rows.drop_last();
    assert forall|i: int| 0 <= i < t.len() implies anchored(m, #[trigger] t[i]) by {
        assert(t[i] == rows[i]);
    }
    assert(anchored(m, rows[rows.len() - 1]));
}

proof fn lemma_touching(m: GraphModel, rows: Seq<RelationModel>, names: Set<Seq<char>>)
    requires
        sound(m),
        all_anchored(m, rows),
    ensures
        m.touching(rows, names) == rows_where(m, rows, near(names)),
    decreases rows.len(),
{
    if rows.len() > 0 {
        lemma_anchored_head(m, rows);
        lemma_touching(m, rows.drop_last(), names);
        lemma_named(m, rows.last());
    }
}

proof fn lemma_where_count(
    m: GraphModel,
    rows: Seq<RelationModel>,
    p: spec_fn(RelationData) -> bool,
    q: spec_fn(RelationData) -> bool,
)
    ensures
        count_of(rows_where(m, rows, p), q) == count_of(rows_where(m, rows, any()), both(p, q)),
    decreases rows.len(),
{
    if rows.len() > 0 {
        let t = rows.drop_last();
        let d = label(m, rows.last());
        lemma_where_count(m, t, p, q);
        lemma_count_push(rows_where(m, t, p), d, q);
        lemma_count_push(rows_where(m, t, any()), d, both(p, q));
    }
}

proof fn lemma_count_split<A>(s: Seq<A>, p: spec_fn(A) -> bool, q: spec_fn(A) -> bool)
    ensures
        count_of(s, q) == count_of(s, both(p, q)) + count_of(s, except(p, q)),
    decreases s.len(),
{
    if s.len() > 0 {
        lemma_count_split(s.drop_last(), p, q);
    }
}

proof fn lemma_count_any<A>(s: Seq<A>)
    ensures
        count_of(s, any()) == s.len(),
    decreases s.len(),
{
    if s.len() > 0 {
        lemma_count_any(s.drop_last());
    }
}

proof fn lemma_all_len(m: GraphModel, rows: Seq<RelationModel>)
    ensures
        rows_where(m, rows, any()).len() == rows.len(),
    decreases rows.len(),
{
    if rows.len() > 0 {
        lemma_all_len(m, rows.drop_last());
    }
}

/// Where the rows beyond some names agree, the rows near them account for
/// every difference.
proof fn lemma_rows_delta(
    m: GraphModel,
    h: GraphModel,
    names: Set<Seq<char>>,
    q: spec_fn(RelationData) -> bool,
)
    requires
        rows_where(m, m.relations, beyond(names)) == rows_where(h, h.relations, beyond(names)),
    ensures
        count_of(all_rows(h), q) - count_of(all_rows(m), q) == count_of(
            rows_where(h, h.relations, near(names)),
            q,
        ) - count_of(rows_where(m, m.relations, near(names)), q),
{
    let far = except(near(names), q);
    lemma_count_split(all_rows(m), near(names), q);
    lemma_count_split(all_rows(h), near(names), q);
    lemma_where_count(m, m.relations, near(names), q);
    lemma_where_count(h, h.relations, near(names), q);
    lemma_beyond_count(m, names, far);
    lemma_beyond_count(h, names, far);
}

/// Rows that lie beyond some names are counted among those.
proof fn lemma_beyond_count(m: GraphModel, names: Set<Seq<char>>, q: spec_fn(RelationData) -> bool)
    requires
        forall|d: RelationData| #[trigger] q(d) ==> beyond(names)(d),
    ensures
        count_of(all_rows(m), q) == count_of(rows_where(m, m.relations, beyond(names)), q),
{
    lemma_where_count(m, m.relations, beyond(names), q);
    lemma_count_agree(all_rows(m), q, both(beyond(names), q));
}

/// Rows that lie near some names are counted among those.
proof fn lemma_near_count(m: GraphModel, names: Set<Seq<char>>, q: spec_fn(RelationData) -> bool)
    requires
        forall|d: RelationData| #[trigger] q(d) ==> near(names)(d),
    ensures
        count_of(all_rows(m), q) == count_of(rows_where(m, m.relations, near(names)), q),
{
    lemma_where_count(m, m.relations, near(names), q);
    lemma_count_agree(all_rows(m), q, both(near(names), q));
}

/// The degrees of an entity, counted by identifier and by name.
proof fn lemma_degrees(m: GraphModel, rows: Seq<RelationModel>, i: int)
    requires
        sound(m),
        all_anchored(m, rows),
        0 <= i < m.entities.len(),
        m.entities[i].flags == 0,
    ensures
        count_of(rows, rows_from(m.entities[i].id)) == count_of(
            rows_where(m, rows, any()),
            leaving(m.entities[i].name),
        ),
        count_of(rows, rows_to(m.entities[i].id)) == count_of(
            rows_where(m, rows, any()),
            entering(m.entities[i].name),
        ),
    decreases rows.len(),
{
    if rows.len() > 0 {
        let (t, r) = (rows.drop_last(), rows.last());
        let e = m.entities[i];
        lemma_anchored_head(m, rows);
        lemma_degrees(m, t, i);
        let f = lemma_live_id(m, r.from_id);
        let g = lemma_live_id(m, r.to_id);
        if f != i {
            assert(m.entities[f].name != e.name);
            assert(m.entities[f].id != e.id);
        }
        if g != i {
            assert(m.entities[g].name != e.name);
            assert(m.entities[g].id != e.id);
        }
        lemma_count_push(rows_where(m, t, any()), label(m, r), leaving(e.name));
        lemma_count_push(rows_where(m, t, any()), label(m, r), entering(e.name));
    }
}

/// The uses of a relation type, counted by identifier and by name.
proof fn lemma_type_rows(m: GraphModel, rows: Seq<RelationModel>, k: int)
    requires
        sound(m),
        all_anchored(m, rows),
        0 <= k < m.types.len(),
        m.types[k].kind == RELATION_KIND,
    ensures
        count_of(rows, rows_of_type(m.types[k].id)) == count_of(
            rows_where(m, rows, any()),
            related_by(m.types[k].name),
        ),
    decreases rows.len(),
{
    if rows.len() > 0 {
        let (t, r) = (rows.drop_last(), rows.last());
        lemma_anchored_head(m, rows);
        lemma_type_rows(m, t, k);
        let j = lemma_has_type(m, RELATION_KIND as int, r.type_id);
        if j < k {
            assert(m.types[j].id != m.types[k].id && m.types[j].name != m.types[k].name);
        } else if k < j {
            assert(m.types[k].id != m.types[j].id && m.types[k].name != m.types[j].name);
        }
        lemma_count_push(rows_where(m, t, any()), label(m, r), related_by(m.types[k].name));
    }
}

/// A name that no relation type has is used by no row.
proof fn lemma_unused_rows(m: GraphModel, rows: Seq<RelationModel>, name: Seq<char>)
    requires
        sound(m),
        all_anchored(m, rows),
        forall|k: int|
            0 <= k < m.types.len() ==> !((#[trigger] m.types[k]).kind == RELATION_KIND && m.types[k].name == name),
    ensures
        count_of(rows_where(m, rows, any()), related_by(name)) == 0,
    decreases rows.len(),
{
    if rows.len() > 0 {
        let (t, r) = (rows.drop_last(), rows.last());
        lemma_anchored_head(m, rows);
        lemma_unused_rows(m, t, name);
        let j = lemma_has_type(m, RELATION_KIND as int, r.type_id);
        assert(m.types[j].name != name);
        lemma_count_push(rows_where(m, t, any()), label(m, r), related_by(name));
    }
}

// ---------------------------------------------------------------------------
// What the entity rows say
// ---------------------------------------------------------------------------

/// What the live rows say whose name satisfies `p`.
spec fn chosen(m: GraphModel, es: Seq<EntityModel>, p: spec_fn(Seq<char>) -> bool) -> Seq<SnapshotData>
    decreases es.len(),
{
    if es.len() == 0 {
        Seq::empty()
    } else {
        let head = chosen(m, es.drop_last(), p);
        if es.last().flags == 0 && p(es.last().name) {
            head.push(snap(m, es.last()))
        } else {
            head
        }
    }
}

spec fn stranger(names: Set<Seq<char>>) -> spec_fn(Seq<char>) -> bool {
    |n: Seq<char>| !names.contains(n)
}

spec fn member(names: Set<Seq<char>>) -> spec_fn(Seq<char>) -> bool {
    |n: Seq<char>| names.contains(n)
}

/// What every live row says.
spec fn all_live(m: GraphModel) -> Seq<SnapshotData> {
    chosen(m, m.entities, any())
}

proof fn lemma_chosen_parts(
    m: GraphModel,
    es: Seq<EntityModel>,
    p: spec_fn(Seq<char>) -> bool,
    q: spec_fn(Seq<char>) -> bool,
    r: spec_fn(Seq<char>) -> bool,
    w: spec_fn(SnapshotData) -> int,
)
    requires
        forall|n: Seq<char>| #[trigger] r(n) == (p(n) || q(n)),
        forall|n: Seq<char>| !(#[trigger] p(n) && q(n)),
    ensures
        total(chosen(m, es, r), w) == total(chosen(m, es, p), w) + total(chosen(m, es, q), w),
    decreases es.len(),
{
    if es.len() > 0 {
        let t = es.drop_last();
        let x = snap(m, es.last());
        let n = es.last().name;
        lemma_chosen_parts(m, t, p, q, r, w);
        lemma_total_push(chosen(m, t, p), x, w);
        lemma_total_push(chosen(m, t, q), x, w);
        lemma_total_push(chosen(m, t, r), x, w);
        assert(r(n) == (p(n) || q(n)));
        assert(!(p(n) && q(n)));
    }
}

/// Only the live row of a name has that name.
proof fn lemma_chosen_one(m: GraphModel, k: int, name: Seq<char>, w: spec_fn(SnapshotData) -> int)
    requires
        sound(m),
        0 <= k <= m.entities.len(),
    ensures
        total(chosen(m, m.entities.take(k), |n: Seq<char>| n == name), w) == (match find_live(m.entities, name) {
            Some(i) => if i < k {
                w(snap(m, m.entities[i]))
            } else {
                0
            },
            None => 0,
        }),
    decreases k,
{
    let p = |n: Seq<char>| n == name;
    if k > 0 {
        let e = m.entities[k - 1];
        assert(m.entities.take(k).drop_last() =~= m.entities.take(k - 1));
        assert(m.entities.take(k).last() == e);
        lemma_chosen_one(m, k - 1, name, w);
        lemma_total_push(chosen(m, m.entities.take(k - 1), p), snap(m, e), w);
        if e.flags == 0 && e.name == name {
            lemma_find_live(m.entities, k - 1);
        } else {
            if exists|i: int| first_live(m.entities, name, i) {
                let i = choose|i: int| first_live(m.entities, name, i);
                assert(live_named(m.entities[i], name));
                assert(i != k - 1);
            }
        }
    }
}

/// What is captured of some names is what their live rows say.
proof fn lemma_captured_total(m: GraphModel, names: Seq<Seq<char>>, w: spec_fn(SnapshotData) -> int)
    requires
        sound(m),
        ascending(names),
    ensures
        total(entities_of(m, names), w) == total(chosen(m, m.entities, |n: Seq<char>| names.contains(n)), w),
    decreases names.len(),
{
    let r = |n: Seq<char>| names.contains(n);
    if names.len() == 0 {
        lemma_chosen_none(m, m.entities, r);
    } else {
        let (rest, last) = (names.drop_last(), names.last());
        assert forall|p: int, q: int| 0 <= p < q < rest.len() implies before(
            #[trigger] rest[p],
            #[trigger] rest[q],
        ) by {
            assert(before(names[p], names[q]));
        }
        lemma_captured_total(m, rest, w);
        let p = |n: Seq<char>| rest.contains(n);
        let q = |n: Seq<char>| n == last;
        assert forall|n: Seq<char>| #[trigger] r(n) == (p(n) || q(n)) by {
            if rest.contains(n) {
                assert(names[rest.index_of(n)] == n);
            }
            if names.contains(n) && n != last {
                assert(rest[names.index_of(n)] == n);
            }
            assert(names[names.len() - 1] == last);
        }
        assert forall|n: Seq<char>| !(#[trigger] p(n) && q(n)) by {
            if rest.contains(last) {
                let k = rest.index_of(last);
                assert(before(names[k], names[names.len() - 1]));
                lemma_before_irreflexive(last);
            }
        }
        lemma_chosen_parts(m, m.entities, p, q, r, w);
        lemma_chosen_one(m, m.entities.len() as int, last, w);
        assert(m.entities.take(m.entities.len() as int) =~= m.entities);
        match m.snapshot(last) {
            Some(s) => {
                let i = lemma_snapshot_row(m, last);
                lemma_find_live(m.entities, i);
                lemma_total_push(entities_of(m, rest), s, w);
            },
            None => {
                if exists|i: int| first_live(m.entities, last, i) {
                    let i = choose|i: int| first_live(m.entities, last, i);
                    lemma_snapshot_at(m, i);
                }
            },
        }
    }
}

proof fn lemma_chosen_none(m: GraphModel, es: Seq<EntityModel>, p: spec_fn(Seq<char>) -> bool)
    requires
        forall|n: Seq<char>| !#[trigger] p(n),
    ensures
        chosen(m, es, p).len() == 0,
    decreases es.len(),
{
    if es.len() > 0 {
        lemma_chosen_none(m, es.drop_last(), p);
        assert(!p(es.last().name));
    }
}

/// The totals of the live rows, counted by row and by what they say.
proof fn lemma_live_totals(m: GraphModel, es: Seq<EntityModel>)
    ensures
        count_of(es, |e: EntityModel| e.flags == 0) == total(chosen(m, es, any()), |s: SnapshotData| 1int),
        live_observations(es) == total(
            chosen(m, es, any()),
            |s: SnapshotData| s.observations.len() as int,
        ),
    decreases es.len(),
{
    if es.len() > 0 {
        let t = es.drop_last();
        lemma_live_totals(m, t);
        lemma_total_push(chosen(m, t, any()), snap(m, es.last()), |s: SnapshotData| 1int);
        lemma_total_push(
            chosen(m, t, any()),
            snap(m, es.last()),
            |s: SnapshotData| s.observations.len() as int,
        );
    }
}

proof fn lemma_captured_totals(es: Seq<SnapshotData>)
    ensures
        es.len() == total(es, |s: SnapshotData| 1int),
        observation_total(es) == total(es, |s: SnapshotData| s.observations.len() as int),
    decreases es.len(),
{
    if es.len() > 0 {
        lemma_captured_totals(es.drop_last());
    }
}

/// The uses of an entity type, counted by identifier and by name.
proof fn lemma_type_entities(m: GraphModel, n: int, k: int)
    requires
        sound(m),
        0 <= n <= m.entities.len(),
        0 <= k < m.types.len(),
        m.types[k].kind == ENTITY_KIND,
    ensures
        count_of(m.entities.take(n), live_of_type(m.types[k].id)) == count_of(
            chosen(m, m.entities.take(n), any()),
            of_type(m.types[k].name),
        ),
    decreases n,
{
    if n > 0 {
        let e = m.entities[n - 1];
        let t = m.entities.take(n - 1);
        assert(m.entities.take(n).drop_last() =~= t);
        assert(m.entities.take(n).last() == e);
        lemma_type_entities(m, n - 1, k);
        if e.flags == 0 {
            let j = lemma_has_type(m, ENTITY_KIND as int, e.type_id);
            if j < k {
                assert(m.types[j].id != m.types[k].id && m.types[j].name != m.types[k].name);
            } else if k < j {
                assert(m.types[k].id != m.types[j].id && m.types[k].name != m.types[j].name);
            }
            lemma_count_push(chosen(m, t, any()), snap(m, e), of_type(m.types[k].name));
        }
    }
}

/// A name that no entity type has is used by no entity.
proof fn lemma_unused_entities(m: GraphModel, n: int, name: Seq<char>)
    requires
        sound(m),
        0 <= n <= m.entities.len(),
        forall|k: int|
            0 <= k < m.types.len() ==> !((#[trigger] m.types[k]).kind == ENTITY_KIND && m.types[k].name == name),
    ensures
        count_of(chosen(m, m.entities.take(n), any()), of_type(name)) == 0,
    decreases n,
{
    if n > 0 {
        let e = m.entities[n - 1];
        let t = m.entities.take(n - 1);
        assert(m.entities.take(n).drop_last() =~= t);
        assert(m.entities.take(n).last() == e);
        lemma_unused_entities(m, n - 1, name);
        if e.flags == 0 {
            let j = lemma_has_type(m, ENTITY_KIND as int, e.type_id);
            assert(m.types[j].name != name);
            lemma_count_push(chosen(m, t, any()), snap(m, e), of_type(name));
        }
    }
}

// ---------------------------------------------------------------------------
// Listing names
// ---------------------------------------------------------------------------

/// The names can be listed in order.
spec fn listable(names: Set<Seq<char>>) -> bool {
    exists|t: Seq<Seq<char>>| #[trigger] ascending(t) && t.to_set() == names
}

proof fn lemma_listed(names: Set<Seq<char>>)
    requires
        listable(names),
    ensures
        ascending(listed(names)),
        listed(names).to_set() == names,
        forall|n: Seq<char>| #[trigger] listed(names).contains(n) <==> names.contains(n),
{
    let t = choose|t: Seq<Seq<char>>| #[trigger] ascending(t) && t.to_set() == names;
    assert(ascending(t) && t.to_set() == names);
    assert forall|n: Seq<char>| #[trigger] listed(names).contains(n) <==> names.contains(n) by {
        assert(listed(names).to_set().contains(n) <==> listed(names).contains(n));
    }
}

/// A name can be put in its place.
proof fn lemma_insert_in_order(t: Seq<Seq<char>>, x: Seq<char>) -> (u: Seq<Seq<char>>)
    requires
        ascending(t),
        !t.contains(x),
    ensures
        ascending(u),
        u.to_set() == t.to_set().insert(x),
        forall|n: Seq<char>| #[trigger] u.contains(n) <==> t.contains(n) || n == x,
    decreases t.len(),
{
    if t.len() == 0 {
        let u = seq![x];
        assert(u[0] == x);
        assert(u.to_set() =~= t.to_set().insert(x)) by {
            assert forall|n: Seq<char>| u.to_set().contains(n) <==> t.to_set().insert(x).contains(n) by {}
        }
        assert forall|n: Seq<char>| #[trigger] u.contains(n) <==> t.contains(n) || n == x by {
            assert(u[0] == x);
        }
        u
    } else {
        let (rest, last) = (t.drop_last(), t.last());
        assert(t[t.len() - 1] == last);
        assert forall|p: int, q: int| 0 <= p < q < rest.len() implies before(
            #[trigger] rest[p],
            #[trigger] rest[q],
        ) by {
            assert(before(t[p], t[q]));
        }
        lemma_before_total(last, x);
        assert(last != x);
        if before(last, x) {
            let u = t.push(x);
            assert forall|p: int, q: int| 0 <= p < q < u.len() implies before(
                #[trigger] u[p],
                #[trigger] u[q],
            ) by {
                if q < t.len() {
                    assert(before(t[p], t[q]));
                } else if p < t.len() - 1 {
                    assert(before(t[p], t[t.len() - 1]));
                    lemma_before_transitive(t[p], last, x);
                }
            }
            assert forall|n: Seq<char>| #[trigger] u.contains(n) <==> t.contains(n) || n == x by {
                if t.contains(n) {
                    assert(u[t.index_of(n)] == n);
                }
                assert(u[t.len() as int] == x);
            }
            assert(u.to_set() =~= t.to_set().insert(x));
            u
        } else {
            assert(!rest.contains(x)) by {
                if rest.contains(x) {
                    assert(t[rest.index_of(x)] == x);
                }
            }
            let v = lemma_insert_in_order(rest, x);
            let u = v.push(last);
            assert forall|p: int, q: int| 0 <= p < q < u.len() implies before(
                #[trigger] u[p],
                #[trigger] u[q],
            ) by {
                if q < v.len() {
                    assert(before(v[p], v[q]));
                } else {
                    assert(v.contains(v[p]));
                    if v[p] != x {
                        let k = rest.index_of(v[p]);
                        assert(before(t[k], t[t.len() - 1]));
                    }
                }
            }
            assert forall|n: Seq<char>| #[trigger] u.contains(n) <==> t.contains(n) || n == x by {
                if u.contains(n) && n != last {
                    assert(v[u.index_of(n)] == n);
                    if n != x {
                        assert(v.contains(n));
                        assert(rest.contains(n));
                        assert(t[rest.index_of(n)] == n);
                    }
                }
                if t.contains(n) && n != last {
                    assert(rest[t.index_of(n)] == n);
                    assert(v.contains(n));
                }
                if v.contains(n) {
                    assert(u[v.index_of(n)] == n);
                }
                assert(u[v.len() as int] == last);
                assert(v.contains(x));
            }
            assert(u.to_set() =~= t.to_set().insert(x));
            u
        }
    }
}

/// Names that all occur in a list can be listed in order.
proof fn lemma_listable(s: Seq<Seq<char>>, names: Set<Seq<char>>)
    requires
        forall|n: Seq<char>| #[trigger] names.contains(n) ==> s.contains(n),
    ensures
        listable(names),
    decreases s.len(),
{
    if s.len() == 0 {
        let t = Seq::<Seq<char>>::empty();
        assert(t.to_set() =~= names);
        assert(ascending(t));
    } else {
        let (rest, x) = (s.drop_last(), s.last());
        let fewer = names.remove(x);
        assert forall|n: Seq<char>| #[trigger] fewer.contains(n) implies rest.contains(n) by {
            assert(names.contains(n));
            assert(rest[s.index_of(n)] == n);
        }
        lemma_listable(rest, fewer);
        if names.contains(x) {
            lemma_listed(fewer);
            let t = listed(fewer);
            assert(!t.contains(x));
            let u = lemma_insert_in_order(t, x);
            assert(u.to_set() =~= names);
        } else {
            assert(fewer =~= names);
        }
    }
}

// ---------------------------------------------------------------------------
// A change within some names
// ---------------------------------------------------------------------------

/// Between the graphs, nothing is different beyond the names: the same other
/// entities, the same relations with an end beyond, the same types but for new
/// ones, and the same totals.
#[verifier::opaque]
spec fn apart(m: GraphModel, h: GraphModel, names: Set<Seq<char>>) -> bool {
    &&& sound(h)
    &&& chosen(m, m.entities, stranger(names)) == chosen(h, h.entities, stranger(names))
    &&& rows_where(m, m.relations, beyond(names)) == rows_where(h, h.relations, beyond(names))
    &&& m.types.len() <= h.types.len()
    &&& forall|i: int|
        0 <= i < h.types.len() ==> if i < m.types.len() {
            #[trigger] h.types[i] == m.types[i]
        } else {
            h.types[i].count == 0
        }
    &&& h.stat == m.stat
    &&& m.next_entity_id <= h.next_entity_id
}

proof fn lemma_chosen_agree(
    m: GraphModel,
    es: Seq<EntityModel>,
    p: spec_fn(Seq<char>) -> bool,
    q: spec_fn(Seq<char>) -> bool,
)
    requires
        forall|n: Seq<char>| #[trigger] p(n) == q(n),
    ensures
        chosen(m, es, p) == chosen(m, es, q),
    decreases es.len(),
{
    if es.len() > 0 {
        lemma_chosen_agree(m, es.drop_last(), p, q);
        assert(p(es.last().name) == q(es.last().name));
    }
}

/// The captured entities are the live rows of the names.
proof fn lemma_members(m: GraphModel, names: Set<Seq<char>>, w: spec_fn(SnapshotData) -> int)
    requires
        sound(m),
        listable(names),
    ensures
        total(all_live(m), w) == total(captured(m, names).entities, w) + total(
            chosen(m, m.entities, stranger(names)),
            w,
        ),
{
    let list = listed(names);
    let p = |n: Seq<char>| list.contains(n);
    lemma_listed(names);
    lemma_captured_total(m, list, w);
    assert forall|n: Seq<char>| #[trigger] p(n) == member(names)(n) by {
        assert(list.contains(n) <==> names.contains(n));
    }
    lemma_chosen_agree(m, m.entities, p, member(names));
    lemma_chosen_parts(m, m.entities, member(names), stranger(names), any(), w);
}

proof fn lemma_entities_delta(
    m: GraphModel,
    h: GraphModel,
    names: Set<Seq<char>>,
    w: spec_fn(SnapshotData) -> int,
)
    requires
        sound(m),
        listable(names),
        apart(m, h, names),
    ensures
        total(all_live(h), w) - total(all_live(m), w) == total(captured(h, names).entities, w) - total(
            captured(m, names).entities,
            w,
        ),
{
    reveal(apart);
    lemma_members(m, names, w);
    lemma_members(h, names, w);
}

/// Moved by the difference between the captures, the totals are exact.
proof fn lemma_totals(m: GraphModel, h: GraphModel, names: Set<Seq<char>>)
    requires
        exact(m),
        listable(names),
        apart(m, h, names),
    ensures
        ({
            let stat = retotal(h.stat, captured(m, names), captured(h, names));
            &&& total_exact(stat.entities, live_count(h.entities))
            &&& total_exact(stat.relations, h.relations.len() as int)
            &&& total_exact(stat.observations, live_observations(h.entities))
        }),
{
    reveal(apart);
    let (b, a) = (captured(m, names), captured(h, names));
    let one = |s: SnapshotData| 1int;
    let many = |s: SnapshotData| s.observations.len() as int;
    lemma_entities_delta(m, h, names, one);
    lemma_entities_delta(m, h, names, many);
    lemma_live_totals(m, m.entities);
    lemma_live_totals(h, h.entities);
    lemma_captured_totals(b.entities);
    lemma_captured_totals(a.entities);
    lemma_touching(m, m.relations, names);
    lemma_touching(h, h.relations, names);
    lemma_rows_delta(m, h, names, any());
    lemma_all_len(m, m.relations);
    lemma_all_len(h, h.relations);
    lemma_count_any(all_rows(m));
    lemma_count_any(all_rows(h));
    lemma_count_any(a.rows);
    lemma_count_any(b.rows);
}

/// How often a type of that kind and name is used.
spec fn used(m: GraphModel, kind: int, name: Seq<char>) -> int {
    if kind == ENTITY_KIND {
        count_of(all_live(m), of_type(name))
    } else if kind == RELATION_KIND {
        count_of(all_rows(m), related_by(name))
    } else {
        0
    }
}

proof fn lemma_used(m: GraphModel, k: int)
    requires
        sound(m),
        0 <= k < m.types.len(),
    ensures
        actual_count(m, m.types[k]) == used(m, m.types[k].kind, m.types[k].name),
{
    if m.types[k].kind == ENTITY_KIND {
        lemma_type_entities(m, m.entities.len() as int, k);
        assert(m.entities.take(m.entities.len() as int) =~= m.entities);
    } else if m.types[k].kind == RELATION_KIND {
        lemma_type_rows(m, m.relations, k);
    }
}

/// Moved by the difference between the captures, the counts of the types are
/// exact.
proof fn lemma_type_counts(m: GraphModel, h: GraphModel, names: Set<Seq<char>>, k: int)
    requires
        exact(m),
        listable(names),
        apart(m, h, names),
        0 <= k < h.types.len(),
    ensures
        recount(h.types[k], captured(m, names), captured(h, names)).count == actual_count(h, h.types[k]),
{
    reveal(apart);
    let t = h.types[k];
    let (b, a) = (captured(m, names), captured(h, names));
    lemma_used(h, k);
    if k < m.types.len() {
        assert(h.types[k] == m.types[k]);
        lemma_used(m, k);
        assert(m.types[k].count == actual_count(m, m.types[k]));
    } else {
        assert(t.count == 0);
        assert forall|j: int| 0 <= j < m.types.len() implies !((#[trigger] m.types[j]).kind == t.kind
            && m.types[j].name == t.name) by {
            assert(h.types[j] == m.types[j]);
            assert(!(h.types[j].kind == h.types[k].kind && h.types[j].name == h.types[k].name));
        }
        if t.kind == ENTITY_KIND {
            lemma_unused_entities(m, m.entities.len() as int, t.name);
            assert(m.entities.take(m.entities.len() as int) =~= m.entities);
        } else if t.kind == RELATION_KIND {
            lemma_unused_rows(m, m.relations, t.name);
        }
    }
    assert(t.count == used(m, t.kind, t.name));
    if t.kind == ENTITY_KIND {
        lemma_entities_delta(m, h, names, ones(of_type(t.name)));
        lemma_count_total(all_live(m), of_type(t.name));
        lemma_count_total(all_live(h), of_type(t.name));
        lemma_count_total(a.entities, of_type(t.name));
        lemma_count_total(b.entities, of_type(t.name));
    } else if t.kind == RELATION_KIND {
        lemma_touching(m, m.relations, names);
        lemma_touching(h, h.relations, names);
        lemma_rows_delta(m, h, names, related_by(t.name));
    }
}

// ---------------------------------------------------------------------------
// The counters of the entities
// ---------------------------------------------------------------------------

/// The change has its entity's counters taken anew.
spec fn renews(c: ChangeData, id: int) -> bool {
    c.operation != ChangeOperation::Rename && (c.after matches Some(s) && s.entity_id == id)
}

/// What refreshing leaves alone.
spec fn same_but_counters(a: EntityModel, b: EntityModel) -> bool {
    &&& a.id == b.id && a.name == b.name && a.type_id == b.type_id
    &&& a.observations == b.observations && a.flags == b.flags
}

proof fn lemma_refreshed(
    es: Seq<EntityModel>,
    cs: Seq<ChangeData>,
    rows: Seq<RelationData>,
    now: int,
    i: int,
)
    requires
        0 <= i < es.len(),
    ensures
        refreshed(es, cs, rows, now).len() == es.len(),
        same_but_counters(refreshed(es, cs, rows, now)[i], es[i]),
        (forall|k: int| 0 <= k < cs.len() ==> !renews(#[trigger] cs[k], es[i].id)) ==> refreshed(
            es,
            cs,
            rows,
            now,
        )[i] == es[i],
        forall|s: SnapshotData|
            (forall|k: int|
                0 <= k < cs.len() && renews(#[trigger] cs[k], es[i].id) ==> cs[k].after == Some(s)) && (
            exists|k: int| 0 <= k < cs.len() && renews(#[trigger] cs[k], es[i].id)) ==> {
                let e = #[trigger] refresh(es[i], s, rows, now);
                let f = refreshed(es, cs, rows, now)[i];
                f.obs_count == e.obs_count && f.out_deg == e.out_deg && f.in_deg == e.in_deg
            },
    decreases cs.len(),
{
    if cs.len() > 0 {
        let (t, c) = (cs.drop_last(), cs.last());
        let head = refreshed(es, t, rows, now);
        lemma_refreshed(es, t, rows, now, i);
        let f = refreshed(es, cs, rows, now)[i];
        assert(cs[cs.len() - 1] == c);
        assert forall|k: int| 0 <= k < t.len() implies #[trigger] t[k] == cs[k] by {}
        if renews(c, es[i].id) {
            let s = c.after->0;
            assert(f == refresh(head[i], s, rows, now));
            assert(renews(cs[cs.len() - 1], es[i].id));
        } else {
            assert(f == head[i]);
            if forall|k: int| 0 <= k < cs.len() ==> !renews(#[trigger] cs[k], es[i].id) {
                assert forall|k: int| 0 <= k < t.len() implies !renews(#[trigger] t[k], es[i].id) by {
                    assert(!renews(cs[k], es[i].id));
                }
            }
            assert forall|s: SnapshotData|
                (forall|k: int|
                    0 <= k < cs.len() && renews(#[trigger] cs[k], es[i].id) ==> cs[k].after == Some(s)) && (
                exists|k: int| 0 <= k < cs.len() && renews(#[trigger] cs[k], es[i].id)) implies {
                let e = #[trigger] refresh(es[i], s, rows, now);
                f.obs_count == e.obs_count && f.out_deg == e.out_deg && f.in_deg == e.in_deg
            } by {
                assert forall|k: int| 0 <= k < t.len() && renews(#[trigger] t[k], es[i].id) implies t[k].after
                    == Some(s) by {
                    assert(renews(cs[k], es[i].id));
                }
                let k = choose|k: int| 0 <= k < cs.len() && renews(#[trigger] cs[k], es[i].id);
                assert(k < t.len());
                assert(renews(t[k], es[i].id));
            }
        }
    }
}

/// Every live entity beyond the names was there with the same counters, and so
/// was every other one that is not new.
#[verifier::opaque]
spec fn kin(m: GraphModel, h: GraphModel, names: Set<Seq<char>>) -> bool {
    forall|i: int|
        0 <= i < h.entities.len() && (#[trigger] h.entities[i]).flags == 0 ==> {
            ||| h.entities[i].id >= m.next_entity_id && names.contains(h.entities[i].name)
            ||| exists|j: int|
                0 <= j < m.entities.len() && carried(#[trigger] m.entities[j], h.entities[i], names)
        }
}

/// The row goes on as another one.
spec fn carried(a: EntityModel, b: EntityModel, names: Set<Seq<char>>) -> bool {
    &&& a.id == b.id && a.name == b.name && a.flags == b.flags
    &&& a.obs_count == b.obs_count && a.out_deg == b.out_deg && a.in_deg == b.in_deg
    &&& names.contains(b.name) || a.observations == b.observations
}

/// How often a relation is stored.
spec fn stored(m: GraphModel, d: RelationData) -> int {
    count_of(all_rows(m), same_as(d))
}

/// A relation is stored as often as before, or it is new, or it is gone.
spec fn no_recount(m: GraphModel, h: GraphModel) -> bool {
    forall|d: RelationData|
        {
            ||| #[trigger] stored(h, d) == stored(m, d)
            ||| stored(m, d) == 0 && stored(h, d) == 1
            ||| stored(h, d) == 0
        }
}

proof fn lemma_count_contains(s: Seq<RelationData>, d: RelationData)
    ensures
        count_of(s, same_as(d)) > 0 <==> s.contains(d),
        count_of(s, same_as(d)) >= 0,
{
    lemma_count_bounds(s, same_as(d));
    if count_of(s, same_as(d)) > 0 {
        let j = lemma_count_some(s, same_as(d));
        assert(s[j] == d);
    }
    if s.contains(d) {
        let j = s.index_of(d);
        lemma_count_remove(s, j, same_as(d));
        lemma_count_bounds(s.remove(j), same_as(d));
    }
}

/// What a capture holds under a name.
proof fn lemma_captured_entity(h: GraphModel, names: Set<Seq<char>>, n: Seq<char>)
    requires
        listable(names),
    ensures
        captured(h, names).entity(n) == (if names.contains(n) {
            h.snapshot(n)
        } else {
            None
        }),
{
    let c = captured(h, names);
    let list = listed(names);
    lemma_listed(names);
    lemma_captured_distinct(h, list);
    lemma_snapshot_name(h, n);
    if exists|i: int| c.at(n, i) {
        let i = choose|i: int| c.at(n, i);
        assert(c.at(n, i));
        assert(list.contains(c.entities[i].name));
        assert(h.snapshot(c.entities[i].name) == Some(c.entities[i]));
    } else if names.contains(n) && h.snapshot(n) is Some {
        let k = list.index_of(n);
        assert(list[k] == n);
        assert(c.entities.contains(h.snapshot(list[k])->0));
        let i = c.entities.index_of(h.snapshot(n)->0);
        assert(c.at(n, i));
    }
}

/// A change that renews an entity is the change of that entity.
proof fn lemma_renews(
    m: GraphModel,
    h: GraphModel,
    names: Set<Seq<char>>,
    cs: Seq<ChangeData>,
    i: int,
    k: int,
)
    requires
        sound(h),
        listable(names),
        tell_all(cs, captured(m, names), captured(h, names)),
        0 <= i < h.entities.len(),
        h.entities[i].flags == 0,
        0 <= k < cs.len(),
        renews(cs[k], h.entities[i].id),
    ensures
        cs[k].subject() == h.entities[i].name,
        cs[k].after == Some(snap(h, h.entities[i])),
        names.contains(h.entities[i].name),
{
    let e = h.entities[i];
    let n = cs[k].subject();
    assert(tells(cs[k], captured(m, names), captured(h, names), n));
    lemma_captured_entity(h, names, n);
    assert(h.snapshot(n) is Some);
    let j = lemma_snapshot_row(h, n);
    assert(h.entities[j].id == e.id);
    if j < i {
        assert(h.entities[j].id != h.entities[i].id);
    } else if i < j {
        assert(h.entities[i].id != h.entities[j].id);
    }
}

/// Refreshed by the changes, the counters of an entity are exact.
proof fn lemma_entity_counters(
    m: GraphModel,
    h: GraphModel,
    names: Set<Seq<char>>,
    cs: Seq<ChangeData>,
    now: int,
    i: int,
)
    requires
        exact(m),
        listable(names),
        apart(m, h, names),
        kin(m, h, names),
        no_recount(m, h),
        tell_all(cs, captured(m, names), captured(h, names)),
        0 <= i < h.entities.len(),
        h.entities[i].flags == 0,
    ensures
        entity_exact(h, refreshed(h.entities, cs, captured(h, names).rows, now)[i]),
{
    reveal(apart);
    reveal(kin);
    let (b, a) = (captured(m, names), captured(h, names));
    let e = h.entities[i];
    let n = e.name;
    let s = snap(h, e);
    lemma_refreshed(h.entities, cs, a.rows, now, i);
    lemma_degrees(h, h.relations, i);
    lemma_snapshot_at(h, i);
    lemma_captured_entity(h, names, n);
    lemma_captured_entity(m, names, n);
    assert forall|k: int| 0 <= k < cs.len() && renews(#[trigger] cs[k], e.id) implies cs[k].after == Some(s)
        && cs[k].subject() == n && names.contains(n) by {
        lemma_renews(m, h, names, cs, i, k);
    }
    if !names.contains(n) {
        let j = choose|j: int| 0 <= j < m.entities.len() && carried(#[trigger] m.entities[j], e, names);
        assert(carried(m.entities[j], e, names));
        assert(entity_exact(m, m.entities[j]));
        lemma_degrees(m, m.relations, j);
        lemma_beyond_count(m, names, leaving(n));
        lemma_beyond_count(h, names, leaving(n));
        lemma_beyond_count(m, names, entering(n));
        lemma_beyond_count(h, names, entering(n));
    } else if differs(b, a, n) {
        let k = choose|k: int| 0 <= k < cs.len() && (#[trigger] cs[k]).subject() == n;
        assert(tells(cs[k], b, a, n));
        assert(renews(cs[k], e.id));
        lemma_touching(h, h.relations, names);
        lemma_near_count(h, names, leaving(n));
        lemma_near_count(h, names, entering(n));
        let f = refresh(e, s, a.rows, now);
        assert(f.obs_count == e.observations.len());
    } else {
        assert forall|k: int| 0 <= k < cs.len() implies !renews(#[trigger] cs[k], e.id) by {
            if renews(cs[k], e.id) {
                assert(differs(b, a, cs[k].subject()));
            }
        }
        assert(m.snapshot(n) == Some(s));
        let j = lemma_snapshot_row(m, n);
        assert(m.entities[j].id == e.id);
        assert(m.entities[j].id < m.next_entity_id);
        let l = choose|l: int| 0 <= l < m.entities.len() && carried(#[trigger] m.entities[l], e, names);
        assert(carried(m.entities[l], e, names));
        if l < j {
            assert(m.entities[l].id != m.entities[j].id);
        } else if j < l {
            assert(m.entities[j].id != m.entities[l].id);
        }
        assert(entity_exact(m, m.entities[j]));
        lemma_degrees(m, m.relations, j);
        assert forall|d: RelationData| d.touches(n) implies #[trigger] count_of(all_rows(m), same_as(d))
            == count_of(all_rows(h), same_as(d)) by {
            lemma_same_stored(m, h, names, n, d);
        }
        lemma_count_permuted(all_rows(m), all_rows(h), leaving(n));
        lemma_count_permuted(all_rows(m), all_rows(h), entering(n));
    }
}

/// A relation of an entity that does not differ is stored as often as before.
proof fn lemma_same_stored(
    m: GraphModel,
    h: GraphModel,
    names: Set<Seq<char>>,
    n: Seq<char>,
    d: RelationData,
)
    requires
        sound(m),
        sound(h),
        no_recount(m, h),
        names.contains(n),
        h.snapshot(n) is Some,
        listable(names),
        !differs(captured(m, names), captured(h, names), n),
        d.touches(n),
    ensures
        stored(m, d) == stored(h, d),
{
    let (b, a) = (captured(m, names), captured(h, names));
    lemma_captured_entity(h, names, n);
    lemma_touching(m, m.relations, names);
    lemma_touching(h, h.relations, names);
    lemma_near_count(m, names, same_as(d));
    lemma_near_count(h, names, same_as(d));
    lemma_count_contains(b.rows, d);
    lemma_count_contains(a.rows, d);
    assert(stored(h, d) == stored(m, d) || stored(m, d) == 0 || stored(h, d) == 0);
    assert(!gained(b, a, n).contains(d));
    assert(!gained(a, b, n).contains(d));
}

/// A graph whose counters were moved and refreshed is still sound.
proof fn lemma_recounted_sound(
    h: GraphModel,
    b: Captured,
    a: Captured,
    cs: Seq<ChangeData>,
    now: int,
)
    requires
        sound(h),
    ensures
        sound(recounted(h, b, a, cs, now)),
{
    let g = recounted(h, b, a, cs, now);
    assert forall|i: int| 0 <= i < h.entities.len() implies g.entities.len() == h.entities.len()
        && same_but_counters(#[trigger] g.entities[i], h.entities[i]) by {
        lemma_refreshed(h.entities, cs, a.rows, now, i);
    }
    lemma_refreshed_len(h.entities, cs, a.rows, now);
    assert forall|i: int, j: int| 0 <= i < j < g.entities.len() implies (#[trigger] g.entities[i]).id != (
    #[trigger] g.entities[j]).id by {
        assert(h.entities[i].id != h.entities[j].id);
    }
    assert forall|i: int, j: int|
        0 <= i < j < g.entities.len() && (#[trigger] g.entities[i]).flags == 0 && (
        #[trigger] g.entities[j]).flags == 0 implies g.entities[i].name != g.entities[j].name by {
        assert(h.entities[i].name != h.entities[j].name);
    }
    assert forall|i: int, j: int| 0 <= i < j < g.types.len() implies (#[trigger] g.types[i]).id != (
    #[trigger] g.types[j]).id && !(g.types[i].kind == g.types[j].kind && g.types[i].name == g.types[j].name) by {
        assert(h.types[i].id != h.types[j].id);
    }
    assert forall|kind: int, id: int| #[trigger] has_type(h.types, kind, id) implies has_type(
        g.types,
        kind,
        id,
    ) by {
        let k = choose|k: int| 0 <= k < h.types.len() && (#[trigger] h.types[k]).id == id && h.types[k].kind == kind;
        assert(g.types[k].id == id && g.types[k].kind == kind);
    }
    assert forall|id: int| #[trigger] live_id(h.entities, id) implies live_id(g.entities, id) by {
        let k = choose|k: int|
            0 <= k < h.entities.len() && (#[trigger] h.entities[k]).id == id && h.entities[k].flags == 0;
        assert(g.entities[k].id == id && g.entities[k].flags == 0);
    }
    assert forall|i: int| 0 <= i < g.entities.len() && (#[trigger] g.entities[i]).flags == 0 implies has_type(
        g.types,
        ENTITY_KIND as int,
        g.entities[i].type_id,
    ) by {
        assert(has_type(h.types, ENTITY_KIND as int, h.entities[i].type_id));
    }
    assert forall|i: int| 0 <= i < g.relations.len() implies anchored(g, #[trigger] g.relations[i]) by {
        assert(anchored(h, h.relations[i]));
    }
}

proof fn lemma_refreshed_len(
    es: Seq<EntityModel>,
    cs: Seq<ChangeData>,
    rows: Seq<RelationData>,
    now: int,
)
    ensures
        refreshed(es, cs, rows, now).len() == es.len(),
    decreases cs.len(),
{
    if cs.len() > 0 {
        lemma_refreshed_len(es, cs.drop_last(), rows, now);
    }
}

/// Rows that differ in their counters alone are counted alike.
proof fn lemma_count_like(a: Seq<EntityModel>, b: Seq<EntityModel>, id: int)
    requires
        a.len() == b.len(),
        forall|i: int| 0 <= i < a.len() ==> same_but_counters(#[trigger] a[i], b[i]),
    ensures
        count_of(a, live_of_type(id)) == count_of(b, live_of_type(id)),
        live_count(a) == live_count(b),
        live_observations(a) == live_observations(b),
    decreases a.len(),
{
    if a.len() > 0 {
        let (x, y) = (a.drop_last(), b.drop_last());
        assert forall|i: int| 0 <= i < x.len() implies same_but_counters(#[trigger] x[i], y[i]) by {
            assert(same_but_counters(a[i], b[i]));
        }
        lemma_count_like(x, y, id);
        assert(same_but_counters(a[a.len() - 1], b[b.len() - 1]));
    }
}

/// A change within some names leaves the counters exact, once they are moved by
/// the difference between the captures of those names, where every entity's own
/// counters are.
proof fn lemma_exact_after(
    m: GraphModel,
    h: GraphModel,
    names: Set<Seq<char>>,
    cs: Seq<ChangeData>,
    now: int,
)
    requires
        exact(m),
        listable(names),
        apart(m, h, names),
        forall|i: int|
            0 <= i < h.entities.len() && (#[trigger] h.entities[i]).flags == 0 ==> entity_exact(
                h,
                refreshed(h.entities, cs, captured(h, names).rows, now)[i],
            ),
    ensures
        exact(recounted(h, captured(m, names), captured(h, names), cs, now)),
{
    reveal(apart);
    let (b, a) = (captured(m, names), captured(h, names));
    let g = recounted(h, b, a, cs, now);
    lemma_recounted_sound(h, b, a, cs, now);
    lemma_totals(m, h, names);
    lemma_refreshed_len(h.entities, cs, a.rows, now);
    assert forall|i: int| 0 <= i < g.entities.len() implies same_but_counters(
        #[trigger] g.entities[i],
        h.entities[i],
    ) by {
        lemma_refreshed(h.entities, cs, a.rows, now, i);
    }
    lemma_count_like(g.entities, h.entities, 0);
    assert forall|k: int| 0 <= k < g.types.len() implies (#[trigger] g.types[k]).count == actual_count(
        g,
        g.types[k],
    ) by {
        lemma_type_counts(m, h, names, k);
        lemma_count_like(g.entities, h.entities, h.types[k].id);
    }
    assert forall|i: int| 0 <= i < g.entities.len() && (#[trigger] g.entities[i]).flags == 0 implies entity_exact(
        g,
        g.entities[i],
    ) by {
        assert(same_but_counters(g.entities[i], h.entities[i]));
        assert(entity_exact(h, refreshed(h.entities, cs, a.rows, now)[i]));
    }
}

// ---------------------------------------------------------------------------
// Steps within some names
// ---------------------------------------------------------------------------

/// The second graph comes from the first by a change within the names.
spec fn step(m: GraphModel, h: GraphModel, names: Set<Seq<char>>) -> bool {
    sound(m) && sound(h) && apart(m, h, names) && kin(m, h, names)
}

proof fn lemma_step_refl(m: GraphModel, names: Set<Seq<char>>)
    requires
        sound(m),
    ensures
        step(m, m, names),
{
    reveal(apart);
    reveal(kin);
    assert forall|i: int| 0 <= i < m.entities.len() && (#[trigger] m.entities[i]).flags == 0 implies exists|j: int|
        0 <= j < m.entities.len() && carried(#[trigger] m.entities[j], m.entities[i], names) by {
        assert(carried(m.entities[i], m.entities[i], names));
    }
}

proof fn lemma_step_trans(a: GraphModel, b: GraphModel, c: GraphModel, names: Set<Seq<char>>)
    requires
        step(a, b, names),
        step(b, c, names),
    ensures
        step(a, c, names),
{
    reveal(apart);
    reveal(kin);
    assert forall|i: int| 0 <= i < c.types.len() implies if i < a.types.len() {
        #[trigger] c.types[i] == a.types[i]
    } else {
        c.types[i].count == 0
    } by {
        if i < b.types.len() {
            assert(c.types[i] == b.types[i]);
            if i < a.types.len() {
                assert(b.types[i] == a.types[i]);
            }
        }
    }
    assert forall|i: int| 0 <= i < c.entities.len() && (#[trigger] c.entities[i]).flags == 0 implies {
        ||| c.entities[i].id >= a.next_entity_id && names.contains(c.entities[i].name)
        ||| exists|j: int|
            0 <= j < a.entities.len() && carried(#[trigger] a.entities[j], c.entities[i], names)
    } by {
        if exists|j: int| 0 <= j < b.entities.len() && carried(#[trigger] b.entities[j], c.entities[i], names) {
            let j = choose|j: int|
                0 <= j < b.entities.len() && carried(#[trigger] b.entities[j], c.entities[i], names);
            if exists|l: int| 0 <= l < a.entities.len() && carried(#[trigger] a.entities[l], b.entities[j], names) {
                let l = choose|l: int|
                    0 <= l < a.entities.len() && carried(#[trigger] a.entities[l], b.entities[j], names);
                assert(carried(a.entities[l], c.entities[i], names));
            }
        }
    }
}

/// Relations were only added, and each only once.
spec fn grown(m: GraphModel, h: GraphModel) -> bool {
    forall|d: RelationData| #[trigger] stored(h, d) == stored(m, d) || stored(m, d) == 0 && stored(h, d) == 1
}

/// Relations were only taken away.
spec fn shrunk(m: GraphModel, h: GraphModel) -> bool {
    forall|d: RelationData| #[trigger] stored(h, d) == stored(m, d) || stored(h, d) == 0
}

proof fn lemma_grown_trans(a: GraphModel, b: GraphModel, c: GraphModel)
    requires
        grown(a, b),
        grown(b, c),
    ensures
        grown(a, c),
{
    assert forall|d: RelationData| #[trigger] stored(c, d) == stored(a, d) || stored(a, d) == 0 && stored(c, d)
        == 1 by {
        assert(stored(b, d) == stored(a, d) || stored(a, d) == 0 && stored(b, d) == 1);
        assert(stored(c, d) == stored(b, d) || stored(b, d) == 0 && stored(c, d) == 1);
    }
}

proof fn lemma_shrunk_trans(a: GraphModel, b: GraphModel, c: GraphModel)
    requires
        shrunk(a, b),
        shrunk(b, c),
    ensures
        shrunk(a, c),
{
    assert forall|d: RelationData| #[trigger] stored(c, d) == stored(a, d) || stored(c, d) == 0 by {
        assert(stored(b, d) == stored(a, d) || stored(b, d) == 0);
        assert(stored(c, d) == stored(b, d) || stored(c, d) == 0);
        lemma_count_bounds(all_rows(c), same_as(d));
    }
}

proof fn lemma_no_recount(a: GraphModel, b: GraphModel, c: GraphModel)
    requires
        grown(a, b),
        shrunk(b, c),
    ensures
        no_recount(a, c),
{
    assert forall|d: RelationData|
        {
            ||| #[trigger] stored(c, d) == stored(a, d)
            ||| stored(a, d) == 0 && stored(c, d) == 1
            ||| stored(c, d) == 0
        } by {
        assert(stored(b, d) == stored(a, d) || stored(a, d) == 0 && stored(b, d) == 1);
        assert(stored(c, d) == stored(b, d) || stored(c, d) == 0);
    }
}

/// Rows that say the same in both graphs are chosen alike.
proof fn lemma_labels_kept(
    m: GraphModel,
    h: GraphModel,
    rows: Seq<RelationModel>,
    p: spec_fn(RelationData) -> bool,
)
    requires
        forall|i: int| 0 <= i < rows.len() ==> label(m, #[trigger] rows[i]) == label(h, rows[i]),
    ensures
        rows_where(m, rows, p) == rows_where(h, rows, p),
    decreases rows.len(),
{
    if rows.len() > 0 {
        let t = rows.drop_last();
        assert forall|i: int| 0 <= i < t.len() implies label(m, #[trigger] t[i]) == label(h, t[i]) by {
            assert(t[i] == rows[i]);
        }
        lemma_labels_kept(m, h, t, p);
        assert(label(m, rows[rows.len() - 1]) == label(h, rows[rows.len() - 1]));
    }
}

proof fn lemma_chosen_kept(
    m: GraphModel,
    h: GraphModel,
    es: Seq<EntityModel>,
    p: spec_fn(Seq<char>) -> bool,
)
    requires
        forall|i: int|
            0 <= i < es.len() && (#[trigger] es[i]).flags == 0 ==> kind_name(m, es[i].type_id) == kind_name(
                h,
                es[i].type_id,
            ),
    ensures
        chosen(m, es, p) == chosen(h, es, p),
    decreases es.len(),
{
    if es.len() > 0 {
        let t = es.drop_last();
        assert forall|i: int| 0 <= i < t.len() && (#[trigger] t[i]).flags == 0 implies kind_name(m, t[i].type_id)
            == kind_name(h, t[i].type_id) by {
            assert(t[i] == es[i]);
        }
        lemma_chosen_kept(m, h, t, p);
        assert(es[es.len() - 1] == es.last());
    }
}

// ---------------------------------------------------------------------------
// New types, entities and relations
// ---------------------------------------------------------------------------

proof fn lemma_least_type(ts: Seq<TypeModel>, kind: int, name: Seq<char>, j: int)
    requires
        0 <= j < ts.len(),
        ts[j].kind == kind && ts[j].name == name,
    ensures
        exists|i: int| first_type(ts, kind, name, i),
    decreases j,
{
    if exists|k: int| 0 <= k < j && (#[trigger] ts[k]).kind == kind && ts[k].name == name {
        let k = choose|k: int| 0 <= k < j && (#[trigger] ts[k]).kind == kind && ts[k].name == name;
        lemma_least_type(ts, kind, name, k);
    } else {
        assert(first_type(ts, kind, name, j));
    }
}

/// The dictionary may gain a type; whatever was there still means the same.
proof fn lemma_with_type(m: GraphModel, kind: int, name: Seq<char>, names: Set<Seq<char>>)
    requires
        sound(m),
    ensures
        ({
            let h = m.with_type(kind, name);
            let id = m.type_id(kind, name);
            &&& step(m, h, names)
            &&& all_rows(h) == all_rows(m)
            &&& has_type(h.types, kind, id)
            &&& kind_name(h, id) == name
            &&& h.entities == m.entities && h.relations == m.relations && h.next_entity_id == m.next_entity_id
            &&& forall|r: RelationModel| anchored(m, r) ==> #[trigger] label(h, r) == label(m, r)
            &&& forall|k: int, x: int| #[trigger]
                has_type(m.types, k, x) ==> kind_name(h, x) == kind_name(m, x)
        }),
{
    reveal(apart);
    reveal(kin);
    let h = m.with_type(kind, name);
    let id = m.type_id(kind, name);
    match find_type(m.types, kind, name) {
        Some(k) => {
            assert(first_type(m.types, kind, name, k));
            assert(m.types[k].id == id);
            let _ = lemma_has_type(m, kind, id);
            lemma_step_refl(m, names);
        },
        None => {
            lemma_top_type_id(m.types);
            let new = h.types[m.types.len() as int];
            assert forall|i: int| 0 <= i < m.types.len() implies h.types[i] == #[trigger] m.types[i] && !(
            m.types[i].kind == kind && m.types[i].name == name) && m.types[i].id != id by {
                if m.types[i].kind == kind && m.types[i].name == name {
                    lemma_least_type(m.types, kind, name, i);
                }
            }
            assert forall|i: int, j: int| 0 <= i < j < h.types.len() implies (#[trigger] h.types[i]).id != (
            #[trigger] h.types[j]).id && !(h.types[i].kind == h.types[j].kind && h.types[i].name
                == h.types[j].name) by {
                if j < m.types.len() {
                    assert(m.types[i].id != m.types[j].id);
                } else {
                    assert(m.types[i].id != id);
                }
            }
            assert forall|k: int, x: int| #[trigger] has_type(m.types, k, x) implies has_type(h.types, k, x)
                && kind_name(h, x) == kind_name(m, x) by {
                let j = lemma_has_type(m, k, x);
                assert(h.types[j] == m.types[j]);
                lemma_find_type_id(h.types, j);
            }
            assert(new.id == id && new.kind == kind);
            lemma_find_type_id(h.types, m.types.len() as int);
            assert forall|r: RelationModel| anchored(m, r) implies #[trigger] label(h, r) == label(m, r)
                && anchored(h, r) by {
                assert(has_type(m.types, RELATION_KIND as int, r.type_id));
            }
            assert(sound(h));
            assert forall|i: int| 0 <= i < m.relations.len() implies label(m, #[trigger] m.relations[i])
                == label(h, m.relations[i]) by {
                assert(anchored(m, m.relations[i]));
            }
            lemma_labels_kept(m, h, m.relations, beyond(names));
            lemma_labels_kept(m, h, m.relations, any());
            assert forall|i: int| 0 <= i < m.entities.len() && (#[trigger] m.entities[i]).flags == 0 implies kind_name(
                m,
                m.entities[i].type_id,
            ) == kind_name(h, m.entities[i].type_id) by {
                assert(has_type(m.types, ENTITY_KIND as int, m.entities[i].type_id));
            }
            lemma_chosen_kept(m, h, m.entities, stranger(names));
            assert forall|i: int| 0 <= i < h.entities.len() && (#[trigger] h.entities[i]).flags == 0 implies exists|j:
                int| 0 <= j < m.entities.len() && carried(#[trigger] m.entities[j], h.entities[i], names) by {
                assert(carried(m.entities[i], h.entities[i], names));
            }
        },
    }
}

/// No live row has a name of which there is no snapshot.
proof fn lemma_no_snapshot(m: GraphModel, name: Seq<char>, i: int)
    requires
        sound(m),
        m.snapshot(name) is None,
        0 <= i < m.entities.len(),
        m.entities[i].flags == 0,
    ensures
        m.entities[i].name != name,
{
    lemma_snapshot_at(m, i);
}

/// An entity is created within its name.
proof fn lemma_create_entity(m: GraphModel, e: EntityData, now: int, names: Set<Seq<char>>)
    requires
        sound(m),
        names.contains(e.name),
    ensures
        step(m, m.create_entity(e, now).0, names),
        all_rows(m.create_entity(e, now).0) == all_rows(m),
{
    reveal(apart);
    reveal(kin);
    let h = m.create_entity(e, now).0;
    if e.name.len() == 0 || m.snapshot(e.name) is Some {
        lemma_step_refl(m, names);
    } else {
        let t = m.with_type(ENTITY_KIND as int, e.entity_type);
        lemma_with_type(m, ENTITY_KIND as int, e.entity_type, names);
        let n = m.entities.len() as int;
        assert forall|i: int| 0 <= i < n implies #[trigger] h.entities[i] == m.entities[i] by {}
        assert forall|i: int, j: int| 0 <= i < j < h.entities.len() implies (#[trigger] h.entities[i]).id != (
        #[trigger] h.entities[j]).id by {
            if j < n {
                assert(m.entities[i].id != m.entities[j].id);
            } else {
                assert(m.entities[i].id < m.next_entity_id);
            }
        }
        assert forall|i: int, j: int|
            0 <= i < j < h.entities.len() && (#[trigger] h.entities[i]).flags == 0 && (
            #[trigger] h.entities[j]).flags == 0 implies h.entities[i].name != h.entities[j].name by {
            if j < n {
                assert(m.entities[i].name != m.entities[j].name);
            } else {
                lemma_no_snapshot(m, e.name, i);
            }
        }
        assert forall|id: int| #[trigger] live_id(m.entities, id) implies live_id(h.entities, id) && name_of(
            h,
            id,
        ) == name_of(t, id) by {
            let i = lemma_live_id(m, id);
            assert(h.entities[i].id == id);
            lemma_find_id(h.entities, i);
        }
        assert forall|r: RelationModel| anchored(t, r) implies anchored(h, r) && #[trigger] label(h, r) == label(
            t,
            r,
        ) by {
            assert(live_id(m.entities, r.from_id) && live_id(m.entities, r.to_id));
        }
        assert forall|i: int| 0 <= i < h.entities.len() && (#[trigger] h.entities[i]).flags == 0 implies has_type(
            h.types,
            ENTITY_KIND as int,
            h.entities[i].type_id,
        ) by {
            if i < n {
                assert(has_type(t.types, ENTITY_KIND as int, t.entities[i].type_id));
            }
        }
        assert forall|i: int| 0 <= i < h.relations.len() implies anchored(h, #[trigger] h.relations[i]) by {
            assert(anchored(t, t.relations[i]));
            assert(label(h, t.relations[i]) == label(t, t.relations[i]));
        }
        assert forall|i: int| 0 <= i < h.entities.len() implies (#[trigger] h.entities[i]).id < h.next_entity_id by {
            if i < n {
                assert(m.entities[i].id < m.next_entity_id);
            }
        }
        assert(sound(h));
        assert forall|i: int| 0 <= i < t.relations.len() implies label(t, #[trigger] t.relations[i]) == label(
            h,
            t.relations[i],
        ) by {
            assert(anchored(t, t.relations[i]));
        }
        lemma_labels_kept(t, h, t.relations, beyond(names));
        lemma_labels_kept(t, h, t.relations, any());
        assert forall|i: int| 0 <= i < t.entities.len() && (#[trigger] t.entities[i]).flags == 0 implies kind_name(
            t,
            t.entities[i].type_id,
        ) == kind_name(h, t.entities[i].type_id) by {}
        lemma_chosen_kept(t, h, t.entities, stranger(names));
        assert(h.entities.drop_last() =~= t.entities);
        assert forall|i: int| 0 <= i < h.entities.len() && (#[trigger] h.entities[i]).flags == 0 implies {
            ||| h.entities[i].id >= t.next_entity_id && names.contains(h.entities[i].name)
            ||| exists|j: int|
                0 <= j < t.entities.len() && carried(#[trigger] t.entities[j], h.entities[i], names)
        } by {
            if i < n {
                assert(carried(t.entities[i], h.entities[i], names));
            }
        }
        assert(step(t, h, names));
        lemma_step_trans(m, t, h, names);
    }
}

/// What is said is said by some row.
proof fn lemma_where_source(
    m: GraphModel,
    rows: Seq<RelationModel>,
    p: spec_fn(RelationData) -> bool,
    d: RelationData,
) -> (i: int)
    requires
        rows_where(m, rows, p).contains(d),
    ensures
        0 <= i < rows.len(),
        label(m, rows[i]) == d,
        p(d),
    decreases rows.len(),
{
    let t = rows.drop_last();
    let head = rows_where(m, t, p);
    if p(label(m, rows.last())) && label(m, rows.last()) == d {
        rows.len() - 1
    } else {
        let k = rows_where(m, rows, p).index_of(d);
        assert(head[k] == d);
        lemma_where_source(m, t, p, d)
    }
}

/// What a row says is said.
proof fn lemma_where_holds(
    m: GraphModel,
    rows: Seq<RelationModel>,
    p: spec_fn(RelationData) -> bool,
    i: int,
)
    requires
        0 <= i < rows.len(),
        p(label(m, rows[i])),
    ensures
        rows_where(m, rows, p).contains(label(m, rows[i])),
    decreases rows.len(),
{
    let t = rows.drop_last();
    let (head, whole) = (rows_where(m, t, p), rows_where(m, rows, p));
    let d = label(m, rows[i]);
    if i == rows.len() - 1 {
        assert(whole[head.len() as int] == d);
    } else {
        assert(t[i] == rows[i]);
        lemma_where_holds(m, t, p, i);
        assert(whole[head.index_of(d)] == d);
    }
}

/// A row is added within its ends.
proof fn lemma_push_row(t: GraphModel, r: RelationModel, names: Set<Seq<char>>)
    requires
        sound(t),
        anchored(t, r),
        names.contains(label(t, r).from),
        names.contains(label(t, r).to),
    ensures
        ({
            let h = GraphModel { relations: t.relations.push(r), ..t };
            &&& step(t, h, names)
            &&& all_rows(h) == all_rows(t).push(label(t, r))
        }),
{
    reveal(apart);
    reveal(kin);
    let h = GraphModel { relations: t.relations.push(r), ..t };
    assert forall|x: RelationModel| #[trigger] label(h, x) == label(t, x) by {}
    assert forall|k: int| 0 <= k < h.relations.len() implies anchored(h, #[trigger] h.relations[k]) by {
        if k < t.relations.len() {
            assert(anchored(t, t.relations[k]));
        }
    }
    assert(sound(h));
    assert(h.relations.drop_last() =~= t.relations);
    lemma_labels_kept(t, h, t.relations, beyond(names));
    lemma_labels_kept(t, h, t.relations, any());
    lemma_chosen_kept(t, h, t.entities, stranger(names));
    assert forall|k: int| 0 <= k < h.entities.len() && (#[trigger] h.entities[k]).flags == 0 implies exists|l:
        int| 0 <= l < t.entities.len() && carried(#[trigger] t.entities[l], h.entities[k], names) by {
        assert(carried(t.entities[k], h.entities[k], names));
    }
}

/// A relation that some row says is joined.
proof fn lemma_said_is_joined(t: GraphModel, r: RelationModel)
    requires
        sound(t),
        anchored(t, r),
        all_rows(t).contains(label(t, r)),
    ensures
        joined(t.relations, r.from_id, r.to_id, r.type_id),
{
    let k = lemma_where_source(t, t.relations, any(), label(t, r));
    let x = t.relations[k];
    let kind = RELATION_KIND as int;
    assert(anchored(t, x));
    let (a, i) = (lemma_live_id(t, x.from_id), lemma_live_id(t, r.from_id));
    let (b, j) = (lemma_live_id(t, x.to_id), lemma_live_id(t, r.to_id));
    if a != i {
        assert(t.entities[a].name != t.entities[i].name);
    }
    if b != j {
        assert(t.entities[b].name != t.entities[j].name);
    }
    let (u, v) = (lemma_has_type(t, kind, x.type_id), lemma_has_type(t, kind, r.type_id));
    if u != v {
        assert(t.types[u].name != t.types[v].name);
    }
    assert(joins(t.relations[k], r.from_id, r.to_id, r.type_id));
}

/// A relation is created within its ends.
proof fn lemma_create_relation(m: GraphModel, d: RelationData, now: int, names: Set<Seq<char>>)
    requires
        sound(m),
        names.contains(d.from),
        names.contains(d.to),
    ensures
        step(m, m.create_relation(d, now).0, names),
        grown(m, m.create_relation(d, now).0),
        forall|x: RelationData| #[trigger]
            all_rows(m.create_relation(d, now).0).contains(x) ==> all_rows(m).contains(x) || x == d,
{
    let h = m.create_relation(d, now).0;
    match (m.snapshot(d.from), m.snapshot(d.to)) {
        (Some(f), Some(g)) => {
            let kind = RELATION_KIND as int;
            let t = m.with_type(kind, d.relation_type);
            let id = m.type_id(kind, d.relation_type);
            lemma_with_type(m, kind, d.relation_type, names);
            if !joined(m.relations, f.entity_id, g.entity_id, id) {
                let i = lemma_snapshot_row(m, d.from);
                let j = lemma_snapshot_row(m, d.to);
                let r = RelationModel { from_id: f.entity_id, to_id: g.entity_id, type_id: id, created_us: now };
                assert(t.entities[i].id == r.from_id && t.entities[j].id == r.to_id);
                lemma_find_id(t.entities, i);
                lemma_find_id(t.entities, j);
                assert(anchored(t, r));
                assert(label(t, r) == d);
                assert(h == GraphModel { relations: t.relations.push(r), ..t });
                lemma_push_row(t, r, names);
                lemma_step_trans(m, t, h, names);
                lemma_count_contains(all_rows(t), d);
                if all_rows(t).contains(d) {
                    lemma_said_is_joined(t, r);
                }
                assert forall|x: RelationData| #[trigger] stored(h, x) == stored(m, x) || stored(m, x) == 0
                    && stored(h, x) == 1 by {
                    lemma_count_push(all_rows(t), d, same_as(x));
                }
                assert forall|x: RelationData| #[trigger] all_rows(h).contains(x) implies all_rows(m).contains(x)
                    || x == d by {
                    let k = all_rows(h).index_of(x);
                    if k < all_rows(t).len() {
                        assert(all_rows(t)[k] == x);
                    }
                }
            } else {
                assert forall|x: RelationData| #[trigger] stored(t, x) == stored(m, x) by {}
            }
        },
        _ => {
            lemma_step_refl(m, names);
        },
    }
}

// ---------------------------------------------------------------------------
// Rewritten entities
// ---------------------------------------------------------------------------

/// The function changes nothing of a row but its observations and its type.
spec fn mild(f: spec_fn(EntityModel) -> EntityModel) -> bool {
    forall|e: EntityModel|
        {
            let g = #[trigger] f(e);
            &&& g.id == e.id && g.name == e.name && g.flags == e.flags
            &&& g.obs_count == e.obs_count && g.out_deg == e.out_deg && g.in_deg == e.in_deg
        }
}

proof fn lemma_chosen_rewrite(
    m: GraphModel,
    h: GraphModel,
    es: Seq<EntityModel>,
    id: int,
    f: spec_fn(EntityModel) -> EntityModel,
    p: spec_fn(Seq<char>) -> bool,
)
    requires
        mild(f),
        h.types == m.types,
        forall|i: int| 0 <= i < es.len() && (#[trigger] es[i]).id == id ==> !p(es[i].name),
    ensures
        chosen(h, rewrite(es, id, f), p) == chosen(m, es, p),
    decreases es.len(),
{
    if es.len() > 0 {
        let t = es.drop_last();
        assert(rewrite(es, id, f).drop_last() =~= rewrite(t, id, f));
        assert forall|i: int| 0 <= i < t.len() && (#[trigger] t[i]).id == id implies !p(t[i].name) by {
            assert(t[i] == es[i]);
        }
        lemma_chosen_rewrite(m, h, t, id, f, p);
        assert(es[es.len() - 1] == es.last());
        assert(f(es.last()).name == es.last().name);
    }
}

/// A live entity is rewritten within its name.
proof fn lemma_rewrite(
    m: GraphModel,
    i: int,
    f: spec_fn(EntityModel) -> EntityModel,
    names: Set<Seq<char>>,
)
    requires
        sound(m),
        mild(f),
        0 <= i < m.entities.len(),
        m.entities[i].flags == 0,
        names.contains(m.entities[i].name),
        has_type(m.types, ENTITY_KIND as int, f(m.entities[i]).type_id),
    ensures
        ({
            let h = GraphModel { entities: rewrite(m.entities, m.entities[i].id, f), ..m };
            &&& step(m, h, names)
            &&& all_rows(h) == all_rows(m)
            &&& h.snapshot(m.entities[i].name) is Some
            &&& h.snapshot(m.entities[i].name)->0.entity_id == m.entities[i].id
        }),
{
    reveal(apart);
    reveal(kin);
    let id = m.entities[i].id;
    let h = GraphModel { entities: rewrite(m.entities, id, f), ..m };
    assert forall|k: int| 0 <= k < m.entities.len() implies (#[trigger] h.entities[k]) == (if k == i {
        f(m.entities[k])
    } else {
        m.entities[k]
    }) by {
        if k < i {
            assert(m.entities[k].id != m.entities[i].id);
        } else if i < k {
            assert(m.entities[i].id != m.entities[k].id);
        }
    }
    assert forall|k: int| 0 <= k < m.entities.len() implies (#[trigger] h.entities[k]).id == m.entities[k].id
        && h.entities[k].name == m.entities[k].name && h.entities[k].flags == m.entities[k].flags by {
        let e = f(m.entities[k]);
        assert(e.id == m.entities[k].id);
    }
    assert forall|a: int, b: int| 0 <= a < b < h.entities.len() implies (#[trigger] h.entities[a]).id != (
    #[trigger] h.entities[b]).id by {
        assert(m.entities[a].id != m.entities[b].id);
    }
    assert forall|a: int, b: int|
        0 <= a < b < h.entities.len() && (#[trigger] h.entities[a]).flags == 0 && (
        #[trigger] h.entities[b]).flags == 0 implies h.entities[a].name != h.entities[b].name by {
        assert(m.entities[a].name != m.entities[b].name);
    }
    assert forall|x: int| #[trigger] live_id(m.entities, x) implies live_id(h.entities, x) && name_of(h, x)
        == name_of(m, x) by {
        let k = lemma_live_id(m, x);
        assert(h.entities[k].id == x);
        lemma_find_id(h.entities, k);
    }
    assert forall|k: int| 0 <= k < m.relations.len() implies anchored(h, #[trigger] m.relations[k]) && label(
        m,
        m.relations[k],
    ) == label(h, m.relations[k]) by {
        assert(anchored(m, m.relations[k]));
        assert(live_id(m.entities, m.relations[k].from_id) && live_id(m.entities, m.relations[k].to_id));
    }
    assert forall|k: int| 0 <= k < h.entities.len() && (#[trigger] h.entities[k]).flags == 0 implies has_type(
        h.types,
        ENTITY_KIND as int,
        h.entities[k].type_id,
    ) by {
        assert(has_type(m.types, ENTITY_KIND as int, m.entities[k].type_id) || m.entities[k].flags != 0);
    }
    assert(sound(h));
    lemma_labels_kept(m, h, m.relations, beyond(names));
    lemma_labels_kept(m, h, m.relations, any());
    assert forall|k: int| 0 <= k < m.entities.len() && (#[trigger] m.entities[k]).id == id implies !stranger(
        names,
    )(m.entities[k].name) by {
        if k < i {
            assert(m.entities[k].id != m.entities[i].id);
        } else if i < k {
            assert(m.entities[i].id != m.entities[k].id);
        }
    }
    lemma_chosen_rewrite(m, h, m.entities, id, f, stranger(names));
    assert forall|k: int| 0 <= k < h.entities.len() && (#[trigger] h.entities[k]).flags == 0 implies exists|l:
        int| 0 <= l < m.entities.len() && carried(#[trigger] m.entities[l], h.entities[k], names) by {
        let e = f(m.entities[k]);
        assert(e.out_deg == m.entities[k].out_deg);
        assert(carried(m.entities[k], h.entities[k], names));
    }
    lemma_snapshot_at(h, i);
}

/// Observations are added within the entity's name.
proof fn lemma_insert_observations(
    m: GraphModel,
    name: Seq<char>,
    more: Seq<Seq<char>>,
    names: Set<Seq<char>>,
)
    requires
        sound(m),
        m.snapshot(name) is Some,
        names.contains(name),
    ensures
        ({
            let id = m.snapshot(name)->0.entity_id;
            let h = m.insert_observations(id, more);
            step(m, h, names) && all_rows(h) == all_rows(m) && h.snapshot(name) is Some
                && h.snapshot(name)->0.entity_id == id
        }),
{
    let i = lemma_snapshot_row(m, name);
    let f = |e: EntityModel| observing(e, more);
    assert(has_type(m.types, ENTITY_KIND as int, m.entities[i].type_id));
    lemma_rewrite(m, i, f, names);
}

/// Observations are removed within the entity's name.
proof fn lemma_forget_bodies(
    m: GraphModel,
    name: Seq<char>,
    id: int,
    bodies: Seq<Seq<char>>,
    names: Set<Seq<char>>,
)
    requires
        sound(m),
        m.snapshot(name) is Some,
        m.snapshot(name)->0.entity_id == id,
        names.contains(name),
    ensures
        ({
            let h = forget_bodies(m, id, bodies);
            step(m, h, names) && all_rows(h) == all_rows(m) && h.snapshot(name) is Some
                && h.snapshot(name)->0.entity_id == id
        }),
    decreases bodies.len(),
{
    if bodies.len() == 0 {
        lemma_step_refl(m, names);
    } else {
        let g = forget_bodies(m, id, bodies.drop_last());
        lemma_forget_bodies(m, name, id, bodies.drop_last(), names);
        let i = lemma_snapshot_row(g, name);
        let f = |e: EntityModel| forgetting(e, bodies.last());
        assert(has_type(g.types, ENTITY_KIND as int, g.entities[i].type_id));
        lemma_rewrite(g, i, f, names);
        lemma_step_trans(m, g, forget_bodies(m, id, bodies), names);
    }
}

/// An entity is given another type within its name.
proof fn lemma_retype(m: GraphModel, name: Seq<char>, entity_type: Seq<char>, names: Set<Seq<char>>)
    requires
        sound(m),
        m.snapshot(name) is Some,
        names.contains(name),
    ensures
        ({
            let id = m.snapshot(name)->0.entity_id;
            let h = m.retype(id, entity_type);
            step(m, h, names) && all_rows(h) == all_rows(m) && h.snapshot(name) is Some
                && h.snapshot(name)->0.entity_id == id
        }),
{
    let i = lemma_snapshot_row(m, name);
    let t = m.with_type(ENTITY_KIND as int, entity_type);
    let type_id = m.type_id(ENTITY_KIND as int, entity_type);
    let f = |e: EntityModel| EntityModel { type_id, ..e };
    lemma_with_type(m, ENTITY_KIND as int, entity_type, names);
    lemma_rewrite(t, i, f, names);
    let h = m.retype(m.entities[i].id, entity_type);
    assert(h == GraphModel { entities: rewrite(t.entities, t.entities[i].id, f), ..t });
    lemma_step_trans(m, t, h, names);
}

// ---------------------------------------------------------------------------
// Deleted relations and entities
// ---------------------------------------------------------------------------

proof fn lemma_where_agree(
    m: GraphModel,
    rows: Seq<RelationModel>,
    p: spec_fn(RelationData) -> bool,
    q: spec_fn(RelationData) -> bool,
)
    requires
        forall|i: int| 0 <= i < rows.len() ==> p(label(m, #[trigger] rows[i])) == q(label(m, rows[i])),
    ensures
        rows_where(m, rows, p) == rows_where(m, rows, q),
    decreases rows.len(),
{
    if rows.len() > 0 {
        let t = rows.drop_last();
        assert forall|i: int| 0 <= i < t.len() implies p(label(m, #[trigger] t[i])) == q(label(m, t[i])) by {
            assert(t[i] == rows[i]);
        }
        lemma_where_agree(m, t, p, q);
        assert(rows[rows.len() - 1] == rows.last());
    }
}

/// A relation describes the rows that say it.
proof fn lemma_describes(m: GraphModel, d: RelationData, r: RelationModel)
    requires
        sound(m),
        anchored(m, r),
    ensures
        m.describes(d, r) <==> label(m, r) == d,
{
    let i = lemma_live_id(m, r.from_id);
    let j = lemma_live_id(m, r.to_id);
    let k = lemma_has_type(m, RELATION_KIND as int, r.type_id);
    if m.describes(d, r) {
        let a = choose|a: int|
            0 <= a < m.entities.len() && (#[trigger] m.entities[a]).id == r.from_id && live_named(
                m.entities[a],
                d.from,
            );
        let b = choose|b: int|
            0 <= b < m.entities.len() && (#[trigger] m.entities[b]).id == r.to_id && live_named(
                m.entities[b],
                d.to,
            );
        let c = choose|c: int|
            0 <= c < m.types.len() && (#[trigger] m.types[c]).id == r.type_id && m.types[c].kind == RELATION_KIND
                && m.types[c].name == d.relation_type;
        lemma_find_id(m.entities, a);
        lemma_find_id(m.entities, b);
        lemma_find_type_id(m.types, c);
    }
    if label(m, r) == d {
        assert(live_named(m.entities[i], d.from));
        assert(live_named(m.entities[j], d.to));
        assert(m.types[k].name == d.relation_type);
    }
}

/// What the rows say that a relation does not describe.
proof fn lemma_rows_except(
    m: GraphModel,
    rows: Seq<RelationModel>,
    d: RelationData,
    p: spec_fn(RelationData) -> bool,
)
    requires
        sound(m),
        all_anchored(m, rows),
    ensures
        rows_where(m, m.rows_except(rows, d), p) == rows_where(m, rows, except(same_as(d), p)),
        all_anchored(m, m.rows_except(rows, d)),
    decreases rows.len(),
{
    if rows.len() > 0 {
        let (t, r) = (rows.drop_last(), rows.last());
        lemma_anchored_head(m, rows);
        lemma_rows_except(m, t, d, p);
        lemma_describes(m, d, r);
        let kept = m.rows_except(t, d);
        if !m.describes(d, r) {
            assert(kept.push(r).drop_last() =~= kept);
            assert forall|i: int| 0 <= i < kept.push(r).len() implies anchored(m, #[trigger] kept.push(r)[i]) by {
                if i < kept.len() {
                    assert(anchored(m, kept[i]));
                }
            }
        }
    }
}

/// A relation that is deleted is not stored any more, and the others are stored
/// as they were.
proof fn lemma_unrelated(m: GraphModel, d: RelationData)
    requires
        sound(m),
    ensures
        sound(m.delete_relation(d)),
        all_anchored(m, m.delete_relation(d).relations),
        all_rows(m.delete_relation(d)) == rows_where(m, m.relations, except(same_as(d), any())),
        shrunk(m, m.delete_relation(d)),
{
    let h = m.delete_relation(d);
    let q = except(same_as(d), any());
    lemma_rows_except(m, m.relations, d, any());
    assert forall|i: int| 0 <= i < h.relations.len() implies anchored(h, #[trigger] h.relations[i]) && label(
        m,
        h.relations[i],
    ) == label(h, h.relations[i]) by {
        assert(anchored(m, h.relations[i]));
    }
    assert(sound(h));
    lemma_labels_kept(m, h, h.relations, any());
    assert forall|x: RelationData| #[trigger] stored(h, x) == stored(m, x) || stored(h, x) == 0 by {
        lemma_where_count(m, m.relations, q, same_as(x));
        if x == d {
            lemma_count_nothing(all_rows(m), both(q, same_as(x)));
        } else {
            lemma_count_agree(all_rows(m), same_as(x), both(q, same_as(x)));
        }
    }
}

/// A relation is deleted within its ends.
proof fn lemma_delete_relation(m: GraphModel, d: RelationData, names: Set<Seq<char>>)
    requires
        sound(m),
        names.contains(d.from),
        names.contains(d.to),
    ensures
        step(m, m.delete_relation(d), names),
        shrunk(m, m.delete_relation(d)),
{
    reveal(apart);
    reveal(kin);
    let h = m.delete_relation(d);
    lemma_unrelated(m, d);
    lemma_rows_except(m, m.relations, d, beyond(names));
    assert forall|i: int| 0 <= i < h.relations.len() implies label(m, #[trigger] h.relations[i]) == label(
        h,
        h.relations[i],
    ) by {}
    lemma_labels_kept(m, h, h.relations, beyond(names));
    lemma_where_agree(m, m.relations, beyond(names), except(same_as(d), beyond(names)));
    lemma_chosen_kept(m, h, m.entities, stranger(names));
    assert forall|k: int| 0 <= k < h.entities.len() && (#[trigger] h.entities[k]).flags == 0 implies exists|l:
        int| 0 <= l < m.entities.len() && carried(#[trigger] m.entities[l], h.entities[k], names) by {
        assert(carried(m.entities[k], h.entities[k], names));
    }
}

proof fn lemma_count_nothing<A>(s: Seq<A>, p: spec_fn(A) -> bool)
    requires
        forall|x: A| !#[trigger] p(x),
    ensures
        count_of(s, p) == 0,
    decreases s.len(),
{
    if s.len() > 0 {
        lemma_count_nothing(s.drop_last(), p);
        assert(!p(s.last()));
    }
}

proof fn lemma_without_none(es: Seq<EntityModel>, id: int)
    requires
        forall|k: int| 0 <= k < es.len() ==> (#[trigger] es[k]).id != id,
    ensures
        entities_without(es, id) == es,
    decreases es.len(),
{
    if es.len() > 0 {
        let t = es.drop_last();
        assert forall|k: int| 0 <= k < t.len() implies (#[trigger] t[k]).id != id by {
            assert(t[k] == es[k]);
        }
        lemma_without_none(t, id);
        assert(es[es.len() - 1] == es.last());
        assert(t.push(es.last()) =~= es);
    }
}

proof fn lemma_entities_without(es: Seq<EntityModel>, i: int)
    requires
        ids_distinct(es),
        0 <= i < es.len(),
    ensures
        entities_without(es, es[i].id) == es.remove(i),
    decreases es.len(),
{
    let id = es[i].id;
    let t = es.drop_last();
    if i == es.len() - 1 {
        assert forall|k: int| 0 <= k < t.len() implies (#[trigger] t[k]).id != id by {
            assert(es[k].id != es[i].id);
        }
        lemma_without_none(t, id);
        assert(es.remove(i) =~= t);
    } else {
        assert(t[i] == es[i]);
        assert forall|a: int, b: int| 0 <= a < b < t.len() implies (#[trigger] t[a]).id != (#[trigger] t[b]).id by {
            assert(es[a].id != es[b].id);
        }
        lemma_entities_without(t, i);
        assert(es[i].id != es[es.len() - 1].id);
        assert(es.remove(i) =~= t.remove(i).push(es.last()));
    }
}

proof fn lemma_chosen_without(
    m: GraphModel,
    h: GraphModel,
    es: Seq<EntityModel>,
    id: int,
    p: spec_fn(Seq<char>) -> bool,
)
    requires
        h.types == m.types,
        forall|i: int| 0 <= i < es.len() && (#[trigger] es[i]).id == id ==> !p(es[i].name),
    ensures
        chosen(h, entities_without(es, id), p) == chosen(m, es, p),
    decreases es.len(),
{
    if es.len() > 0 {
        let t = es.drop_last();
        assert forall|i: int| 0 <= i < t.len() && (#[trigger] t[i]).id == id implies !p(t[i].name) by {
            assert(t[i] == es[i]);
        }
        lemma_chosen_without(m, h, t, id, p);
        assert(es[es.len() - 1] == es.last());
        if es.last().id != id {
            let rest = entities_without(t, id);
            assert(rest.push(es.last()).drop_last() =~= rest);
        }
    }
}

/// The relations of a name.
spec fn at(name: Seq<char>) -> spec_fn(RelationData) -> bool {
    |d: RelationData| d.touches(name)
}

/// The rows that do not refer to an entity say what they said.
spec fn unmoved(m: GraphModel, h: GraphModel, id: int) -> bool {
    forall|r: RelationModel|
        anchored(m, r) && r.from_id != id && r.to_id != id ==> anchored(h, r) && #[trigger] label(h, r)
            == label(m, r)
}

/// What the rows say that do not refer to an entity.
proof fn lemma_relations_without(
    m: GraphModel,
    h: GraphModel,
    rows: Seq<RelationModel>,
    i: int,
    p: spec_fn(RelationData) -> bool,
)
    requires
        sound(m),
        all_anchored(m, rows),
        0 <= i < m.entities.len(),
        m.entities[i].flags == 0,
        unmoved(m, h, m.entities[i].id),
    ensures
        rows_where(h, relations_without(rows, m.entities[i].id), p) == rows_where(
            m,
            rows,
            except(at(m.entities[i].name), p),
        ),
        all_anchored(h, relations_without(rows, m.entities[i].id)),
    decreases rows.len(),
{
    if rows.len() > 0 {
        let id = m.entities[i].id;
        let name = m.entities[i].name;
        let (t, r) = (rows.drop_last(), rows.last());
        lemma_anchored_head(m, rows);
        lemma_relations_without(m, h, t, i, p);
        let f = lemma_live_id(m, r.from_id);
        let g = lemma_live_id(m, r.to_id);
        if f != i {
            assert(m.entities[f].name != name && m.entities[f].id != id);
        }
        if g != i {
            assert(m.entities[g].name != name && m.entities[g].id != id);
        }
        let kept = relations_without(t, id);
        if r.from_id != id && r.to_id != id {
            assert(label(h, r) == label(m, r));
            assert(kept.push(r).drop_last() =~= kept);
            assert forall|k: int| 0 <= k < kept.push(r).len() implies anchored(h, #[trigger] kept.push(r)[k]) by {
                if k < kept.len() {
                    assert(anchored(h, kept[k]));
                }
            }
        }
    }
}

/// Every relation of one of the first names lies within the second.
spec fn closed_in(m: GraphModel, inner: Set<Seq<char>>, names: Set<Seq<char>>) -> bool {
    forall|d: RelationData| #[trigger]
        all_rows(m).contains(d) && (inner.contains(d.from) || inner.contains(d.to)) ==> names.contains(d.from)
            && names.contains(d.to)
}

/// The entities without one of them are as distinct as before, and the other
/// rows refer to what they referred to.
proof fn lemma_removed_sound(m: GraphModel, i: int) -> (h: GraphModel)
    requires
        sound(m),
        0 <= i < m.entities.len(),
        m.entities[i].flags == 0,
    ensures
        h == m.delete_id(m.entities[i].id),
        h.entities == m.entities.remove(i),
        sound(h),
        unmoved(m, h, m.entities[i].id),
{
    let id = m.entities[i].id;
    let h = m.delete_id(id);
    lemma_entities_without(m.entities, i);
    assert forall|k: int| 0 <= k < h.entities.len() implies #[trigger] h.entities[k] == m.entities[if k < i {
        k
    } else {
        k + 1
    }] by {}
    assert forall|a: int, b: int| 0 <= a < b < h.entities.len() implies (#[trigger] h.entities[a]).id != (
    #[trigger] h.entities[b]).id by {
        let (x, y) = (
            if a < i {
                a
            } else {
                a + 1
            },
            if b < i {
                b
            } else {
                b + 1
            },
        );
        assert(m.entities[x].id != m.entities[y].id);
    }
    assert forall|a: int, b: int|
        0 <= a < b < h.entities.len() && (#[trigger] h.entities[a]).flags == 0 && (
        #[trigger] h.entities[b]).flags == 0 implies h.entities[a].name != h.entities[b].name by {
        let (x, y) = (
            if a < i {
                a
            } else {
                a + 1
            },
            if b < i {
                b
            } else {
                b + 1
            },
        );
        assert(m.entities[x].name != m.entities[y].name);
    }
    assert forall|x: int| #[trigger] live_id(m.entities, x) && x != id implies live_id(h.entities, x) && name_of(
        h,
        x,
    ) == name_of(m, x) by {
        let k = lemma_live_id(m, x);
        let j = if k < i {
            k
        } else {
            k - 1
        };
        assert(h.entities[j] == m.entities[k]);
        lemma_find_id(h.entities, j);
    }
    assert forall|r: RelationModel| anchored(m, r) && r.from_id != id && r.to_id != id implies anchored(h, r)
        && #[trigger] label(h, r) == label(m, r) by {
        assert(live_id(m.entities, r.from_id) && live_id(m.entities, r.to_id));
    }
    lemma_relations_without(m, h, m.relations, i, any());
    assert forall|k: int| 0 <= k < h.entities.len() && (#[trigger] h.entities[k]).flags == 0 implies has_type(
        h.types,
        ENTITY_KIND as int,
        h.entities[k].type_id,
    ) by {
        let x = if k < i {
            k
        } else {
            k + 1
        };
        assert(has_type(m.types, ENTITY_KIND as int, m.entities[x].type_id));
    }
    h
}

/// An entity is deleted within the ends of its relations.
proof fn lemma_delete_entity(
    m: GraphModel,
    name: Seq<char>,
    inner: Set<Seq<char>>,
    names: Set<Seq<char>>,
)
    requires
        sound(m),
        inner.contains(name),
        names.contains(name),
        closed_in(m, inner, names),
    ensures
        step(m, m.delete_entity(name), names),
        shrunk(m, m.delete_entity(name)),
        closed_in(m.delete_entity(name), inner, names),
{
    reveal(apart);
    reveal(kin);
    if m.snapshot(name) is None {
        lemma_step_refl(m, names);
    } else {
        let i = lemma_snapshot_row(m, name);
        let id = m.entities[i].id;
        let h = lemma_removed_sound(m, i);
        let q = except(at(name), any());
        lemma_relations_without(m, h, m.relations, i, beyond(names));
        lemma_relations_without(m, h, m.relations, i, any());
        assert forall|k: int| 0 <= k < m.relations.len() implies beyond(names)(label(m, #[trigger] m.relations[k]))
            == except(at(name), beyond(names))(label(m, m.relations[k])) by {
            lemma_where_holds(m, m.relations, any(), k);
            let d = label(m, m.relations[k]);
            assert(all_rows(m).contains(d));
        }
        lemma_where_agree(m, m.relations, beyond(names), except(at(name), beyond(names)));
        assert forall|k: int| 0 <= k < m.entities.len() && (#[trigger] m.entities[k]).id == id implies !stranger(
            names,
        )(m.entities[k].name) by {
            if k != i {
                assert(m.entities[k].id != m.entities[i].id);
            }
        }
        lemma_chosen_without(m, h, m.entities, id, stranger(names));
        assert forall|k: int| 0 <= k < h.entities.len() && (#[trigger] h.entities[k]).flags == 0 implies exists|l:
            int| 0 <= l < m.entities.len() && carried(#[trigger] m.entities[l], h.entities[k], names) by {
            let x = if k < i {
                k
            } else {
                k + 1
            };
            assert(h.entities[k] == m.entities[x]);
            assert(carried(m.entities[x], h.entities[k], names));
        }
        assert(step(m, h, names));
        assert(all_rows(h) == rows_where(m, m.relations, q));
        assert forall|x: RelationData| #[trigger] stored(h, x) == stored(m, x) || stored(h, x) == 0 by {
            lemma_where_count(m, m.relations, q, same_as(x));
            if x.touches(name) {
                lemma_count_nothing(all_rows(m), both(q, same_as(x)));
            } else {
                lemma_count_agree(all_rows(m), same_as(x), both(q, same_as(x)));
            }
        }
        assert forall|d: RelationData| #[trigger]
            all_rows(h).contains(d) && (inner.contains(d.from) || inner.contains(d.to)) implies names.contains(
            d.from,
        ) && names.contains(d.to) by {
            let k = lemma_where_source(m, m.relations, q, d);
            lemma_where_holds(m, m.relations, any(), k);
            assert(all_rows(m).contains(d));
        }
    }
}

proof fn lemma_delete_entities(
    m: GraphModel,
    list: Seq<Seq<char>>,
    inner: Set<Seq<char>>,
    names: Set<Seq<char>>,
)
    requires
        sound(m),
        forall|i: int|
            0 <= i < list.len() ==> inner.contains(#[trigger] list[i]) && names.contains(list[i]),
        closed_in(m, inner, names),
    ensures
        step(m, m.delete_entities(list), names),
        shrunk(m, m.delete_entities(list)),
        closed_in(m.delete_entities(list), inner, names),
    decreases list.len(),
{
    if list.len() == 0 {
        lemma_step_refl(m, names);
    } else {
        let t = list.drop_last();
        assert forall|i: int| 0 <= i < t.len() implies inner.contains(#[trigger] t[i]) && names.contains(t[i]) by {
            assert(t[i] == list[i]);
        }
        lemma_delete_entities(m, t, inner, names);
        let g = m.delete_entities(t);
        assert(list[list.len() - 1] == list.last());
        lemma_delete_entity(g, list.last(), inner, names);
        lemma_step_trans(m, g, m.delete_entities(list), names);
        lemma_shrunk_trans(m, g, m.delete_entities(list));
    }
}

// ---------------------------------------------------------------------------
// Requests
// ---------------------------------------------------------------------------

proof fn lemma_create_all(m: GraphModel, es: Seq<EntityData>, now: int, names: Set<Seq<char>>)
    requires
        sound(m),
        forall|i: int| 0 <= i < es.len() ==> names.contains((#[trigger] es[i]).name),
    ensures
        step(m, create_all(m, es, now).0, names),
        all_rows(create_all(m, es, now).0) == all_rows(m),
    decreases es.len(),
{
    if es.len() == 0 {
        lemma_step_refl(m, names);
    } else {
        let t = es.drop_last();
        assert forall|i: int| 0 <= i < t.len() implies names.contains((#[trigger] t[i]).name) by {
            assert(t[i] == es[i]);
        }
        lemma_create_all(m, t, now, names);
        let g = create_all(m, t, now).0;
        assert(es[es.len() - 1] == es.last());
        lemma_create_entity(g, es.last(), now, names);
        lemma_step_trans(m, g, create_all(m, es, now).0, names);
    }
}

proof fn lemma_upsert_one(m: GraphModel, e: EntityData, now: int, names: Set<Seq<char>>)
    requires
        sound(m),
        names.contains(e.name),
        upsert_one(m, e, now) is Ok,
    ensures
        step(m, upsert_one(m, e, now)->Ok_0.0, names),
        all_rows(upsert_one(m, e, now)->Ok_0.0) == all_rows(m),
{
    match m.snapshot(e.name) {
        Some(x) => {
            let g = if x.entity_type != e.entity_type {
                m.retype(x.entity_id, e.entity_type)
            } else {
                m
            };
            lemma_step_refl(m, names);
            if x.entity_type != e.entity_type {
                lemma_retype(m, e.name, e.entity_type, names);
            }
            let more = novel(x.observations, e.observations);
            lemma_insert_observations(g, e.name, more, names);
            lemma_step_trans(m, g, g.insert_observations(x.entity_id, more), names);
        },
        None => {
            lemma_create_entity(m, e, now, names);
        },
    }
}

proof fn lemma_upsert_all(m: GraphModel, es: Seq<EntityData>, now: int, names: Set<Seq<char>>)
    requires
        sound(m),
        forall|i: int| 0 <= i < es.len() ==> names.contains((#[trigger] es[i]).name),
        upsert_all(m, es, now) is Ok,
    ensures
        step(m, upsert_all(m, es, now)->Ok_0.0, names),
        all_rows(upsert_all(m, es, now)->Ok_0.0) == all_rows(m),
    decreases es.len(),
{
    if es.len() == 0 {
        lemma_step_refl(m, names);
    } else {
        let t = es.drop_last();
        assert forall|i: int| 0 <= i < t.len() implies names.contains((#[trigger] t[i]).name) by {
            assert(t[i] == es[i]);
        }
        lemma_upsert_all(m, t, now, names);
        let g = upsert_all(m, t, now)->Ok_0.0;
        assert(es[es.len() - 1] == es.last());
        lemma_upsert_one(g, es.last(), now, names);
        lemma_step_trans(m, g, upsert_all(m, es, now)->Ok_0.0, names);
    }
}

/// Relations are created within their ends.
proof fn lemma_relate_all(
    m: GraphModel,
    ds: Seq<RelationData>,
    now: int,
    inner: Set<Seq<char>>,
    names: Set<Seq<char>>,
)
    requires
        sound(m),
        forall|i: int|
            0 <= i < ds.len() ==> names.contains((#[trigger] ds[i]).from) && names.contains(ds[i].to),
        closed_in(m, inner, names),
    ensures
        step(m, relate_all(m, ds, now).0, names),
        grown(m, relate_all(m, ds, now).0),
        closed_in(relate_all(m, ds, now).0, inner, names),
    decreases ds.len(),
{
    if ds.len() == 0 {
        lemma_step_refl(m, names);
    } else {
        let t = ds.drop_last();
        assert forall|i: int| 0 <= i < t.len() implies names.contains((#[trigger] t[i]).from) && names.contains(
            t[i].to,
        ) by {
            assert(t[i] == ds[i]);
        }
        lemma_relate_all(m, t, now, inner, names);
        let g = relate_all(m, t, now).0;
        let h = relate_all(m, ds, now).0;
        assert(ds[ds.len() - 1] == ds.last());
        lemma_create_relation(g, ds.last(), now, names);
        assert(h == g.create_relation(ds.last(), now).0);
        lemma_step_trans(m, g, h, names);
        lemma_grown_trans(m, g, h);
        lemma_closed_grown(g, h, ds.last(), inner, names);
    }
}

/// One more relation within the names keeps them closed.
proof fn lemma_closed_grown(
    g: GraphModel,
    h: GraphModel,
    x: RelationData,
    inner: Set<Seq<char>>,
    names: Set<Seq<char>>,
)
    requires
        closed_in(g, inner, names),
        forall|d: RelationData| #[trigger] all_rows(h).contains(d) ==> all_rows(g).contains(d) || d == x,
        names.contains(x.from),
        names.contains(x.to),
    ensures
        closed_in(h, inner, names),
{
}

proof fn lemma_unrelate_all(m: GraphModel, ds: Seq<RelationData>, names: Set<Seq<char>>)
    requires
        sound(m),
        forall|i: int|
            0 <= i < ds.len() ==> names.contains((#[trigger] ds[i]).from) && names.contains(ds[i].to),
    ensures
        step(m, unrelate_all(m, ds), names),
        shrunk(m, unrelate_all(m, ds)),
    decreases ds.len(),
{
    if ds.len() == 0 {
        lemma_step_refl(m, names);
    } else {
        let t = ds.drop_last();
        assert forall|i: int| 0 <= i < t.len() implies names.contains((#[trigger] t[i]).from) && names.contains(
            t[i].to,
        ) by {
            assert(t[i] == ds[i]);
        }
        lemma_unrelate_all(m, t, names);
        let g = unrelate_all(m, t);
        assert(ds[ds.len() - 1] == ds.last());
        lemma_delete_relation(g, ds.last(), names);
        lemma_step_trans(m, g, unrelate_all(m, ds), names);
        lemma_shrunk_trans(m, g, unrelate_all(m, ds));
    }
}

proof fn lemma_observe_all(m: GraphModel, us: Seq<ObservationData>, names: Set<Seq<char>>)
    requires
        sound(m),
        forall|i: int| 0 <= i < us.len() ==> names.contains((#[trigger] us[i]).entity_name),
        observe_all(m, us) is Ok,
    ensures
        step(m, observe_all(m, us)->Ok_0.0, names),
        all_rows(observe_all(m, us)->Ok_0.0) == all_rows(m),
    decreases us.len(),
{
    if us.len() == 0 {
        lemma_step_refl(m, names);
    } else {
        let t = us.drop_last();
        assert forall|i: int| 0 <= i < t.len() implies names.contains((#[trigger] t[i]).entity_name) by {
            assert(t[i] == us[i]);
        }
        lemma_observe_all(m, t, names);
        let g = observe_all(m, t)->Ok_0.0;
        assert(us[us.len() - 1] == us.last());
        lemma_insert_observations(g, us.last().entity_name, us.last().contents, names);
        lemma_step_trans(m, g, observe_all(m, us)->Ok_0.0, names);
    }
}

proof fn lemma_forget_all(m: GraphModel, us: Seq<ObservationData>, names: Set<Seq<char>>)
    requires
        sound(m),
        forall|i: int| 0 <= i < us.len() ==> names.contains((#[trigger] us[i]).entity_name),
        forget_all(m, us) is Ok,
    ensures
        step(m, forget_all(m, us)->Ok_0.0, names),
        all_rows(forget_all(m, us)->Ok_0.0) == all_rows(m),
    decreases us.len(),
{
    if us.len() == 0 {
        lemma_step_refl(m, names);
    } else {
        let t = us.drop_last();
        assert forall|i: int| 0 <= i < t.len() implies names.contains((#[trigger] t[i]).entity_name) by {
            assert(t[i] == us[i]);
        }
        lemma_forget_all(m, t, names);
        let g = forget_all(m, t)->Ok_0.0;
        assert(us[us.len() - 1] == us.last());
        if us.last().contents.len() > 0 {
            let id = g.snapshot(us.last().entity_name)->0.entity_id;
            lemma_forget_bodies(g, us.last().entity_name, id, us.last().contents, names);
            lemma_step_trans(m, g, forget_all(m, us)->Ok_0.0, names);
        }
    }
}

/// What begins or ends at some names is closed in those and the other ends.
proof fn lemma_closed_neighbours(m: GraphModel, inner: Set<Seq<char>>)
    requires
        sound(m),
    ensures
        closed_in(m, inner, inner.union(end_names(m.touching(m.relations, inner)))),
{
    let near_rows = m.touching(m.relations, inner);
    lemma_touching(m, m.relations, inner);
    assert forall|d: RelationData| #[trigger]
        all_rows(m).contains(d) && (inner.contains(d.from) || inner.contains(d.to)) implies inner.union(
        end_names(near_rows),
    ).contains(d.from) && inner.union(end_names(near_rows)).contains(d.to) by {
        let k = lemma_where_source(m, m.relations, any(), d);
        lemma_where_holds(m, m.relations, near(inner), k);
        let i = near_rows.index_of(d);
        assert(near_rows[i].touches(d.from) && near_rows[i].touches(d.to));
    }
}

/// Two entities are merged within the ends of their relations.
proof fn lemma_merge(m: GraphModel, source: Seq<char>, target: Seq<char>, now: int, names: Set<Seq<char>>)
    requires
        sound(m),
        merge(m, source, target, now) is Ok,
        names.contains(source),
        names.contains(target),
        closed_in(m, set![source, target], names),
    ensures
        step(m, merge(m, source, target, now)->Ok_0.0, names),
        no_recount(m, merge(m, source, target, now)->Ok_0.0),
{
    let inner = set![source, target];
    if source == target {
        lemma_step_refl(m, names);
        assert forall|d: RelationData| #[trigger] stored(m, d) == stored(m, d) by {}
    } else {
        let old = m.snapshot(source)->0;
        let into = m.snapshot(target)->0;
        let h = m.insert_observations(into.entity_id, old.observations);
        lemma_insert_observations(m, target, old.observations, names);
        let rows = h.relations_of(source);
        let ds = redirect_all(rows, source, target);
        lemma_touching(h, h.relations, set![source]);
        crate::types::lemma_sort_relations(h.touching(h.relations, set![source]));
        assert forall|i: int| 0 <= i < ds.len() implies names.contains((#[trigger] ds[i]).from)
            && names.contains(ds[i].to) by {
            let d = rows[i];
            assert(rows.contains(d));
            let near_rows = h.touching(h.relations, set![source]);
            assert(near_rows.contains(d));
            let k = lemma_where_source(h, h.relations, near(set![source]), d);
            lemma_where_holds(h, h.relations, any(), k);
            assert(all_rows(m).contains(d));
            assert(inner.contains(source));
            assert(ds[i] == redirect(d, source, target));
        }
        let g = relate_all(h, ds, now).0;
        lemma_relate_all(h, ds, now, inner, names);
        lemma_delete_entity(g, source, inner, names);
        let x = g.delete_entity(source);
        lemma_step_trans(m, h, g, names);
        lemma_step_trans(m, g, x, names);
        assert(grown(m, h)) by {
            assert forall|d: RelationData| #[trigger] stored(h, d) == stored(m, d) by {}
        }
        lemma_grown_trans(m, h, g);
        lemma_no_recount(m, g, x);
    }
}

// ---------------------------------------------------------------------------
// Renaming
// ---------------------------------------------------------------------------

proof fn lemma_chosen_renamed(
    m: GraphModel,
    h: GraphModel,
    es: Seq<EntityModel>,
    id: int,
    name: Seq<char>,
    p: spec_fn(Seq<char>) -> bool,
)
    requires
        h.types == m.types,
        !p(name),
        forall|i: int| 0 <= i < es.len() && (#[trigger] es[i]).id == id ==> !p(es[i].name),
    ensures
        chosen(h, rewrite(es, id, |e: EntityModel| EntityModel { name, ..e }), p) == chosen(m, es, p),
    decreases es.len(),
{
    let f = |e: EntityModel| EntityModel { name, ..e };
    if es.len() > 0 {
        let t = es.drop_last();
        assert(rewrite(es, id, f).drop_last() =~= rewrite(t, id, f));
        assert forall|i: int| 0 <= i < t.len() && (#[trigger] t[i]).id == id implies !p(t[i].name) by {
            assert(t[i] == es[i]);
        }
        lemma_chosen_renamed(m, h, t, id, name, p);
        assert(es[es.len() - 1] == es.last());
    }
}

proof fn lemma_where_alike(
    m: GraphModel,
    h: GraphModel,
    rows: Seq<RelationModel>,
    p: spec_fn(RelationData) -> bool,
)
    requires
        forall|i: int|
            0 <= i < rows.len() ==> {
                &&& p(label(m, #[trigger] rows[i])) == p(label(h, rows[i]))
                &&& p(label(m, rows[i])) ==> label(m, rows[i]) == label(h, rows[i])
            },
    ensures
        rows_where(m, rows, p) == rows_where(h, rows, p),
    decreases rows.len(),
{
    if rows.len() > 0 {
        let t = rows.drop_last();
        assert forall|i: int| 0 <= i < t.len() implies p(label(m, #[trigger] t[i])) == p(label(h, t[i])) && (p(
            label(m, t[i]),
        ) ==> label(m, t[i]) == label(h, t[i])) by {
            assert(t[i] == rows[i]);
        }
        lemma_where_alike(m, h, t, p);
        assert(rows[rows.len() - 1] == rows.last());
    }
}

/// The rows refer to the renamed entity as they did before.
proof fn lemma_renamed_sound(m: GraphModel, i: int, name: Seq<char>)
    requires
        sound(m),
        0 <= i < m.entities.len(),
        m.entities[i].flags == 0,
        m.snapshot(name) is None,
    ensures
        ({
            let h = m.rename(m.entities[i].id, name);
            &&& sound(h)
            &&& h.entities.len() == m.entities.len()
            &&& forall|k: int|
                0 <= k < m.entities.len() ==> #[trigger] h.entities[k] == (if k == i {
                    EntityModel { name, ..m.entities[k] }
                } else {
                    m.entities[k]
                })
            &&& forall|r: RelationModel|
                anchored(m, r) ==> #[trigger] label(h, r) == redirect(label(m, r), m.entities[i].name, name)
        }),
{
    let id = m.entities[i].id;
    let h = m.rename(id, name);
    assert forall|k: int| 0 <= k < m.entities.len() implies #[trigger] h.entities[k] == (if k == i {
        EntityModel { name, ..m.entities[k] }
    } else {
        m.entities[k]
    }) by {
        if k != i {
            assert(m.entities[k].id != m.entities[i].id);
        }
    }
    assert forall|a: int, b: int| 0 <= a < b < h.entities.len() implies (#[trigger] h.entities[a]).id != (
    #[trigger] h.entities[b]).id by {
        assert(m.entities[a].id != m.entities[b].id);
    }
    assert forall|a: int, b: int|
        0 <= a < b < h.entities.len() && (#[trigger] h.entities[a]).flags == 0 && (
        #[trigger] h.entities[b]).flags == 0 implies h.entities[a].name != h.entities[b].name by {
        assert(m.entities[a].name != m.entities[b].name);
        if a == i {
            lemma_no_snapshot(m, name, b);
        } else if b == i {
            lemma_no_snapshot(m, name, a);
        }
    }
    assert forall|x: int| #[trigger] live_id(m.entities, x) implies live_id(h.entities, x) && name_of(h, x) == (
    if x == id {
        name
    } else {
        name_of(m, x)
    }) by {
        let k = lemma_live_id(m, x);
        assert(h.entities[k].id == x);
        lemma_find_id(h.entities, k);
        if k != i {
            assert(m.entities[k].id != m.entities[i].id);
        }
    }
    assert forall|r: RelationModel| anchored(m, r) implies anchored(h, r) && #[trigger] label(h, r) == redirect(
        label(m, r),
        m.entities[i].name,
        name,
    ) by {
        let f = lemma_live_id(m, r.from_id);
        let g = lemma_live_id(m, r.to_id);
        if f != i {
            assert(m.entities[f].name != m.entities[i].name && m.entities[f].id != id);
        }
        if g != i {
            assert(m.entities[g].name != m.entities[i].name && m.entities[g].id != id);
        }
    }
    assert forall|k: int| 0 <= k < h.relations.len() implies anchored(h, #[trigger] h.relations[k]) by {
        assert(anchored(m, m.relations[k]));
        assert(label(h, m.relations[k]) == label(h, m.relations[k]));
    }
    assert forall|k: int| 0 <= k < h.entities.len() && (#[trigger] h.entities[k]).flags == 0 implies has_type(
        h.types,
        ENTITY_KIND as int,
        h.entities[k].type_id,
    ) by {
        assert(has_type(m.types, ENTITY_KIND as int, m.entities[k].type_id));
    }
}

/// An entity is renamed within both names and the ends of its relations, and
/// keeps its counters.
proof fn lemma_rename(
    m: GraphModel,
    old_name: Seq<char>,
    new_name: Seq<char>,
    names: Set<Seq<char>>,
)
    requires
        exact(m),
        old_name != new_name,
        rename(m, old_name, new_name) is Ok,
        names.contains(old_name),
        names.contains(new_name),
        closed_in(m, set![old_name, new_name], names),
    ensures
        ({
            let h = rename(m, old_name, new_name)->Ok_0.0;
            &&& apart(m, h, names)
            &&& forall|i: int|
                0 <= i < h.entities.len() && (#[trigger] h.entities[i]).flags == 0 ==> entity_exact(
                    h,
                    h.entities[i],
                )
        }),
{
    reveal(apart);
    let i = lemma_snapshot_row(m, old_name);
    let id = m.entities[i].id;
    let h = m.rename(id, new_name);
    lemma_renamed_sound(m, i, new_name);
    assert forall|k: int| 0 <= k < m.entities.len() && (#[trigger] m.entities[k]).id == id implies !stranger(
        names,
    )(m.entities[k].name) by {
        if k != i {
            assert(m.entities[k].id != m.entities[i].id);
        }
    }
    lemma_chosen_renamed(m, h, m.entities, id, new_name, stranger(names));
    let p = beyond(names);
    assert forall|k: int| 0 <= k < m.relations.len() implies p(label(m, #[trigger] m.relations[k])) == p(
        label(h, m.relations[k]),
    ) && (p(label(m, m.relations[k])) ==> label(m, m.relations[k]) == label(h, m.relations[k])) by {
        assert(anchored(m, m.relations[k]));
        let d = label(m, m.relations[k]);
        lemma_where_holds(m, m.relations, any(), k);
        assert(all_rows(m).contains(d));
        assert(set![old_name, new_name].contains(old_name));
        assert(label(h, m.relations[k]) == redirect(d, old_name, new_name));
    }
    lemma_where_alike(m, h, m.relations, p);
    assert forall|k: int| 0 <= k < h.entities.len() && (#[trigger] h.entities[k]).flags == 0 implies entity_exact(
        h,
        h.entities[k],
    ) by {
        assert(entity_exact(m, m.entities[k]));
    }
}

// ---------------------------------------------------------------------------
// Every mutation keeps the counters exact
// ---------------------------------------------------------------------------

proof fn lemma_listable_union(a: Set<Seq<char>>, b: Set<Seq<char>>)
    requires
        listable(a),
        listable(b),
    ensures
        listable(a.union(b)),
{
    lemma_listed(a);
    lemma_listed(b);
    let s = listed(a) + listed(b);
    assert forall|n: Seq<char>| #[trigger] a.union(b).contains(n) implies s.contains(n) by {
        if a.contains(n) {
            assert(s[listed(a).index_of(n)] == n);
        } else {
            assert(s[listed(a).len() + listed(b).index_of(n)] == n);
        }
    }
    lemma_listable(s, a.union(b));
}

proof fn lemma_end_names_listable(ds: Seq<RelationData>)
    ensures
        listable(end_names(ds)),
{
    let froms = ds.map_values(|d: RelationData| d.from);
    let tos = ds.map_values(|d: RelationData| d.to);
    let s = froms + tos;
    assert forall|n: Seq<char>| #[trigger] end_names(ds).contains(n) implies s.contains(n) by {
        let i = choose|i: int| 0 <= i < ds.len() && (#[trigger] ds[i]).touches(n);
        if ds[i].from == n {
            assert(s[i] == n);
        } else {
            assert(s[ds.len() + i] == n);
        }
    }
    lemma_listable(s, end_names(ds));
}

/// The names that a request speaks of can be listed.
proof fn lemma_requested_listable(m: GraphModel, request: MutationRequest)
    ensures
        listable(requested_names(m, request)),
{
    let names = requested_names(m, request);
    match request {
        MutationRequest::CreateEntities { entities } => {
            let s = entities_data(entities@).map_values(|e: EntityData| e.name);
            assert forall|n: Seq<char>| #[trigger] names.contains(n) implies s.contains(n) by {
                let i = choose|i: int|
                    0 <= i < entities_data(entities@).len() && (#[trigger] entities_data(entities@)[i]).name == n;
                assert(s[i] == n);
            }
            lemma_listable(s, names);
        },
        MutationRequest::UpsertEntities { entities } => {
            let s = entities_data(entities@).map_values(|e: EntityData| e.name);
            assert forall|n: Seq<char>| #[trigger] names.contains(n) implies s.contains(n) by {
                let i = choose|i: int|
                    0 <= i < entities_data(entities@).len() && (#[trigger] entities_data(entities@)[i]).name == n;
                assert(s[i] == n);
            }
            lemma_listable(s, names);
        },
        MutationRequest::DeleteEntities { names: list } => {
            lemma_listable(texts(list@), names);
        },
        MutationRequest::CreateRelations { relations } => {
            lemma_end_names_listable(relations_data(relations@));
        },
        MutationRequest::DeleteRelations { relations } => {
            lemma_end_names_listable(relations_data(relations@));
        },
        MutationRequest::AddObservations { observations } => {
            let us = crate::mutation::updates_data(observations@);
            lemma_update_names_listable(us);
        },
        MutationRequest::DeleteObservations { observations } => {
            let us = crate::mutation::updates_data(observations@);
            lemma_update_names_listable(us);
        },
        MutationRequest::MergeEntities { source, target } => {
            let s = seq![source@, target@];
            assert(s[0] == source@ && s[1] == target@);
            lemma_listable(s, names);
        },
        MutationRequest::RenameEntity { old_name, new_name } => {
            let s = seq![old_name@, new_name@];
            assert(s[0] == old_name@ && s[1] == new_name@);
            lemma_listable(s, names);
        },
        MutationRequest::PurgeDefinedEntities { name } => {
            let rows = m.relations_of(name@);
            let s = rows.map_values(|d: RelationData| d.to).push(name@);
            assert forall|n: Seq<char>| #[trigger] names.contains(n) implies s.contains(n) by {
                if n == name@ {
                    assert(s[rows.len() as int] == n);
                } else {
                    let i = rows.index_of(
                        RelationData { from: name@, to: n, relation_type: "defines"@ },
                    );
                    assert(s[i] == n);
                }
            }
            lemma_listable(s, names);
        },
        MutationRequest::Compact => {
            lemma_listable(Seq::empty(), names);
        },
        MutationRequest::Wipe => {
            lemma_listable(live_names(m.entities), names);
        },
    }
}

proof fn lemma_update_names_listable(us: Seq<ObservationData>)
    ensures
        listable(update_names(us)),
{
    let s = us.map_values(|u: ObservationData| u.entity_name);
    assert forall|n: Seq<char>| #[trigger] update_names(us).contains(n) implies s.contains(n) by {
        let i = choose|i: int| 0 <= i < us.len() && (#[trigger] us[i]).entity_name == n;
        assert(s[i] == n);
    }
    lemma_listable(s, update_names(us));
}

proof fn lemma_affected_listable(m: GraphModel, request: MutationRequest)
    ensures
        listable(affected(m, request)),
        listable(requested_names(m, request)),
{
    let names = requested_names(m, request);
    lemma_requested_listable(m, request);
    lemma_end_names_listable(m.touching(m.relations, names));
    lemma_listable_union(names, end_names(m.touching(m.relations, names)));
}

/// The name of every live entity is listed.
proof fn lemma_live_names(es: Seq<EntityModel>, i: int)
    requires
        0 <= i < es.len(),
        es[i].flags == 0,
    ensures
        live_names(es).contains(es[i].name),
    decreases es.len(),
{
    let t = es.drop_last();
    let (head, whole) = (live_names(t), live_names(es));
    if i == es.len() - 1 {
        assert(whole[head.len() as int] == es[i].name);
    } else {
        assert(t[i] == es[i]);
        lemma_live_names(t, i);
        assert(whole[head.index_of(es[i].name)] == es[i].name);
    }
}

/// Every relation lies within the names of the live entities.
proof fn lemma_closed_live(m: GraphModel)
    requires
        sound(m),
    ensures
        closed_in(m, live_names(m.entities).to_set(), live_names(m.entities).to_set()),
{
    let names = live_names(m.entities).to_set();
    assert forall|d: RelationData| #[trigger]
        all_rows(m).contains(d) && (names.contains(d.from) || names.contains(d.to)) implies names.contains(
        d.from,
    ) && names.contains(d.to) by {
        let k = lemma_where_source(m, m.relations, any(), d);
        assert(anchored(m, m.relations[k]));
        let i = lemma_live_id(m, m.relations[k].from_id);
        let j = lemma_live_id(m, m.relations[k].to_id);
        lemma_live_names(m.entities, i);
        lemma_live_names(m.entities, j);
    }
}

proof fn lemma_grown_is_no_recount(m: GraphModel, h: GraphModel)
    requires
        grown(m, h) || shrunk(m, h) || all_rows(h) == all_rows(m),
    ensures
        no_recount(m, h),
{
    assert forall|d: RelationData|
        {
            ||| #[trigger] stored(h, d) == stored(m, d)
            ||| stored(m, d) == 0 && stored(h, d) == 1
            ||| stored(h, d) == 0
        } by {
        if grown(m, h) {
            assert(stored(h, d) == stored(m, d) || stored(m, d) == 0 && stored(h, d) == 1);
        } else if shrunk(m, h) {
            assert(stored(h, d) == stored(m, d) || stored(h, d) == 0);
        }
    }
}

/// Whatever a request other than a renaming does, it does within the names that
/// it affects.
proof fn lemma_executed(m: GraphModel, request: MutationRequest, now: int)
    requires
        sound(m),
        executed(m, request, now) is Ok,
        request matches MutationRequest::RenameEntity { old_name, new_name } ==> old_name@ == new_name@,
    ensures
        step(m, executed(m, request, now)->Ok_0.0, affected(m, request)),
        no_recount(m, executed(m, request, now)->Ok_0.0),
{
    let names = affected(m, request);
    let inner = requested_names(m, request);
    let h = executed(m, request, now)->Ok_0.0;
    lemma_affected_listable(m, request);
    lemma_listed(inner);
    match request {
        MutationRequest::CreateEntities { entities } => {
            lemma_create_all(m, entities_data(entities@), now, names);
            lemma_grown_is_no_recount(m, h);
        },
        MutationRequest::UpsertEntities { entities } => {
            lemma_upsert_all(m, entities_data(entities@), now, names);
            lemma_grown_is_no_recount(m, h);
        },
        MutationRequest::DeleteEntities { .. } => {
            lemma_delete_listed(m, inner, names);
            lemma_grown_is_no_recount(m, h);
        },
        MutationRequest::CreateRelations { relations } => {
            let ds = relations_data(relations@);
            assert forall|i: int| 0 <= i < ds.len() implies names.contains((#[trigger] ds[i]).from)
                && names.contains(ds[i].to) by {
                assert(ds[i].touches(ds[i].from) && ds[i].touches(ds[i].to));
            }
            lemma_relate_all(m, ds, now, Set::empty(), names);
            lemma_grown_is_no_recount(m, h);
        },
        MutationRequest::DeleteRelations { relations } => {
            let ds = relations_data(relations@);
            assert forall|i: int| 0 <= i < ds.len() implies names.contains((#[trigger] ds[i]).from)
                && names.contains(ds[i].to) by {
                assert(ds[i].touches(ds[i].from) && ds[i].touches(ds[i].to));
            }
            lemma_unrelate_all(m, ds, names);
            lemma_grown_is_no_recount(m, h);
        },
        MutationRequest::AddObservations { observations } => {
            lemma_observe_all(m, crate::mutation::updates_data(observations@), names);
            lemma_grown_is_no_recount(m, h);
        },
        MutationRequest::DeleteObservations { observations } => {
            lemma_forget_all(m, crate::mutation::updates_data(observations@), names);
            lemma_grown_is_no_recount(m, h);
        },
        MutationRequest::MergeEntities { source, target } => {
            lemma_closed_neighbours(m, inner);
            assert(inner.contains(source@) && inner.contains(target@));
            lemma_merge(m, source@, target@, now, names);
        },
        MutationRequest::RenameEntity { old_name, new_name } => {
            lemma_step_refl(m, names);
            lemma_grown_is_no_recount(m, h);
        },
        MutationRequest::PurgeDefinedEntities { .. } => {
            lemma_delete_listed(m, inner, names);
            lemma_grown_is_no_recount(m, h);
        },
        MutationRequest::Compact => {
            lemma_step_refl(m, names);
            lemma_grown_is_no_recount(m, h);
        },
        MutationRequest::Wipe => {
            lemma_closed_live(m);
            let list = listed(inner);
            assert forall|i: int| 0 <= i < list.len() implies inner.contains(#[trigger] list[i])
                && names.contains(list[i]) by {
                assert(list.contains(list[i]));
            }
            lemma_delete_entities(m, list, inner, names);
            lemma_grown_is_no_recount(m, h);
        },
    }
}

/// Entities are deleted within their names and the ends of their relations.
proof fn lemma_delete_listed(m: GraphModel, inner: Set<Seq<char>>, names: Set<Seq<char>>)
    requires
        sound(m),
        listable(inner),
        names == inner.union(end_names(m.touching(m.relations, inner))),
    ensures
        step(m, m.delete_entities(listed(inner)), names),
        shrunk(m, m.delete_entities(listed(inner))),
{
    let list = listed(inner);
    lemma_listed(inner);
    lemma_closed_neighbours(m, inner);
    assert forall|i: int| 0 <= i < list.len() implies inner.contains(#[trigger] list[i]) && names.contains(
        list[i],
    ) by {
        assert(list.contains(list[i]));
    }
    lemma_delete_entities(m, list, inner, names);
}

/// A mutation of a graph whose counters are exact leaves them exact: the count
/// of every type, the totals, and the observations and degrees of every entity.
pub proof fn law_counters_stay_exact(
    m: GraphModel,
    request: MutationRequest,
    now: int,
    g: GraphModel,
    result: ResultData,
    cs: Seq<ChangeData>,
)
    requires
        exact(m),
        applied(m, request, now, g, result, cs),
    ensures
        exact(g),
{
    let names = affected(m, request);
    let h = executed(m, request, now)->Ok_0.0;
    let (b, a) = (captured(m, names), captured(h, names));
    lemma_affected_listable(m, request);
    let moves = match request {
        MutationRequest::RenameEntity { old_name, new_name } => old_name@ != new_name@,
        _ => false,
    };
    if moves {
        if let MutationRequest::RenameEntity { old_name, new_name } = request {
            let inner = requested_names(m, request);
            lemma_closed_neighbours(m, inner);
            assert(inner =~= set![old_name@, new_name@]);
            assert(inner.contains(old_name@) && inner.contains(new_name@));
            lemma_rename(m, old_name@, new_name@, names);
            assert(refreshed(h.entities, cs, a.rows, now) == h.entities) by {
                if cs.len() > 0 {
                    assert(cs.drop_last() =~= Seq::<ChangeData>::empty());
                    assert(refreshed(h.entities, cs.drop_last(), a.rows, now) == h.entities);
                }
            }
        }
    } else {
        lemma_executed(m, request, now);
        assert forall|i: int| 0 <= i < h.entities.len() && (#[trigger] h.entities[i]).flags == 0 implies entity_exact(
            h,
            refreshed(h.entities, cs, a.rows, now)[i],
        ) by {
            lemma_entity_counters(m, h, names, cs, now, i);
        }
    }
    lemma_exact_after(m, h, names, cs, now);
}

/// An audit finds nothing wrong with a graph whose counters are exact, where no
/// relation is stored twice, no deleted entity is left and the number of
/// relations is on record.
pub proof fn law_exact_counters_audit_clean(m: GraphModel, report: AuditReport)
    requires
        exact(m),
        forall|i: int| 0 <= i < m.entities.len() ==> (#[trigger] m.entities[i]).flags == 0,
        m.stat.relations is Some,
        repeats(m.relations) == 0,
        repeated_groups(m.relations) == 0,
        audits(report, m),
    ensures
        report.clean(),
{
    assert forall|i: int| 0 <= i < m.relations.len() implies !dangles(m)(#[trigger] m.relations[i]) by {
        let r = m.relations[i];
        assert(anchored(m, r));
        let a = lemma_live_id(m, r.from_id);
        let b = lemma_live_id(m, r.to_id);
        let k = lemma_has_type(m, RELATION_KIND as int, r.type_id);
        assert(m.entities[a].id == r.from_id && m.entities[b].id == r.to_id && m.types[k].id == r.type_id);
    }
    lemma_count_none(m.relations, dangles(m));
    assert forall|i: int| 0 <= i < m.types.len() implies !miscounted(m)(#[trigger] m.types[i]) by {}
    lemma_count_none(m.types, miscounted(m));
    assert forall|i: int| 0 <= i < m.entities.len() implies !out_drifted(m)(#[trigger] m.entities[i])
        && !in_drifted(m)(m.entities[i]) by {
        assert(entity_exact(m, m.entities[i]));
    }
    lemma_count_none(m.entities, out_drifted(m));
    lemma_count_none(m.entities, in_drifted(m));
}

// ---------------------------------------------------------------------------
// No relation twice
// ---------------------------------------------------------------------------

/// Rows store the same relation where they say the same.
proof fn lemma_like(m: GraphModel, rows: Seq<RelationModel>, r: RelationModel)
    requires
        sound(m),
        all_anchored(m, rows),
        anchored(m, r),
    ensures
        count_of(rows, like(r)) == count_of(rows_where(m, rows, any()), same_as(label(m, r))),
    decreases rows.len(),
{
    if rows.len() > 0 {
        let (t, x) = (rows.drop_last(), rows.last());
        let kind = RELATION_KIND as int;
        lemma_anchored_head(m, rows);
        lemma_like(m, t, r);
        let (a, i) = (lemma_live_id(m, x.from_id), lemma_live_id(m, r.from_id));
        let (b, j) = (lemma_live_id(m, x.to_id), lemma_live_id(m, r.to_id));
        let (u, v) = (lemma_has_type(m, kind, x.type_id), lemma_has_type(m, kind, r.type_id));
        if a != i {
            assert(m.entities[a].name != m.entities[i].name);
        }
        if b != j {
            assert(m.entities[b].name != m.entities[j].name);
        }
        if u != v {
            assert(m.types[u].name != m.types[v].name);
        }
        lemma_count_push(rows_where(m, t, any()), label(m, x), same_as(label(m, r)));
    }
}

/// No row repeats another exactly where no relation is said twice.
proof fn lemma_once(m: GraphModel, rows: Seq<RelationModel>)
    requires
        sound(m),
        all_anchored(m, rows),
    ensures
        repeats(rows) >= 0,
        repeats(rows) == 0 <==> forall|d: RelationData| #[trigger]
            count_of(rows_where(m, rows, any()), same_as(d)) <= 1,
    decreases rows.len(),
{
    if rows.len() > 0 {
        let (t, r) = (rows.drop_last(), rows.last());
        let (head, whole) = (rows_where(m, t, any()), rows_where(m, rows, any()));
        lemma_anchored_head(m, rows);
        lemma_once(m, t);
        lemma_like(m, t, r);
        lemma_count_bounds(t, like(r));
        let x = label(m, r);
        lemma_count_push(head, x, same_as(x));
        if repeats(rows) == 0 {
            assert forall|d: RelationData| #[trigger] count_of(whole, same_as(d)) <= 1 by {
                lemma_count_push(head, x, same_as(d));
                assert(count_of(head, same_as(d)) <= 1);
            }
        }
        if forall|d: RelationData| #[trigger] count_of(whole, same_as(d)) <= 1 {
            assert(count_of(whole, same_as(x)) <= 1);
            assert forall|d: RelationData| #[trigger] count_of(head, same_as(d)) <= 1 by {
                lemma_count_push(head, x, same_as(d));
                assert(count_of(whole, same_as(d)) <= 1);
            }
        }
    }
}

/// Where no relation is stored twice, no mutation stores one twice.
pub proof fn law_no_relation_is_stored_twice(
    m: GraphModel,
    request: MutationRequest,
    now: int,
    g: GraphModel,
    result: ResultData,
    cs: Seq<ChangeData>,
)
    requires
        sound(m),
        repeats(m.relations) == 0,
        applied(m, request, now, g, result, cs),
    ensures
        repeats(g.relations) == 0,
{
    let h = executed(m, request, now)->Ok_0.0;
    let moves = match request {
        MutationRequest::RenameEntity { old_name, new_name } => old_name@ != new_name@,
        _ => false,
    };
    if moves {
        assert(h.relations == m.relations);
    } else {
        lemma_executed(m, request, now);
        lemma_once(m, m.relations);
        assert forall|d: RelationData| #[trigger] count_of(all_rows(h), same_as(d)) <= 1 by {
            assert(count_of(all_rows(m), same_as(d)) <= 1);
            assert(stored(h, d) == stored(m, d) || stored(m, d) == 0 && stored(h, d) == 1 || stored(h, d) == 0);
        }
        lemma_once(h, h.relations);
        assert(all_anchored(h, h.relations));
        assert forall|d: RelationData| #[trigger] count_of(rows_where(h, h.relations, any()), same_as(d)) <= 1 by {
            assert(count_of(all_rows(h), same_as(d)) <= 1);
        }
        assert(repeats(h.relations) == 0);
    }
    assert(g.relations == h.relations);
}

// ---------------------------------------------------------------------------
// What is read back
// ---------------------------------------------------------------------------

/// The counters say nothing about what is read.
proof fn lemma_recounted_reads(
    h: GraphModel,
    b: Captured,
    a: Captured,
    cs: Seq<ChangeData>,
    now: int,
    n: Seq<char>,
)
    requires
        sound(h),
    ensures
        sound(recounted(h, b, a, cs, now)),
        recounted(h, b, a, cs, now).snapshot(n) == h.snapshot(n),
{
    let g = recounted(h, b, a, cs, now);
    lemma_recounted_sound(h, b, a, cs, now);
    lemma_refreshed_len(h.entities, cs, a.rows, now);
    assert forall|i: int| 0 <= i < g.entities.len() implies same_but_counters(
        #[trigger] g.entities[i],
        h.entities[i],
    ) by {
        lemma_refreshed(h.entities, cs, a.rows, now, i);
    }
    if h.snapshot(n) is Some {
        let i = lemma_snapshot_row(h, n);
        assert(same_but_counters(g.entities[i], h.entities[i]));
        lemma_snapshot_at(g, i);
        let k = lemma_has_type(h, ENTITY_KIND as int, h.entities[i].type_id);
        assert(g.types[k].id == h.types[k].id && g.types[k].name == h.types[k].name);
        lemma_find_type_id(g.types, k);
    } else if g.snapshot(n) is Some {
        let i = lemma_snapshot_row(g, n);
        assert(same_but_counters(g.entities[i], h.entities[i]));
        lemma_snapshot_at(h, i);
    }
}

/// Creating an entity is read back, and leaves what is read of the others.
proof fn lemma_create_reads(m: GraphModel, e: EntityData, now: int, n: Seq<char>)
    requires
        sound(m),
    ensures
        ({
            let (h, made) = m.create_entity(e, now);
            &&& sound(h)
            &&& made ==> (h.snapshot(e.name) matches Some(s) && s.entity() == e)
            &&& m.snapshot(n) is Some ==> h.snapshot(n) == m.snapshot(n)
        }),
{
    let (h, made) = m.create_entity(e, now);
    lemma_create_entity(m, e, now, set![e.name]);
    if made {
        let t = m.with_type(ENTITY_KIND as int, e.entity_type);
        lemma_with_type(m, ENTITY_KIND as int, e.entity_type, Set::empty());
        let last = m.entities.len() as int;
        assert(h.entities[last].name == e.name && h.entities[last].flags == 0);
        lemma_snapshot_at(h, last);
        assert(h.snapshot(e.name)->0.entity() =~= e);
        if m.snapshot(n) is Some {
            let i = lemma_snapshot_row(m, n);
            assert(h.entities[i] == m.entities[i]);
            lemma_snapshot_at(h, i);
            assert(has_type(m.types, ENTITY_KIND as int, m.entities[i].type_id));
        }
    }
}

proof fn lemma_create_all_reads(m: GraphModel, es: Seq<EntityData>, now: int, n: Seq<char>)
    requires
        sound(m),
    ensures
        ({
            let (h, made) = create_all(m, es, now);
            &&& sound(h)
            &&& forall|i: int|
                0 <= i < made.len() ==> (h.snapshot((#[trigger] made[i]).name) matches Some(s) && s.entity()
                    == made[i])
            &&& m.snapshot(n) is Some ==> h.snapshot(n) == m.snapshot(n)
        }),
    decreases es.len(),
{
    if es.len() > 0 {
        let (g, made) = create_all(m, es.drop_last(), now);
        let (h, new) = g.create_entity(es.last(), now);
        let whole = create_all(m, es, now).1;
        lemma_create_all_reads(m, es.drop_last(), now, n);
        lemma_create_reads(g, es.last(), now, n);
        assert forall|i: int| 0 <= i < whole.len() implies (h.snapshot((#[trigger] whole[i]).name) matches Some(
            s,
        ) && s.entity() == whole[i]) by {
            if i < made.len() {
                assert(whole[i] == made[i]);
                lemma_create_reads(g, es.last(), now, made[i].name);
            }
        }
    }
}

/// Every entity that a request reports as created is read back as it was given,
/// and whatever could be read before is read unchanged.
pub proof fn law_created_entities_are_read_back(
    m: GraphModel,
    request: MutationRequest,
    now: int,
    g: GraphModel,
    result: ResultData,
    cs: Seq<ChangeData>,
    n: Seq<char>,
)
    requires
        sound(m),
        request is CreateEntities,
        applied(m, request, now, g, result, cs),
    ensures
        result matches ResultData::Entities(made) && forall|i: int|
            0 <= i < made.len() ==> (g.snapshot((#[trigger] made[i]).name) matches Some(s) && s.entity()
                == made[i]),
        m.snapshot(n) is Some ==> g.snapshot(n) == m.snapshot(n),
{
    let names = affected(m, request);
    let h = executed(m, request, now)->Ok_0.0;
    let (b, a) = (captured(m, names), captured(h, names));
    if let MutationRequest::CreateEntities { entities } = request {
        let es = entities_data(entities@);
        let made = create_all(m, es, now).1;
        lemma_create_all_reads(m, es, now, n);
        lemma_recounted_reads(h, b, a, cs, now, n);
        assert forall|i: int| 0 <= i < made.len() implies (g.snapshot((#[trigger] made[i]).name) matches Some(s)
            && s.entity() == made[i]) by {
            lemma_recounted_reads(h, b, a, cs, now, made[i].name);
        }
    }
}

/// Nothing refers to a name that no live entity has.
proof fn lemma_no_rows_of(m: GraphModel, n: Seq<char>)
    requires
        sound(m),
        m.snapshot(n) is None,
    ensures
        m.touching(m.relations, set![n]).len() == 0,
{
    let rows = m.touching(m.relations, set![n]);
    lemma_touching(m, m.relations, set![n]);
    if rows.len() > 0 {
        let d = rows[0];
        assert(rows.contains(d));
        let k = lemma_where_source(m, m.relations, near(set![n]), d);
        assert(anchored(m, m.relations[k]));
        let i = lemma_live_id(m, m.relations[k].from_id);
        let j = lemma_live_id(m, m.relations[k].to_id);
        lemma_no_snapshot(m, n, i);
        lemma_no_snapshot(m, n, j);
    }
}

/// Deleting an entity brings nothing back.
proof fn lemma_delete_gone(m: GraphModel, name: Seq<char>, n: Seq<char>)
    requires
        sound(m),
    ensures
        sound(m.delete_entity(name)),
        m.delete_entity(name).snapshot(n) is Some ==> m.snapshot(n) is Some && n != name,
{
    if m.snapshot(name) is Some {
        let i = lemma_snapshot_row(m, name);
        let h = lemma_removed_sound(m, i);
        if h.snapshot(n) is Some {
            let k = lemma_snapshot_row(h, n);
            let x = if k < i {
                k
            } else {
                k + 1
            };
            assert(h.entities[k] == m.entities[x]);
            lemma_snapshot_at(m, x);
            if n == name {
                assert(m.entities[x].name != m.entities[i].name);
            }
        }
    }
}

proof fn lemma_delete_all_gone(m: GraphModel, list: Seq<Seq<char>>, n: Seq<char>)
    requires
        sound(m),
    ensures
        sound(m.delete_entities(list)),
        m.delete_entities(list).snapshot(n) is Some ==> m.snapshot(n) is Some && !list.contains(n),
    decreases list.len(),
{
    if list.len() > 0 {
        let t = list.drop_last();
        lemma_delete_all_gone(m, t, n);
        lemma_delete_gone(m.delete_entities(t), list.last(), n);
        if list.contains(n) && n != list.last() {
            assert(t[list.index_of(n)] == n);
        }
    }
}

/// An entity that was deleted is not read any more, nor is any relation of it.
pub proof fn law_deleted_entities_are_gone(
    m: GraphModel,
    request: MutationRequest,
    now: int,
    g: GraphModel,
    result: ResultData,
    cs: Seq<ChangeData>,
    n: Seq<char>,
)
    requires
        sound(m),
        request matches MutationRequest::DeleteEntities { names } && texts(names@).contains(n),
        applied(m, request, now, g, result, cs),
    ensures
        g.snapshot(n) is None,
        g.touching(g.relations, set![n]).len() == 0,
{
    let names = affected(m, request);
    let inner = requested_names(m, request);
    let h = executed(m, request, now)->Ok_0.0;
    lemma_affected_listable(m, request);
    lemma_listed(inner);
    lemma_delete_all_gone(m, listed(inner), n);
    assert(inner.contains(n));
    assert(listed(inner).contains(n));
    lemma_recounted_reads(h, captured(m, names), captured(h, names), cs, now, n);
    lemma_no_rows_of(g, n);
}

/// A renamed entity is read under its new name, with the same identifier, type
/// and observations, and no longer under its old one.
pub proof fn law_a_renamed_entity_is_read_under_its_new_name(
    m: GraphModel,
    old_name: String,
    new_name: String,
    now: int,
    g: GraphModel,
    result: ResultData,
    cs: Seq<ChangeData>,
)
    requires
        sound(m),
        old_name@ != new_name@,
        applied(m, MutationRequest::RenameEntity { old_name, new_name }, now, g, result, cs),
    ensures
        m.snapshot(old_name@) is Some,
        g.snapshot(old_name@) is None,
        g.snapshot(new_name@) == Some(SnapshotData { name: new_name@, ..m.snapshot(old_name@)->0 }),
{
    let request = MutationRequest::RenameEntity { old_name, new_name };
    let names = affected(m, request);
    let h = executed(m, request, now)->Ok_0.0;
    let (b, a) = (captured(m, names), captured(h, names));
    let i = lemma_snapshot_row(m, old_name@);
    lemma_renamed_sound(m, i, new_name@);
    assert(h.entities[i] == EntityModel { name: new_name@, ..m.entities[i] });
    lemma_snapshot_at(h, i);
    lemma_recounted_reads(h, b, a, cs, now, new_name@);
    lemma_recounted_reads(h, b, a, cs, now, old_name@);
    if h.snapshot(old_name@) is Some {
        let k = lemma_snapshot_row(h, old_name@);
        assert(k != i);
        assert(h.entities[k] == m.entities[k]);
        assert(m.entities[k].name != m.entities[i].name);
    }
}

/// Creating a relation leaves what is read of the entities, and the relation is
/// there where both its ends are.
proof fn lemma_relate_reads(m: GraphModel, d: RelationData, now: int, n: Seq<char>)
    requires
        sound(m),
    ensures
        ({
            let h = m.create_relation(d, now).0;
            &&& sound(h)
            &&& h.snapshot(n) == m.snapshot(n)
            &&& forall|x: RelationData| #[trigger] all_rows(m).contains(x) ==> all_rows(h).contains(x)
            &&& m.snapshot(d.from) is Some && m.snapshot(d.to) is Some ==> all_rows(h).contains(d)
        }),
{
    let h = m.create_relation(d, now).0;
    lemma_create_relation(m, d, now, set![d.from, d.to]);
    match (m.snapshot(d.from), m.snapshot(d.to)) {
        (Some(f), Some(g)) => {
            let kind = RELATION_KIND as int;
            let t = m.with_type(kind, d.relation_type);
            let id = m.type_id(kind, d.relation_type);
            lemma_with_type(m, kind, d.relation_type, Set::empty());
            assert(h.entities == m.entities && h.types == t.types);
            if m.snapshot(n) is Some {
                let i = lemma_snapshot_row(m, n);
                lemma_snapshot_at(h, i);
                assert(has_type(m.types, ENTITY_KIND as int, m.entities[i].type_id));
            } else if h.snapshot(n) is Some {
                let i = lemma_snapshot_row(h, n);
                lemma_snapshot_at(m, i);
            }
            let i = lemma_snapshot_row(m, d.from);
            let j = lemma_snapshot_row(m, d.to);
            let r = RelationModel { from_id: f.entity_id, to_id: g.entity_id, type_id: id, created_us: now };
            assert(t.entities[i].id == r.from_id && t.entities[j].id == r.to_id);
            lemma_find_id(t.entities, i);
            lemma_find_id(t.entities, j);
            assert(anchored(t, r));
            assert(label(t, r) == d);
            if joined(m.relations, f.entity_id, g.entity_id, id) {
                let k = choose|k: int|
                    0 <= k < m.relations.len() && joins(#[trigger] m.relations[k], f.entity_id, g.entity_id, id);
                assert(label(t, t.relations[k]) == label(t, r));
                lemma_where_holds(t, t.relations, any(), k);
            } else {
                lemma_push_row(t, r, set![d.from, d.to]);
                let (x, y) = (all_rows(t), all_rows(h));
                assert(y == x.push(d));
                assert(y[x.len() as int] == d);
                assert forall|z: RelationData| #[trigger] all_rows(m).contains(z) implies y.contains(z) by {
                    assert(y[x.index_of(z)] == z);
                }
            }
        },
        _ => {},
    }
}

proof fn lemma_relate_all_reads(m: GraphModel, ds: Seq<RelationData>, now: int, n: Seq<char>)
    requires
        sound(m),
    ensures
        ({
            let h = relate_all(m, ds, now).0;
            &&& sound(h)
            &&& h.snapshot(n) == m.snapshot(n)
            &&& forall|x: RelationData| #[trigger] all_rows(m).contains(x) ==> all_rows(h).contains(x)
            &&& forall|i: int|
                0 <= i < ds.len() && m.snapshot((#[trigger] ds[i]).from) is Some && m.snapshot(ds[i].to) is Some
                    ==> all_rows(h).contains(ds[i])
        }),
    decreases ds.len(),
{
    if ds.len() > 0 {
        let t = ds.drop_last();
        let g = relate_all(m, t, now).0;
        let h = relate_all(m, ds, now).0;
        let d = ds.last();
        lemma_relate_all_reads(m, t, now, n);
        lemma_relate_reads(g, d, now, n);
        assert(h == g.create_relation(d, now).0);
        assert forall|i: int|
            0 <= i < ds.len() && m.snapshot((#[trigger] ds[i]).from) is Some && m.snapshot(ds[i].to) is Some implies all_rows(
            h,
        ).contains(ds[i]) by {
            if i < t.len() {
                assert(t[i] == ds[i]);
                assert(all_rows(g).contains(t[i]));
            } else {
                lemma_relate_all_reads(m, t, now, d.from);
                lemma_relate_all_reads(m, t, now, d.to);
            }
        }
    }
}

/// Deleting one entity leaves what is read of the others, and the relations
/// that are not its own.
proof fn lemma_delete_reads(m: GraphModel, name: Seq<char>, n: Seq<char>)
    requires
        sound(m),
        n != name,
    ensures
        ({
            let h = m.delete_entity(name);
            &&& m.snapshot(n) is Some ==> h.snapshot(n) == m.snapshot(n)
            &&& forall|x: RelationData| #[trigger]
                all_rows(m).contains(x) && !x.touches(name) ==> all_rows(h).contains(x)
        }),
{
    if m.snapshot(name) is Some {
        let i = lemma_snapshot_row(m, name);
        let h = lemma_removed_sound(m, i);
        if m.snapshot(n) is Some {
            let k = lemma_snapshot_row(m, n);
            let x = if k < i {
                k
            } else {
                k - 1
            };
            assert(h.entities[x] == m.entities[k]);
            lemma_snapshot_at(h, x);
        }
        let q = except(at(name), any());
        lemma_relations_without(m, h, m.relations, i, any());
        assert forall|x: RelationData| #[trigger] all_rows(m).contains(x) && !x.touches(name) implies all_rows(
            h,
        ).contains(x) by {
            let k = lemma_where_source(m, m.relations, any(), x);
            lemma_where_holds(m, m.relations, q, k);
        }
    }
}

/// Of two entities that were merged, the first is no longer read. The second
/// has the observations of both, and every relation of the first, with the
/// second in its place.
pub proof fn law_a_merge_moves_everything(
    m: GraphModel,
    source: String,
    target: String,
    now: int,
    g: GraphModel,
    result: ResultData,
    cs: Seq<ChangeData>,
    d: RelationData,
)
    requires
        sound(m),
        source@ != target@,
        applied(m, MutationRequest::MergeEntities { source, target }, now, g, result, cs),
    ensures
        g.snapshot(source@) is None,
        g.snapshot(target@) == Some(
            SnapshotData {
                observations: m.snapshot(target@)->0.observations + m.snapshot(source@)->0.observations,
                ..m.snapshot(target@)->0
            },
        ),
        m.touching(m.relations, set![source@]).contains(d) ==> g.touching(g.relations, set![target@]).contains(
            redirect(d, source@, target@),
        ),
{
    let request = MutationRequest::MergeEntities { source, target };
    let (from, to) = (source@, target@);
    let names = affected(m, request);
    let x = executed(m, request, now)->Ok_0.0;
    let (b, a) = (captured(m, names), captured(x, names));
    let (old, into) = (m.snapshot(from)->0, m.snapshot(to)->0);
    let h = m.insert_observations(into.entity_id, old.observations);
    let i = lemma_snapshot_row(m, to);
    let one = set![to];
    lemma_insert_observations(m, to, old.observations, one);
    assert(h.entities[i] == observing(m.entities[i], old.observations));
    lemma_snapshot_at(h, i);
    let rows = h.relations_of(from);
    let ds = redirect_all(rows, from, to);
    let y = relate_all(h, ds, now).0;
    lemma_relate_all_reads(h, ds, now, to);
    lemma_delete_reads(y, from, to);
    lemma_delete_gone(y, from, from);
    assert(x == y.delete_entity(from));
    lemma_recounted_reads(x, b, a, cs, now, from);
    lemma_recounted_reads(x, b, a, cs, now, to);
    if m.touching(m.relations, set![from]).contains(d) {
        let e = redirect(d, from, to);
        lemma_touching(m, m.relations, set![from]);
        lemma_touching(h, h.relations, set![from]);
        let k = lemma_where_source(m, m.relations, near(set![from]), d);
        lemma_where_holds(m, m.relations, any(), k);
        assert(all_rows(h).contains(d));
        let l = lemma_where_source(h, h.relations, any(), d);
        lemma_where_holds(h, h.relations, near(set![from]), l);
        let near_rows = h.touching(h.relations, set![from]);
        assert(near_rows.contains(d));
        crate::types::lemma_sort_relations(near_rows);
        assert(rows.contains(d));
        let j = rows.index_of(d);
        assert(ds[j] == e);
        lemma_ends_read(h, l);
        assert(h.snapshot(e.from) is Some && h.snapshot(e.to) is Some);
        assert(all_rows(y).contains(e));
        assert(!e.touches(from));
        assert(all_rows(x).contains(e));
        lemma_recounted_rows(x, b, a, cs, now);
        lemma_touching(g, g.relations, set![to]);
        let z = lemma_where_source(g, g.relations, any(), e);
        lemma_where_holds(g, g.relations, near(set![to]), z);
    }
}

/// Both ends of a row can be read.
proof fn lemma_ends_read(m: GraphModel, k: int)
    requires
        sound(m),
        0 <= k < m.relations.len(),
    ensures
        m.snapshot(label(m, m.relations[k]).from) is Some,
        m.snapshot(label(m, m.relations[k]).to) is Some,
{
    assert(anchored(m, m.relations[k]));
    let i = lemma_live_id(m, m.relations[k].from_id);
    let j = lemma_live_id(m, m.relations[k].to_id);
    lemma_snapshot_at(m, i);
    lemma_snapshot_at(m, j);
}

/// The counters say nothing about the relations.
proof fn lemma_recounted_rows(h: GraphModel, b: Captured, a: Captured, cs: Seq<ChangeData>, now: int)
    requires
        sound(h),
    ensures
        all_rows(recounted(h, b, a, cs, now)) == all_rows(h),
{
    let g = recounted(h, b, a, cs, now);
    lemma_recounted_sound(h, b, a, cs, now);
    lemma_refreshed_len(h.entities, cs, a.rows, now);
    assert forall|k: int| 0 <= k < h.relations.len() implies label(h, #[trigger] h.relations[k]) == label(
        g,
        h.relations[k],
    ) by {
        let r = h.relations[k];
        assert(anchored(h, r));
        let i = lemma_live_id(h, r.from_id);
        let j = lemma_live_id(h, r.to_id);
        let t = lemma_has_type(h, RELATION_KIND as int, r.type_id);
        lemma_refreshed(h.entities, cs, a.rows, now, i);
        lemma_refreshed(h.entities, cs, a.rows, now, j);
        lemma_find_id(g.entities, i);
        lemma_find_id(g.entities, j);
        assert(g.types[t].id == h.types[t].id && g.types[t].name == h.types[t].name);
        lemma_find_type_id(g.types, t);
    }
    lemma_labels_kept(h, g, h.relations, any());
}

// ---------------------------------------------------------------------------
// Names, relations and observations
// ---------------------------------------------------------------------------

/// A mutation of a sound graph leaves a sound graph: no two live entities share
/// a name, no two rows an identifier, and every relation row joins two live
/// entities by a known type.
pub proof fn law_a_sound_graph_stays_sound(
    m: GraphModel,
    request: MutationRequest,
    now: int,
    g: GraphModel,
    result: ResultData,
    cs: Seq<ChangeData>,
)
    requires
        sound(m),
        applied(m, request, now, g, result, cs),
    ensures
        sound(g),
{
    let names = affected(m, request);
    let h = executed(m, request, now)->Ok_0.0;
    let moves = match request {
        MutationRequest::RenameEntity { old_name, new_name } => old_name@ != new_name@,
        _ => false,
    };
    if moves {
        if let MutationRequest::RenameEntity { old_name, new_name } = request {
            let i = lemma_snapshot_row(m, old_name@);
            lemma_renamed_sound(m, i, new_name@);
        }
    } else {
        lemma_executed(m, request, now);
    }
    lemma_recounted_sound(h, captured(m, names), captured(h, names), cs, now);
}

/// What the rows of a graph say is read at either end.
proof fn lemma_read_at_ends(g: GraphModel, d: RelationData, names: Set<Seq<char>>)
    requires
        sound(g),
        near(names)(d),
    ensures
        g.touching(g.relations, names).contains(d) <==> all_rows(g).contains(d),
{
    lemma_touching(g, g.relations, names);
    if all_rows(g).contains(d) {
        let k = lemma_where_source(g, g.relations, any(), d);
        lemma_where_holds(g, g.relations, near(names), k);
    }
    if g.touching(g.relations, names).contains(d) {
        let k = lemma_where_source(g, g.relations, near(names), d);
        lemma_where_holds(g, g.relations, any(), k);
    }
}

/// A relation between two known entities is read at both of them once it was
/// asked for, and what is read of the entities stays as it was.
pub proof fn law_created_relations_are_read_back(
    m: GraphModel,
    relations: Vec<Relation>,
    now: int,
    g: GraphModel,
    result: ResultData,
    cs: Seq<ChangeData>,
    d: RelationData,
    n: Seq<char>,
)
    requires
        sound(m),
        applied(m, MutationRequest::CreateRelations { relations }, now, g, result, cs),
    ensures
        relations_data(relations@).contains(d) && m.snapshot(d.from) is Some && m.snapshot(d.to) is Some ==> {
            &&& g.touching(g.relations, set![d.from]).contains(d)
            &&& g.touching(g.relations, set![d.to]).contains(d)
        },
        g.snapshot(n) == m.snapshot(n),
{
    let request = MutationRequest::CreateRelations { relations };
    let names = affected(m, request);
    let h = executed(m, request, now)->Ok_0.0;
    let (b, a) = (captured(m, names), captured(h, names));
    let ds = relations_data(relations@);
    lemma_relate_all_reads(m, ds, now, n);
    lemma_recounted_reads(h, b, a, cs, now, n);
    lemma_recounted_rows(h, b, a, cs, now);
    if ds.contains(d) && m.snapshot(d.from) is Some && m.snapshot(d.to) is Some {
        assert(ds[ds.index_of(d)] == d);
        lemma_read_at_ends(g, d, set![d.from]);
        lemma_read_at_ends(g, d, set![d.to]);
    }
}

/// Deleting a relation takes away what says it, and leaves the rest.
proof fn lemma_unrelate_reads(m: GraphModel, d: RelationData, n: Seq<char>)
    requires
        sound(m),
    ensures
        ({
            let h = m.delete_relation(d);
            &&& sound(h)
            &&& h.snapshot(n) == m.snapshot(n)
            &&& forall|x: RelationData| #[trigger]
                all_rows(h).contains(x) <==> all_rows(m).contains(x) && x != d
        }),
{
    let h = m.delete_relation(d);
    let q = except(same_as(d), any());
    lemma_unrelated(m, d);
    assert forall|x: RelationData| #[trigger] all_rows(h).contains(x) <==> all_rows(m).contains(x) && x != d by {
        if all_rows(h).contains(x) {
            let k = lemma_where_source(m, m.relations, q, x);
            lemma_where_holds(m, m.relations, any(), k);
        }
        if all_rows(m).contains(x) && x != d {
            let k = lemma_where_source(m, m.relations, any(), x);
            lemma_where_holds(m, m.relations, q, k);
        }
    }
}

proof fn lemma_unrelate_all_reads(m: GraphModel, ds: Seq<RelationData>, n: Seq<char>)
    requires
        sound(m),
    ensures
        ({
            let h = unrelate_all(m, ds);
            &&& sound(h)
            &&& h.snapshot(n) == m.snapshot(n)
            &&& forall|x: RelationData| #[trigger]
                all_rows(h).contains(x) <==> all_rows(m).contains(x) && !ds.contains(x)
        }),
    decreases ds.len(),
{
    if ds.len() > 0 {
        let t = ds.drop_last();
        let g = unrelate_all(m, t);
        let h = unrelate_all(m, ds);
        lemma_unrelate_all_reads(m, t, n);
        lemma_unrelate_reads(g, ds.last(), n);
        assert forall|x: RelationData| #[trigger] all_rows(h).contains(x) <==> all_rows(m).contains(x)
            && !ds.contains(x) by {
            if ds.contains(x) && x != ds.last() {
                assert(t[ds.index_of(x)] == x);
            }
            if t.contains(x) {
                assert(ds[t.index_of(x)] == x);
            }
            assert(ds[ds.len() - 1] == ds.last());
        }
    }
}

/// A relation that was deleted is not read any more; every other relation is
/// still read, and what is read of the entities stays as it was.
pub proof fn law_deleted_relations_are_gone(
    m: GraphModel,
    relations: Vec<Relation>,
    now: int,
    g: GraphModel,
    result: ResultData,
    cs: Seq<ChangeData>,
    d: RelationData,
    n: Seq<char>,
)
    requires
        sound(m),
        applied(m, MutationRequest::DeleteRelations { relations }, now, g, result, cs),
    ensures
        g.touching(g.relations, set![d.from]).contains(d) <==> m.touching(m.relations, set![d.from]).contains(d)
            && !relations_data(relations@).contains(d),
        g.touching(g.relations, set![d.to]).contains(d) <==> m.touching(m.relations, set![d.to]).contains(d)
            && !relations_data(relations@).contains(d),
        g.snapshot(n) == m.snapshot(n),
{
    let request = MutationRequest::DeleteRelations { relations };
    let names = affected(m, request);
    let h = executed(m, request, now)->Ok_0.0;
    let (b, a) = (captured(m, names), captured(h, names));
    lemma_unrelate_all_reads(m, relations_data(relations@), n);
    lemma_recounted_reads(h, b, a, cs, now, n);
    lemma_recounted_rows(h, b, a, cs, now);
    lemma_read_at_ends(m, d, set![d.from]);
    lemma_read_at_ends(m, d, set![d.to]);
    lemma_read_at_ends(g, d, set![d.from]);
    lemma_read_at_ends(g, d, set![d.to]);
    assert(all_rows(g).contains(d) == all_rows(h).contains(d));
}

/// Rewriting the observations of one entity changes what is read of that one
/// alone.
proof fn lemma_rewrite_reads(
    m: GraphModel,
    i: int,
    f: spec_fn(EntityModel) -> EntityModel,
    n: Seq<char>,
)
    requires
        sound(m),
        mild(f),
        0 <= i < m.entities.len(),
        m.entities[i].flags == 0,
        f(m.entities[i]).type_id == m.entities[i].type_id,
    ensures
        ({
            let h = GraphModel { entities: rewrite(m.entities, m.entities[i].id, f), ..m };
            &&& sound(h)
            &&& n != m.entities[i].name ==> h.snapshot(n) == m.snapshot(n)
            &&& n == m.entities[i].name ==> m.snapshot(n) is Some && h.snapshot(n) == Some(
                SnapshotData { observations: f(m.entities[i]).observations, ..m.snapshot(n)->0 },
            )
        }),
{
    let h = GraphModel { entities: rewrite(m.entities, m.entities[i].id, f), ..m };
    assert(has_type(m.types, ENTITY_KIND as int, m.entities[i].type_id));
    lemma_rewrite(m, i, f, set![m.entities[i].name]);
    assert forall|k: int| 0 <= k < m.entities.len() implies (#[trigger] h.entities[k]) == (if k == i {
        f(m.entities[k])
    } else {
        m.entities[k]
    }) by {
        if k < i {
            assert(m.entities[k].id != m.entities[i].id);
        } else if i < k {
            assert(m.entities[i].id != m.entities[k].id);
        }
    }
    lemma_snapshot_at(m, i);
    let e = f(m.entities[i]);
    assert(e.name == m.entities[i].name && e.flags == 0 && e.id == m.entities[i].id);
    lemma_snapshot_at(h, i);
    if n != m.entities[i].name {
        if m.snapshot(n) is Some {
            let k = lemma_snapshot_row(m, n);
            assert(h.entities[k] == m.entities[k]);
            lemma_snapshot_at(h, k);
        } else if h.snapshot(n) is Some {
            let k = lemma_snapshot_row(h, n);
            assert(h.entities[k] == m.entities[k]);
            lemma_snapshot_at(m, k);
        }
    }
}

/// What updates add to the observations of an entity.
pub open spec fn added(us: Seq<ObservationData>, n: Seq<char>) -> Seq<Seq<char>>
    decreases us.len(),
{
    if us.len() == 0 {
        Seq::empty()
    } else if us.last().entity_name == n {
        added(us.drop_last(), n) + us.last().contents
    } else {
        added(us.drop_last(), n)
    }
}

proof fn lemma_observe_all_reads(m: GraphModel, us: Seq<ObservationData>, n: Seq<char>)
    requires
        sound(m),
        observe_all(m, us) is Ok,
    ensures
        sound(observe_all(m, us)->Ok_0.0),
        observe_all(m, us)->Ok_0.0.snapshot(n) == (match m.snapshot(n) {
            Some(s) => Some(SnapshotData { observations: s.observations + added(us, n), ..s }),
            None => None,
        }),
    decreases us.len(),
{
    if us.len() == 0 {
        if m.snapshot(n) is Some {
            let s = m.snapshot(n)->0;
            assert(s.observations + added(us, n) =~= s.observations);
        }
    } else {
        let t = us.drop_last();
        let g = observe_all(m, t)->Ok_0.0;
        let u = us.last();
        lemma_observe_all_reads(m, t, n);
        lemma_observe_all_reads(m, t, u.entity_name);
        let i = lemma_snapshot_row(g, u.entity_name);
        let f = |e: EntityModel| observing(e, u.contents);
        lemma_snapshot_at(g, i);
        lemma_rewrite_reads(g, i, f, n);
        if n == u.entity_name && m.snapshot(n) is Some {
            let s = m.snapshot(n)->0;
            assert(s.observations + added(us, n) =~= s.observations + added(t, n) + u.contents);
        }
    }
}

/// The observations that were added are read back, behind those that were
/// there, in the order of the request. Nothing else that is read of the entities
/// changes.
pub proof fn law_added_observations_are_read_back(
    m: GraphModel,
    observations: Vec<ObservationUpdate>,
    now: int,
    g: GraphModel,
    result: ResultData,
    cs: Seq<ChangeData>,
    n: Seq<char>,
)
    requires
        sound(m),
        applied(m, MutationRequest::AddObservations { observations }, now, g, result, cs),
    ensures
        g.snapshot(n) == (match m.snapshot(n) {
            Some(s) => Some(
                SnapshotData {
                    observations: s.observations + added(updates_data(observations@), n),
                    ..s
                },
            ),
            None => None,
        }),
{
    let request = MutationRequest::AddObservations { observations };
    let names = affected(m, request);
    let h = executed(m, request, now)->Ok_0.0;
    lemma_observe_all_reads(m, updates_data(observations@), n);
    lemma_recounted_reads(h, captured(m, names), captured(h, names), cs, now, n);
}

/// Some update asks for the entity to forget what the body says.
pub open spec fn forgets(us: Seq<ObservationData>, n: Seq<char>, body: Seq<char>) -> bool {
    exists|i: int|
        0 <= i < us.len() && (#[trigger] us[i]).entity_name == n && us[i].contents.contains(body)
}

proof fn lemma_bodies_without(bodies: Seq<Seq<char>>, body: Seq<char>, x: Seq<char>)
    ensures
        bodies_without(bodies, body).contains(x) <==> bodies.contains(x) && x != body,
    decreases bodies.len(),
{
    if bodies.len() > 0 {
        let t = bodies.drop_last();
        let (u, v) = (bodies_without(t, body), bodies_without(bodies, body));
        lemma_bodies_without(t, body, x);
        if t.contains(x) {
            assert(bodies[t.index_of(x)] == x);
        }
        if bodies.contains(x) && x != bodies.last() {
            assert(t[bodies.index_of(x)] == x);
        }
        assert(bodies[bodies.len() - 1] == bodies.last());
        if u.contains(x) {
            assert(v[u.index_of(x)] == x);
        }
        if bodies.last() != body {
            assert(v[u.len() as int] == bodies.last());
            if v.contains(x) && x != bodies.last() {
                assert(u[v.index_of(x)] == x);
            }
        }
    }
}

proof fn lemma_forget_bodies_reads(
    m: GraphModel,
    name: Seq<char>,
    id: int,
    bodies: Seq<Seq<char>>,
    n: Seq<char>,
    x: Seq<char>,
)
    requires
        sound(m),
        m.snapshot(name) is Some,
        m.snapshot(name)->0.entity_id == id,
    ensures
        ({
            let h = forget_bodies(m, id, bodies);
            &&& sound(h)
            &&& n != name ==> h.snapshot(n) == m.snapshot(n)
            &&& h.snapshot(name) matches Some(s) && {
                &&& s == (SnapshotData { observations: s.observations, ..m.snapshot(name)->0 })
                &&& s.observations.contains(x) <==> m.snapshot(name)->0.observations.contains(x)
                    && !bodies.contains(x)
            }
        }),
    decreases bodies.len(),
{
    if bodies.len() > 0 {
        let t = bodies.drop_last();
        let g = forget_bodies(m, id, t);
        let body = bodies.last();
        lemma_forget_bodies_reads(m, name, id, t, n, x);
        let i = lemma_snapshot_row(g, name);
        let f = |e: EntityModel| forgetting(e, body);
        lemma_snapshot_at(g, i);
        lemma_rewrite_reads(g, i, f, n);
        lemma_rewrite_reads(g, i, f, name);
        lemma_bodies_without(g.snapshot(name)->0.observations, body, x);
        if t.contains(x) {
            assert(bodies[t.index_of(x)] == x);
        }
        if bodies.contains(x) && x != body {
            assert(t[bodies.index_of(x)] == x);
        }
        assert(bodies[bodies.len() - 1] == body);
    }
}

proof fn lemma_forget_all_reads(m: GraphModel, us: Seq<ObservationData>, n: Seq<char>, x: Seq<char>)
    requires
        sound(m),
        forget_all(m, us) is Ok,
    ensures
        ({
            let h = forget_all(m, us)->Ok_0.0;
            &&& sound(h)
            &&& match (m.snapshot(n), h.snapshot(n)) {
                (Some(s), Some(t)) => {
                    &&& t == (SnapshotData { observations: t.observations, ..s })
                    &&& t.observations.contains(x) <==> s.observations.contains(x) && !forgets(us, n, x)
                },
                (None, None) => true,
                _ => false,
            }
        }),
    decreases us.len(),
{
    if us.len() > 0 {
        let t = us.drop_last();
        let g = forget_all(m, t)->Ok_0.0;
        let u = us.last();
        lemma_forget_all_reads(m, t, n, x);
        lemma_forget_all_reads(m, t, u.entity_name, x);
        if u.contents.len() > 0 {
            let id = g.snapshot(u.entity_name)->0.entity_id;
            lemma_forget_bodies_reads(g, u.entity_name, id, u.contents, n, x);
        }
        if forgets(t, n, x) {
            let i = choose|i: int|
                0 <= i < t.len() && (#[trigger] t[i]).entity_name == n && t[i].contents.contains(x);
            assert(us[i] == t[i]);
        }
        if forgets(us, n, x) {
            let i = choose|i: int|
                0 <= i < us.len() && (#[trigger] us[i]).entity_name == n && us[i].contents.contains(x);
            if i < t.len() {
                assert(t[i] == us[i]);
            }
        }
        assert(us[us.len() - 1] == u);
    }
}

/// Of an entity's observations exactly those are read afterwards that no update
/// asked to forget. Nothing else that is read of the entities changes.
pub proof fn law_deleted_observations_are_gone(
    m: GraphModel,
    observations: Vec<ObservationUpdate>,
    now: int,
    g: GraphModel,
    result: ResultData,
    cs: Seq<ChangeData>,
    n: Seq<char>,
    body: Seq<char>,
)
    requires
        sound(m),
        applied(m, MutationRequest::DeleteObservations { observations }, now, g, result, cs),
    ensures
        match (m.snapshot(n), g.snapshot(n)) {
            (Some(s), Some(t)) => {
                &&& t == (SnapshotData { observations: t.observations, ..s })
                &&& t.observations.contains(body) <==> s.observations.contains(body) && !forgets(
                    updates_data(observations@),
                    n,
                    body,
                )
            },
            (None, None) => true,
            _ => false,
        },
{
    let request = MutationRequest::DeleteObservations { observations };
    let names = affected(m, request);
    let h = executed(m, request, now)->Ok_0.0;
    lemma_forget_all_reads(m, updates_data(observations@), n, body);
    lemma_recounted_reads(h, captured(m, names), captured(h, names), cs, now, n);
}

/// Giving an entity another type changes the type that is read of it, and
/// nothing that is read of the others.
proof fn lemma_retype_reads(m: GraphModel, name: Seq<char>, entity_type: Seq<char>, n: Seq<char>)
    requires
        sound(m),
        m.snapshot(name) is Some,
    ensures
        ({
            let h = m.retype(m.snapshot(name)->0.entity_id, entity_type);
            &&& sound(h)
            &&& n != name ==> h.snapshot(n) == m.snapshot(n)
            &&& h.snapshot(name) == Some(SnapshotData { entity_type, ..m.snapshot(name)->0 })
        }),
{
    let i = lemma_snapshot_row(m, name);
    let h = m.retype(m.entities[i].id, entity_type);
    let type_id = m.type_id(ENTITY_KIND as int, entity_type);
    lemma_retype(m, name, entity_type, set![name]);
    lemma_with_type(m, ENTITY_KIND as int, entity_type, set![name]);
    assert forall|k: int| 0 <= k < m.entities.len() implies (#[trigger] h.entities[k]) == (if k == i {
        EntityModel { type_id, ..m.entities[k] }
    } else {
        m.entities[k]
    }) by {
        if k < i {
            assert(m.entities[k].id != m.entities[i].id);
        } else if i < k {
            assert(m.entities[i].id != m.entities[k].id);
        }
    }
    lemma_snapshot_at(h, i);
    if n != name {
        if m.snapshot(n) is Some {
            let k = lemma_snapshot_row(m, n);
            assert(h.entities[k] == m.entities[k]);
            assert(has_type(m.types, ENTITY_KIND as int, m.entities[k].type_id));
            lemma_snapshot_at(h, k);
        } else if h.snapshot(n) is Some {
            let k = lemma_snapshot_row(h, n);
            assert(h.entities[k] == m.entities[k]);
            lemma_snapshot_at(m, k);
        }
    }
}

proof fn lemma_novel(seen: Seq<Seq<char>>, list: Seq<Seq<char>>, b: Seq<char>)
    requires
        list.contains(b),
    ensures
        seen.contains(b) || novel(seen, list).contains(b),
    decreases list.len(),
{
    let t = list.drop_last();
    let (u, v) = (novel(seen, t), novel(seen, list));
    if b == list.last() {
        if !seen.contains(b) && !u.contains(b) {
            assert(v[u.len() as int] == b);
        }
    } else {
        assert(t[list.index_of(b)] == b);
        lemma_novel(seen, t, b);
        if u.contains(b) {
            assert(v[u.index_of(b)] == b);
        }
    }
}

/// An upserted entity has the type and the observations it was given; what is
/// read of the others stays as it was, and no observation is lost.
proof fn lemma_upsert_reads(m: GraphModel, e: EntityData, now: int, n: Seq<char>)
    requires
        sound(m),
        upsert_one(m, e, now) is Ok,
    ensures
        ({
            let h = upsert_one(m, e, now)->Ok_0.0;
            &&& sound(h)
            &&& n != e.name && m.snapshot(n) is Some ==> h.snapshot(n) == m.snapshot(n)
            &&& e.name.len() > 0 ==> (h.snapshot(e.name) matches Some(s) && {
                &&& s.entity_type == e.entity_type
                &&& forall|b: Seq<char>| #[trigger] e.observations.contains(b) ==> s.observations.contains(b)
                &&& m.snapshot(e.name) matches Some(x) ==> forall|b: Seq<char>| #[trigger]
                    x.observations.contains(b) ==> s.observations.contains(b)
            })
        }),
{
    let h = upsert_one(m, e, now)->Ok_0.0;
    match m.snapshot(e.name) {
        Some(x) => {
            let g = if x.entity_type != e.entity_type {
                m.retype(x.entity_id, e.entity_type)
            } else {
                m
            };
            if x.entity_type != e.entity_type {
                lemma_retype_reads(m, e.name, e.entity_type, n);
            }
            let more = novel(x.observations, e.observations);
            let i = lemma_snapshot_row(g, e.name);
            let f = |r: EntityModel| observing(r, more);
            lemma_snapshot_at(g, i);
            lemma_rewrite_reads(g, i, f, n);
            lemma_rewrite_reads(g, i, f, e.name);
            let s = h.snapshot(e.name)->0;
            assert(s.observations == x.observations + more);
            assert forall|b: Seq<char>| #[trigger] x.observations.contains(b) implies s.observations.contains(b) by {
                assert(s.observations[x.observations.index_of(b)] == b);
            }
            assert forall|b: Seq<char>| #[trigger] e.observations.contains(b) implies s.observations.contains(b) by {
                lemma_novel(x.observations, e.observations, b);
                if more.contains(b) {
                    assert(s.observations[x.observations.len() + more.index_of(b)] == b);
                }
            }
        },
        None => {
            lemma_create_reads(m, e, now, n);
        },
    }
}

/// No later entry has the name of the one at `i`.
pub open spec fn last_of_its_name(es: Seq<EntityData>, i: int) -> bool {
    forall|j: int| i < j < es.len() ==> (#[trigger] es[j]).name != es[i].name
}

proof fn lemma_upsert_all_reads(m: GraphModel, es: Seq<EntityData>, now: int, i: int)
    requires
        sound(m),
        upsert_all(m, es, now) is Ok,
        0 <= i < es.len(),
        es[i].name.len() > 0,
    ensures
        ({
            let h = upsert_all(m, es, now)->Ok_0.0;
            &&& sound(h)
            &&& h.snapshot(es[i].name) matches Some(s) && {
                &&& last_of_its_name(es, i) ==> s.entity_type == es[i].entity_type
                &&& forall|b: Seq<char>| #[trigger]
                    es[i].observations.contains(b) ==> s.observations.contains(b)
            }
        }),
    decreases es.len(),
{
    let t = es.drop_last();
    let g = upsert_all(m, t, now)->Ok_0.0;
    let e = es.last();
    if i < t.len() {
        lemma_upsert_all_reads(m, t, now, i);
        assert(t[i] == es[i]);
        lemma_upsert_reads(g, e, now, es[i].name);
        if last_of_its_name(es, i) {
            assert forall|j: int| i < j < t.len() implies (#[trigger] t[j]).name != t[i].name by {
                assert(t[j] == es[j]);
            }
            assert(es[es.len() - 1].name != es[i].name);
        }
        if e.name == es[i].name {
            let x = g.snapshot(e.name)->0;
            let s = upsert_all(m, es, now)->Ok_0.0.snapshot(e.name)->0;
            assert forall|b: Seq<char>| #[trigger] es[i].observations.contains(b) implies s.observations.contains(
                b,
            ) by {
                assert(t[i].observations.contains(b));
                assert(x.observations.contains(b));
            }
            assert(es[es.len() - 1] == e);
        }
    } else {
        lemma_upsert_all_sound(m, t, now);
        assert(es[i] == e);
        lemma_upsert_reads(g, e, now, e.name);
    }
}

proof fn lemma_upsert_all_sound(m: GraphModel, es: Seq<EntityData>, now: int)
    requires
        sound(m),
        upsert_all(m, es, now) is Ok,
    ensures
        sound(upsert_all(m, es, now)->Ok_0.0),
    decreases es.len(),
{
    if es.len() > 0 {
        let g = upsert_all(m, es.drop_last(), now)->Ok_0.0;
        lemma_upsert_all_sound(m, es.drop_last(), now);
        lemma_upsert_reads(g, es.last(), now, es.last().name);
    }
}

/// Every named entity of an upsert is read afterwards, with all the
/// observations it was given and, where no later entry has its name, with the
/// type it was given.
pub proof fn law_upserted_entities_are_read_back(
    m: GraphModel,
    entities: Vec<Entity>,
    now: int,
    g: GraphModel,
    result: ResultData,
    cs: Seq<ChangeData>,
    i: int,
)
    requires
        sound(m),
        applied(m, MutationRequest::UpsertEntities { entities }, now, g, result, cs),
        0 <= i < entities@.len(),
        entities_data(entities@)[i].name.len() > 0,
    ensures
        ({
            let es = entities_data(entities@);
            g.snapshot(es[i].name) matches Some(s) && {
                &&& last_of_its_name(es, i) ==> s.entity_type == es[i].entity_type
                &&& forall|b: Seq<char>| #[trigger]
                    es[i].observations.contains(b) ==> s.observations.contains(b)
            }
        }),
{
    let request = MutationRequest::UpsertEntities { entities };
    let names = affected(m, request);
    let h = executed(m, request, now)->Ok_0.0;
    let es = entities_data(entities@);
    lemma_upsert_all_reads(m, es, now, i);
    lemma_recounted_reads(h, captured(m, names), captured(h, names), cs, now, es[i].name);
}

// ---------------------------------------------------------------------------
// What reading shows of the rows
// ---------------------------------------------------------------------------

/// Every live entity is read under its name, as its row and the row of its type
/// say, and nothing is read that no live row says.
pub proof fn law_live_entities_are_read(m: GraphModel, i: int, n: Seq<char>)
    requires
        sound(m),
    ensures
        0 <= i < m.entities.len() && m.entities[i].flags == 0 ==> (m.snapshot(m.entities[i].name) matches Some(s) && {
            &&& s.entity_id == m.entities[i].id
            &&& s.name == m.entities[i].name
            &&& s.observations == m.entities[i].observations
            &&& exists|k: int|
                0 <= k < m.types.len() && (#[trigger] m.types[k]).id == m.entities[i].type_id && m.types[k].name
                    == s.entity_type
        }),
        m.snapshot(n) matches Some(s) ==> s.name == n && exists|k: int|
            0 <= k < m.entities.len() && (#[trigger] m.entities[k]).flags == 0 && m.entities[k].name == n
                && m.entities[k].id == s.entity_id,
{
    if 0 <= i < m.entities.len() && m.entities[i].flags == 0 {
        lemma_snapshot_at(m, i);
        let k = lemma_has_type(m, ENTITY_KIND as int, m.entities[i].type_id);
        assert(m.types[k].id == m.entities[i].type_id);
    }
    if m.snapshot(n) is Some {
        let k = lemma_snapshot_row(m, n);
        assert(m.entities[k].flags == 0);
    }
}

/// The relation is read at the entity that it begins at.
pub open spec fn relation_read(m: GraphModel, d: RelationData) -> bool {
    m.touching(m.relations, set![d.from]).contains(d)
}

/// Every relation row between two live entities is read, at both of them and in
/// the list of either, under their names and the name of its type. Whatever is
/// read at some names begins or ends at one of them and is what some row says.
pub proof fn law_relation_rows_are_read(
    m: GraphModel,
    k: int,
    f: int,
    t: int,
    y: int,
    names: Set<Seq<char>>,
    d: RelationData,
)
    requires
        sound(m),
        0 <= k < m.relations.len(),
        0 <= f < m.entities.len() && m.entities[f].id == m.relations[k].from_id,
        0 <= t < m.entities.len() && m.entities[t].id == m.relations[k].to_id,
        0 <= y < m.types.len() && m.types[y].id == m.relations[k].type_id,
    ensures
        ({
            let said = RelationData {
                from: m.entities[f].name,
                to: m.entities[t].name,
                relation_type: m.types[y].name,
            };
            &&& relation_read(m, said)
            &&& m.touching(m.relations, set![said.to]).contains(said)
            &&& m.relations_of(said.from).contains(said) && m.relations_of(said.to).contains(said)
            &&& names.contains(said.from) || names.contains(said.to) ==> m.touching(m.relations, names).contains(said)
        }),
        m.touching(m.relations, names).contains(d) ==> relation_read(m, d) && (names.contains(d.from) || names.contains(
            d.to,
        )) && m.snapshot(d.from) is Some && m.snapshot(d.to) is Some,
{
    let r = m.relations[k];
    assert(anchored(m, r));
    lemma_find_id(m.entities, f);
    lemma_find_id(m.entities, t);
    lemma_find_type_id(m.types, y);
    let said = label(m, r);
    lemma_where_holds(m, m.relations, any(), k);
    lemma_read_at_ends(m, said, set![said.from]);
    lemma_read_at_ends(m, said, set![said.to]);
    crate::types::lemma_sort_relations(m.touching(m.relations, set![said.from]));
    crate::types::lemma_sort_relations(m.touching(m.relations, set![said.to]));
    if names.contains(said.from) || names.contains(said.to) {
        lemma_read_at_ends(m, said, names);
    }
    if m.touching(m.relations, names).contains(d) {
        lemma_touching(m, m.relations, names);
        let x = lemma_where_source(m, m.relations, near(names), d);
        lemma_where_holds(m, m.relations, any(), x);
        lemma_read_at_ends(m, d, set![d.from]);
        lemma_ends_read(m, x);
    }
}

/// The relations of an entity are listed in order, each as often as it is stored.
pub proof fn law_relations_are_listed_in_order(m: GraphModel, name: Seq<char>)
    ensures
        m.relations_of(name).to_multiset() == m.touching(m.relations, set![name]).to_multiset(),
        crate::types::relations_sorted(m.relations_of(name)),
{
    crate::types::lemma_sort_relations(m.touching(m.relations, set![name]));
}

// ---------------------------------------------------------------------------
// What a request does to what is read
// ---------------------------------------------------------------------------

/// Creating an entity leaves the other names alone, and its own name is taken
/// afterwards.
proof fn lemma_create_other(m: GraphModel, e: EntityData, now: int, n: Seq<char>)
    requires
        sound(m),
    ensures
        n != e.name ==> m.create_entity(e, now).0.snapshot(n) == m.snapshot(n),
        e.name.len() > 0 ==> m.create_entity(e, now).0.snapshot(e.name) is Some,
        m.create_entity(e, now).1 <==> e.name.len() > 0 && m.snapshot(e.name) is None,
{
    let (h, made) = m.create_entity(e, now);
    lemma_create_reads(m, e, now, n);
    if made && n != e.name && h.snapshot(n) is Some {
        let i = lemma_snapshot_row(h, n);
        assert(i < m.entities.len());
        lemma_snapshot_at(m, i);
    }
}

/// The entity at `i` is the first of its name.
pub open spec fn first_of_its_name(es: Seq<EntityData>, i: int) -> bool {
    forall|j: int| 0 <= j < i ==> (#[trigger] es[j]).name != es[i].name
}

proof fn lemma_create_all_covers(m: GraphModel, es: Seq<EntityData>, now: int)
    requires
        sound(m),
    ensures
        ({
            let (h, made) = create_all(m, es, now);
            &&& sound(h)
            &&& forall|i: int| 0 <= i < es.len() && (#[trigger] es[i]).name.len() > 0 ==> h.snapshot(es[i].name) is Some
            &&& forall|i: int|
                0 <= i < es.len() && (#[trigger] es[i]).name.len() > 0 && m.snapshot(es[i].name) is None
                    && first_of_its_name(es, i) ==> made.contains(es[i])
            &&& forall|k: int|
                0 <= k < made.len() ==> m.snapshot((#[trigger] made[k]).name) is None && made[k].name.len() > 0
                    && es.contains(made[k])
            &&& forall|j: int, k: int|
                0 <= j < k < made.len() ==> (#[trigger] made[j]).name != (#[trigger] made[k]).name
            &&& forall|n: Seq<char>|
                (forall|i: int| 0 <= i < es.len() ==> (#[trigger] es[i]).name != n) ==> #[trigger] h.snapshot(n)
                    == m.snapshot(n)
            &&& forall|n: Seq<char>| m.snapshot(n) is Some ==> #[trigger] h.snapshot(n) == m.snapshot(n)
        }),
    decreases es.len(),
{
    if es.len() > 0 {
        let t = es.drop_last();
        let e = es.last();
        let (g, before) = create_all(m, t, now);
        let (h, new) = g.create_entity(e, now);
        let made = create_all(m, es, now).1;
        lemma_create_all_covers(m, t, now);
        lemma_create_other(g, e, now, e.name);
        lemma_create_reads(g, e, now, e.name);
        assert(es[es.len() - 1] == e);
        assert forall|i: int| 0 <= i < es.len() && (#[trigger] es[i]).name.len() > 0 implies h.snapshot(es[i].name)
            is Some by {
            if i < t.len() {
                assert(t[i] == es[i]);
                lemma_create_reads(g, e, now, es[i].name);
            }
        }
        assert forall|n: Seq<char>|
            (forall|i: int| 0 <= i < es.len() ==> (#[trigger] es[i]).name != n) implies #[trigger] h.snapshot(n)
            == m.snapshot(n) by {
            assert forall|i: int| 0 <= i < t.len() implies (#[trigger] t[i]).name != n by {
                assert(t[i] == es[i]);
            }
            lemma_create_other(g, e, now, n);
            assert(g.snapshot(n) == m.snapshot(n));
        }
        assert forall|n: Seq<char>| m.snapshot(n) is Some implies #[trigger] h.snapshot(n) == m.snapshot(n) by {
            assert(g.snapshot(n) == m.snapshot(n));
            lemma_create_reads(g, e, now, n);
        }
        assert(new ==> m.snapshot(e.name) is None) by {
            if m.snapshot(e.name) is Some {
                assert(g.snapshot(e.name) == m.snapshot(e.name));
            }
        }
        assert forall|i: int|
            0 <= i < es.len() && (#[trigger] es[i]).name.len() > 0 && m.snapshot(es[i].name) is None
                && first_of_its_name(es, i) implies made.contains(es[i]) by {
            if i < t.len() {
                assert(t[i] == es[i]);
                assert(first_of_its_name(t, i)) by {
                    assert forall|j: int| 0 <= j < i implies (#[trigger] t[j]).name != t[i].name by {
                        assert(t[j] == es[j]);
                    }
                }
                assert(before.contains(t[i]));
                assert(made[before.index_of(t[i])] == es[i]);
            } else {
                assert forall|j: int| 0 <= j < t.len() implies (#[trigger] t[j]).name != e.name by {
                    assert(t[j] == es[j]);
                }
                assert(g.snapshot(e.name) == m.snapshot(e.name));
                assert(made[before.len() as int] == e);
            }
        }
        assert forall|k: int| 0 <= k < made.len() implies m.snapshot((#[trigger] made[k]).name) is None
            && made[k].name.len() > 0 && es.contains(made[k]) by {
            if k < before.len() {
                assert(made[k] == before[k]);
                assert(es[t.index_of(before[k])] == before[k]);
            }
        }
        assert forall|j: int, k: int| 0 <= j < k < made.len() implies (#[trigger] made[j]).name != (
        #[trigger] made[k]).name by {
            assert(made[j] == before[j]);
            if k < before.len() {
                assert(made[k] == before[k]);
            } else {
                lemma_create_all_reads(m, t, now, e.name);
                assert(g.snapshot(before[j].name) is Some);
            }
        }
    }
}

/// Every entity that is asked for and has a name is there afterwards, whatever
/// else the request holds and whatever of it is refused. Where the name was free,
/// the first one that asks for it is created as it was given and reported. No
/// other is reported, no name is reported twice, and nothing else that is read
/// changes.
pub proof fn law_every_requested_entity_is_there(
    m: GraphModel,
    entities: Vec<Entity>,
    now: int,
    g: GraphModel,
    result: ResultData,
    cs: Seq<ChangeData>,
    i: int,
    n: Seq<char>,
    d: RelationData,
)
    requires
        sound(m),
        applied(m, MutationRequest::CreateEntities { entities }, now, g, result, cs),
    ensures
        ({
            let es = entities_data(entities@);
            &&& 0 <= i < es.len() && es[i].name.len() > 0 ==> g.snapshot(es[i].name) is Some
            &&& 0 <= i < es.len() && es[i].name.len() > 0 && m.snapshot(es[i].name) is None && first_of_its_name(es, i)
                ==> (g.snapshot(es[i].name) matches Some(s) && s.entity() == es[i]) && (result matches ResultData::Entities(
                made,
            ) && made.contains(es[i]))
            &&& result matches ResultData::Entities(made) && (forall|k: int|
                0 <= k < made.len() ==> m.snapshot((#[trigger] made[k]).name) is None && made[k].name.len() > 0
                    && es.contains(made[k])) && (forall|j: int, k: int|
                0 <= j < k < made.len() ==> (#[trigger] made[j]).name != (#[trigger] made[k]).name)
            &&& m.snapshot(n) is Some ==> g.snapshot(n) == m.snapshot(n)
            &&& (forall|k: int| 0 <= k < es.len() ==> (#[trigger] es[k]).name != n) ==> g.snapshot(n) == m.snapshot(n)
            &&& relation_read(g, d) <==> relation_read(m, d)
        }),
{
    let request = MutationRequest::CreateEntities { entities };
    let names = affected(m, request);
    let h = executed(m, request, now)->Ok_0.0;
    let (b, a) = (captured(m, names), captured(h, names));
    let es = entities_data(entities@);
    let made = create_all(m, es, now).1;
    lemma_create_all_covers(m, es, now);
    lemma_create_all_reads(m, es, now, n);
    lemma_recounted_reads(h, b, a, cs, now, n);
    lemma_create_all(m, es, now, entity_names(es));
    lemma_recounted_rows(h, b, a, cs, now);
    lemma_read_at_ends(g, d, set![d.from]);
    lemma_read_at_ends(m, d, set![d.from]);
    assert(h.snapshot(n) == h.snapshot(n));
    if 0 <= i < es.len() {
        lemma_recounted_reads(h, b, a, cs, now, es[i].name);
        if es[i].name.len() > 0 && m.snapshot(es[i].name) is None && first_of_its_name(es, i) {
            assert(made.contains(es[i]));
            let k = made.index_of(es[i]);
            assert(made[k] == es[i]);
        }
    }
}

/// Deleting entities takes those away and leaves the rest, relations included
/// where neither end is gone.
proof fn lemma_delete_all_exact(m: GraphModel, list: Seq<Seq<char>>)
    requires
        sound(m),
    ensures
        ({
            let h = m.delete_entities(list);
            &&& sound(h)
            &&& forall|n: Seq<char>| #[trigger] h.snapshot(n) == (if list.contains(n) {
                None
            } else {
                m.snapshot(n)
            })
            &&& forall|x: RelationData| #[trigger]
                all_rows(h).contains(x) <==> all_rows(m).contains(x) && !list.contains(x.from) && !list.contains(x.to)
        }),
    decreases list.len(),
{
    if list.len() > 0 {
        let t = list.drop_last();
        let g = m.delete_entities(t);
        let h = m.delete_entities(list);
        let name = list.last();
        lemma_delete_all_exact(m, t);
        lemma_delete_gone(g, name, name);
        assert(list[list.len() - 1] == name);
        assert forall|n: Seq<char>| list.contains(n) <==> t.contains(n) || n == name by {
            if list.contains(n) && n != name {
                assert(t[list.index_of(n)] == n);
            }
            if t.contains(n) {
                assert(list[t.index_of(n)] == n);
            }
        }
        assert forall|n: Seq<char>| #[trigger] h.snapshot(n) == (if list.contains(n) {
            None
        } else {
            m.snapshot(n)
        }) by {
            assert(list.contains(n) <==> t.contains(n) || n == name);
            lemma_delete_gone(g, name, n);
            assert(g.snapshot(n) == (if t.contains(n) {
                None
            } else {
                m.snapshot(n)
            }));
            if n != name {
                lemma_delete_reads(g, name, n);
            }
        }
        assert forall|x: RelationData| #[trigger] all_rows(h).contains(x) <==> all_rows(m).contains(x)
            && !list.contains(x.from) && !list.contains(x.to) by {
            assert(list.contains(x.from) <==> t.contains(x.from) || x.from == name);
            assert(list.contains(x.to) <==> t.contains(x.to) || x.to == name);
            assert(all_rows(g).contains(x) <==> all_rows(m).contains(x) && !t.contains(x.from) && !t.contains(x.to));
            lemma_delete_rows(g, name, x);
        }
    } else {
        assert(m.delete_entities(list) == m);
    }
}

/// The relations that remain once an entity is gone are those that it is no end
/// of.
proof fn lemma_delete_rows(m: GraphModel, name: Seq<char>, x: RelationData)
    requires
        sound(m),
    ensures
        all_rows(m.delete_entity(name)).contains(x) <==> all_rows(m).contains(x) && x.from != name && x.to != name,
{
    let h = m.delete_entity(name);
    if m.snapshot(name) is Some {
        let i = lemma_snapshot_row(m, name);
        let k = lemma_removed_sound(m, i);
        let q = except(at(name), any());
        lemma_relations_without(m, h, m.relations, i, any());
        if all_rows(h).contains(x) {
            let j = lemma_where_source(m, m.relations, q, x);
            lemma_where_holds(m, m.relations, any(), j);
        }
        if all_rows(m).contains(x) && x.from != name && x.to != name {
            let j = lemma_where_source(m, m.relations, any(), x);
            lemma_where_holds(m, m.relations, q, j);
        }
    } else if all_rows(m).contains(x) {
        let j = lemma_where_source(m, m.relations, any(), x);
        lemma_ends_read(m, j);
    }
}

/// Deleting entities takes away exactly those that were named, and the relations
/// that begin or end at one of them. Every other entity and relation is read as
/// before.
pub proof fn law_deleting_spares_the_rest(
    m: GraphModel,
    names: Vec<String>,
    now: int,
    g: GraphModel,
    result: ResultData,
    cs: Seq<ChangeData>,
    n: Seq<char>,
    d: RelationData,
)
    requires
        sound(m),
        applied(m, MutationRequest::DeleteEntities { names }, now, g, result, cs),
    ensures
        texts(names@).contains(n) ==> g.snapshot(n) is None,
        !texts(names@).contains(n) ==> g.snapshot(n) == m.snapshot(n),
        relation_read(g, d) <==> relation_read(m, d) && !texts(names@).contains(d.from) && !texts(names@).contains(d.to),
        result == ResultData::Unit,
{
    let request = MutationRequest::DeleteEntities { names };
    lemma_gone_after(m, request, now, g, result, cs, texts(names@).to_set(), n, d);
}

/// What is read after some names were deleted.
proof fn lemma_gone_after(
    m: GraphModel,
    request: MutationRequest,
    now: int,
    g: GraphModel,
    result: ResultData,
    cs: Seq<ChangeData>,
    gone: Set<Seq<char>>,
    n: Seq<char>,
    d: RelationData,
)
    requires
        sound(m),
        applied(m, request, now, g, result, cs),
        executed(m, request, now)->Ok_0.0 == m.delete_entities(listed(gone)),
        gone == requested_names(m, request),
    ensures
        gone.contains(n) ==> g.snapshot(n) is None,
        !gone.contains(n) ==> g.snapshot(n) == m.snapshot(n),
        relation_read(g, d) <==> relation_read(m, d) && !gone.contains(d.from) && !gone.contains(d.to),
{
    let around = affected(m, request);
    let h = executed(m, request, now)->Ok_0.0;
    let (b, a) = (captured(m, around), captured(h, around));
    lemma_affected_listable(m, request);
    lemma_listed(gone);
    let list = listed(gone);
    lemma_delete_all_exact(m, list);
    lemma_recounted_reads(h, b, a, cs, now, n);
    lemma_recounted_rows(h, b, a, cs, now);
    lemma_read_at_ends(g, d, set![d.from]);
    lemma_read_at_ends(m, d, set![d.from]);
    assert(list.contains(n) <==> gone.contains(n));
    assert(list.contains(d.from) <==> gone.contains(d.from));
    assert(list.contains(d.to) <==> gone.contains(d.to));
    assert(h.snapshot(n) == (if list.contains(n) {
        None
    } else {
        m.snapshot(n)
    }));
}

/// Purging an entity deletes it and everything that it defines, and nothing
/// else, and reports how many names those are.
pub proof fn law_a_purge_takes_what_is_defined(
    m: GraphModel,
    name: String,
    now: int,
    g: GraphModel,
    result: ResultData,
    cs: Seq<ChangeData>,
    n: Seq<char>,
    d: RelationData,
)
    requires
        sound(m),
        applied(m, MutationRequest::PurgeDefinedEntities { name }, now, g, result, cs),
    ensures
        n == name@ || relation_read(m, RelationData { from: name@, to: n, relation_type: "defines"@ }) ==> g.snapshot(n)
            is None,
        n != name@ && !relation_read(m, RelationData { from: name@, to: n, relation_type: "defines"@ })
            ==> g.snapshot(n) == m.snapshot(n),
        relation_read(g, d) ==> relation_read(m, d),
        relation_read(m, d) && g.snapshot(d.from) is Some && g.snapshot(d.to) is Some ==> relation_read(g, d),
        exists|list: Seq<Seq<char>>|
            {
                &&& #[trigger] ascending(list)
                &&& result == ResultData::Count(list.len() as int)
                &&& forall|t: Seq<char>| #[trigger]
                    list.contains(t) <==> t == name@ || relation_read(
                        m,
                        RelationData { from: name@, to: t, relation_type: "defines"@ },
                    )
            },
{
    let request = MutationRequest::PurgeDefinedEntities { name };
    let gone = crate::mutation::defined_names(m, name@);
    lemma_gone_after(m, request, now, g, result, cs, gone, n, d);
    lemma_gone_after(m, request, now, g, result, cs, gone, d.from, d);
    lemma_gone_after(m, request, now, g, result, cs, gone, d.to, d);
    lemma_affected_listable(m, request);
    lemma_listed(gone);
    let x = RelationData { from: name@, to: n, relation_type: "defines"@ };
    crate::types::lemma_sort_relations(m.touching(m.relations, set![name@]));
    assert(gone.contains(n) <==> n == name@ || relation_read(m, x));
    let list = listed(gone);
    assert(ascending(list));
    assert forall|t: Seq<char>| #[trigger] list.contains(t) <==> t == name@ || relation_read(
        m,
        RelationData { from: name@, to: t, relation_type: "defines"@ },
    ) by {
        let y = RelationData { from: name@, to: t, relation_type: "defines"@ };
        assert(gone.contains(t) <==> t == name@ || m.relations_of(name@).contains(y));
        assert(list.contains(t) <==> gone.contains(t));
    }
}

/// After a wipe nothing is read any more. Compacting changes nothing that is
/// read.
pub proof fn law_a_wipe_leaves_nothing(
    m: GraphModel,
    request: MutationRequest,
    now: int,
    g: GraphModel,
    result: ResultData,
    cs: Seq<ChangeData>,
    n: Seq<char>,
    d: RelationData,
)
    requires
        sound(m),
        applied(m, request, now, g, result, cs),
    ensures
        request is Wipe ==> g.snapshot(n) is None && !relation_read(g, d) && result == ResultData::Unit,
        request is Compact ==> g.snapshot(n) == m.snapshot(n) && (relation_read(g, d) <==> relation_read(m, d)) && result
            == ResultData::Unit,
{
    if request is Wipe {
        let gone = live_names(m.entities).to_set();
        lemma_gone_after(m, request, now, g, result, cs, gone, n, d);
        if m.snapshot(n) is Some {
            let i = lemma_snapshot_row(m, n);
            lemma_live_names(m.entities, i);
            assert(gone.contains(n));
        }
        if relation_read(m, d) {
            lemma_read_at_ends(m, d, set![d.from]);
            let j = lemma_where_source(m, m.relations, any(), d);
            lemma_ends_read(m, j);
            let i = lemma_snapshot_row(m, d.from);
            lemma_live_names(m.entities, i);
            assert(gone.contains(d.from));
        }
    }
    if request is Compact {
        let around = affected(m, request);
        let (b, a) = (captured(m, around), captured(m, around));
        lemma_recounted_reads(m, b, a, cs, now, n);
        lemma_recounted_rows(m, b, a, cs, now);
        lemma_read_at_ends(g, d, set![d.from]);
        lemma_read_at_ends(m, d, set![d.from]);
    }
}

/// A request to rename is refused exactly where nobody has the old name, or
/// somebody else has the new one. Otherwise every other entity is read as before,
/// and every relation with the new name in the place of the old.
pub proof fn law_renaming_spares_the_rest(
    m: GraphModel,
    old_name: String,
    new_name: String,
    now: int,
    g: GraphModel,
    result: ResultData,
    cs: Seq<ChangeData>,
    n: Seq<char>,
    d: RelationData,
)
    requires
        sound(m),
    ensures
        ({
            let request = MutationRequest::RenameEntity { old_name, new_name };
            &&& executed(m, request, now) is Ok <==> m.snapshot(old_name@) is Some && (old_name@ == new_name@
                || m.snapshot(new_name@) is None)
            &&& applied(m, request, now, g, result, cs) ==> {
                &&& n != old_name@ && n != new_name@ ==> g.snapshot(n) == m.snapshot(n)
                &&& g.snapshot(new_name@) matches Some(s) && result == ResultData::Entity(s.entity())
                &&& relation_read(g, d) <==> exists|x: RelationData| #[trigger]
                    relation_read(m, x) && redirect(x, old_name@, new_name@) == d
                &&& relation_read(m, d) && d.from == old_name@ ==> relation_read(
                    g,
                    RelationData {
                        from: new_name@,
                        to: if d.to == old_name@ {
                            new_name@
                        } else {
                            d.to
                        },
                        relation_type: d.relation_type,
                    },
                )
                &&& relation_read(m, d) && d.from != old_name@ && d.to == old_name@ ==> relation_read(
                    g,
                    RelationData { to: new_name@, ..d },
                )
                &&& relation_read(m, d) && d.from != old_name@ && d.to != old_name@ ==> relation_read(g, d)
            }
        }),
{
    let request = MutationRequest::RenameEntity { old_name, new_name };
    let (from, to) = (old_name@, new_name@);
    if m.snapshot(from) is Some {
        let i = lemma_snapshot_row(m, from);
        let h = if from == to {
            m
        } else {
            m.rename(m.entities[i].id, to)
        };
        if from == to || m.snapshot(to) is None {
            if from != to {
                lemma_renamed_sound(m, i, to);
                assert(h.entities[i] == EntityModel { name: to, ..m.entities[i] });
                lemma_snapshot_at(h, i);
            }
            if applied(m, request, now, g, result, cs) {
                let names = affected(m, request);
                let (b, a) = (captured(m, names), captured(h, names));
                lemma_recounted_reads(h, b, a, cs, now, n);
                lemma_recounted_reads(h, b, a, cs, now, to);
                lemma_recounted_rows(h, b, a, cs, now);
                if from != to && n != from && n != to {
                    if m.snapshot(n) is Some {
                        let k = lemma_snapshot_row(m, n);
                        assert(h.entities[k] == m.entities[k]);
                        lemma_snapshot_at(h, k);
                    } else if h.snapshot(n) is Some {
                        let k = lemma_snapshot_row(h, n);
                        assert(h.entities[k] == m.entities[k]);
                        lemma_snapshot_at(m, k);
                    }
                }
                lemma_renamed_rows(m, h, i, from, to, d);
                lemma_read_at_ends(g, d, set![d.from]);
                assert(all_rows(g) == all_rows(h));
                if relation_read(m, d) {
                    let e = redirect(d, from, to);
                    lemma_renamed_rows(m, h, i, from, to, e);
                    lemma_read_at_ends(g, e, set![e.from]);
                    assert(e =~= RelationData { from: e.from, to: e.to, relation_type: d.relation_type });
                    assert(relation_read(g, e));
                }
            }
        }
    }
}

proof fn lemma_renamed_rows(m: GraphModel, h: GraphModel, i: int, from: Seq<char>, to: Seq<char>, d: RelationData)
    requires
        sound(m),
        sound(h),
        0 <= i < m.entities.len(),
        m.entities[i].flags == 0 && m.entities[i].name == from,
        if from == to {
            h == m
        } else {
            m.snapshot(to) is None && h == m.rename(m.entities[i].id, to)
        },
    ensures
        all_rows(h).contains(d) <==> exists|x: RelationData| #[trigger] relation_read(m, x) && redirect(x, from, to) == d,
{
    if from != to {
        lemma_renamed_sound(m, i, to);
    }
    assert(h.relations == m.relations);
    assert forall|k: int| 0 <= k < m.relations.len() implies label(h, #[trigger] m.relations[k]) == redirect(
        label(m, m.relations[k]),
        from,
        to,
    ) by {
        assert(anchored(m, m.relations[k]));
        if from == to {
            assert(redirect(label(m, m.relations[k]), from, to) =~= label(m, m.relations[k]));
        }
    }
    if all_rows(h).contains(d) {
        let k = lemma_where_source(h, h.relations, any(), d);
        let x = label(m, m.relations[k]);
        lemma_where_holds(m, m.relations, any(), k);
        lemma_read_at_ends(m, x, set![x.from]);
        assert(relation_read(m, x));
    }
    if exists|x: RelationData| #[trigger] relation_read(m, x) && redirect(x, from, to) == d {
        let x = choose|x: RelationData| #[trigger] relation_read(m, x) && redirect(x, from, to) == d;
        lemma_read_at_ends(m, x, set![x.from]);
        let k = lemma_where_source(m, m.relations, any(), x);
        assert(label(m, m.relations[k]) == x);
        lemma_where_holds(h, h.relations, any(), k);
    }
}

/// Creating a relation stores it where both ends are there, and nothing else. It
/// is reported where it was not stored before.
proof fn lemma_relate_rows(m: GraphModel, d: RelationData, now: int, x: RelationData)
    requires
        sound(m),
    ensures
        ({
            let (h, made) = m.create_relation(d, now);
            let both_there = m.snapshot(d.from) is Some && m.snapshot(d.to) is Some;
            &&& all_rows(h).contains(x) <==> all_rows(m).contains(x) || x == d && both_there
            &&& made <==> both_there && !all_rows(m).contains(d)
        }),
{
    let (h, made) = m.create_relation(d, now);
    lemma_relate_reads(m, d, now, d.from);
    lemma_create_relation(m, d, now, set![d.from, d.to]);
    match (m.snapshot(d.from), m.snapshot(d.to)) {
        (Some(f), Some(g)) => {
            let kind = RELATION_KIND as int;
            let t = m.with_type(kind, d.relation_type);
            let id = m.type_id(kind, d.relation_type);
            lemma_with_type(m, kind, d.relation_type, Set::empty());
            let i = lemma_snapshot_row(m, d.from);
            let j = lemma_snapshot_row(m, d.to);
            let r = RelationModel { from_id: f.entity_id, to_id: g.entity_id, type_id: id, created_us: now };
            assert(t.entities[i].id == r.from_id && t.entities[j].id == r.to_id);
            lemma_find_id(t.entities, i);
            lemma_find_id(t.entities, j);
            assert(anchored(t, r));
            assert(label(t, r) == d);
            if joined(m.relations, f.entity_id, g.entity_id, id) {
                let k = choose|k: int|
                    0 <= k < m.relations.len() && joins(#[trigger] m.relations[k], f.entity_id, g.entity_id, id);
                assert(label(t, t.relations[k]) == label(t, r));
                lemma_where_holds(t, t.relations, any(), k);
            } else if all_rows(m).contains(d) {
                lemma_said_is_joined(t, r);
            }
        },
        _ => {
            if all_rows(m).contains(x) && x == d {
                let k = lemma_where_source(m, m.relations, any(), d);
                lemma_ends_read(m, k);
            }
        },
    }
}

proof fn lemma_relate_all_rows(m: GraphModel, ds: Seq<RelationData>, now: int, x: RelationData)
    requires
        sound(m),
    ensures
        ({
            let (h, made) = relate_all(m, ds, now);
            let both_there = m.snapshot(x.from) is Some && m.snapshot(x.to) is Some;
            &&& sound(h)
            &&& all_rows(h).contains(x) <==> all_rows(m).contains(x) || ds.contains(x) && both_there
            &&& made.contains(x) <==> ds.contains(x) && both_there && !all_rows(m).contains(x)
            &&& made.no_duplicates()
        }),
    decreases ds.len(),
{
    if ds.len() > 0 {
        let t = ds.drop_last();
        let d = ds.last();
        let (g, before) = relate_all(m, t, now);
        let (h, made) = relate_all(m, ds, now);
        lemma_relate_all_rows(m, t, now, x);
        lemma_relate_all_rows(m, t, now, d);
        lemma_relate_rows(g, d, now, x);
        lemma_relate_rows(g, d, now, d);
        lemma_relate_all_reads(m, t, now, d.from);
        lemma_relate_all_reads(m, t, now, d.to);
        lemma_relate_reads(g, d, now, d.from);
        assert(ds[ds.len() - 1] == d);
        assert(ds.contains(x) <==> t.contains(x) || x == d) by {
            if ds.contains(x) && x != d {
                assert(t[ds.index_of(x)] == x);
            }
            if t.contains(x) {
                assert(ds[t.index_of(x)] == x);
            }
        }
        if g.create_relation(d, now).1 {
            assert(made[before.len() as int] == d);
            assert(made.contains(x) <==> before.contains(x) || x == d) by {
                if made.contains(x) && x != d {
                    assert(before[made.index_of(x)] == x);
                }
                if before.contains(x) {
                    assert(made[before.index_of(x)] == x);
                }
            }
            assert(!before.contains(d));
        }
    }
}

/// A request for relations adds exactly those whose two ends are there, and
/// reports exactly those among them that were not read before, each once.
pub proof fn law_requested_relations_are_added(
    m: GraphModel,
    relations: Vec<Relation>,
    now: int,
    g: GraphModel,
    result: ResultData,
    cs: Seq<ChangeData>,
    d: RelationData,
)
    requires
        sound(m),
        applied(m, MutationRequest::CreateRelations { relations }, now, g, result, cs),
    ensures
        ({
            let asked = relations_data(relations@).contains(d) && m.snapshot(d.from) is Some && m.snapshot(d.to) is Some;
            &&& relation_read(g, d) <==> relation_read(m, d) || asked
            &&& result matches ResultData::Relations(made) && made.no_duplicates() && (made.contains(d) <==> asked
                && !relation_read(m, d))
        }),
{
    let request = MutationRequest::CreateRelations { relations };
    let names = affected(m, request);
    let h = executed(m, request, now)->Ok_0.0;
    let (b, a) = (captured(m, names), captured(h, names));
    lemma_relate_all_rows(m, relations_data(relations@), now, d);
    lemma_recounted_sound(h, b, a, cs, now);
    lemma_recounted_rows(h, b, a, cs, now);
    lemma_read_at_ends(g, d, set![d.from]);
    lemma_read_at_ends(m, d, set![d.from]);
}

/// A merge is refused exactly where one of the two is missing. It spares the
/// rest: other entities are read as before, and so is every relation that the
/// source is no end of. No relation appears but those of the source, with the
/// target in its place. What is reported is what the target is then.
pub proof fn law_a_merge_spares_the_rest(
    m: GraphModel,
    source: String,
    target: String,
    now: int,
    g: GraphModel,
    result: ResultData,
    cs: Seq<ChangeData>,
    n: Seq<char>,
    d: RelationData,
)
    requires
        sound(m),
    ensures
        ({
            let request = MutationRequest::MergeEntities { source, target };
            &&& executed(m, request, now) is Ok <==> m.snapshot(source@) is Some && m.snapshot(target@) is Some
            &&& source@ != target@ && applied(m, request, now, g, result, cs) ==> {
                &&& n != source@ && n != target@ ==> g.snapshot(n) == m.snapshot(n)
                &&& g.snapshot(target@) matches Some(s) && result == ResultData::Entity(s.entity())
                &&& relation_read(m, d) && d.from != source@ && d.to != source@ ==> relation_read(g, d)
                &&& relation_read(g, d) ==> d.from != source@ && d.to != source@ && (relation_read(m, d) || exists|
                    x: RelationData,
                | #[trigger]
                    relation_read(m, x) && (x.from == source@ || x.to == source@) && redirect(x, source@, target@) == d)
            }
            &&& source@ == target@ && applied(m, request, now, g, result, cs) ==> g.snapshot(n) == m.snapshot(n) && (
            relation_read(g, d) <==> relation_read(m, d))
        }),
{
    let request = MutationRequest::MergeEntities { source, target };
    let (from, to) = (source@, target@);
    match (m.snapshot(from), m.snapshot(to)) {
        (Some(old), Some(into)) => {
            if from != to {
                let h = m.insert_observations(into.entity_id, old.observations);
                let i = lemma_snapshot_row(m, to);
                lemma_insert_observations(m, to, old.observations, set![to]);
                let f = |r: EntityModel| observing(r, old.observations);
                lemma_rewrite_reads(m, i, f, n);
                lemma_rewrite_reads(m, i, f, to);
                lemma_rewrite_reads(m, i, f, from);
                let rows = h.relations_of(from);
                let ds = redirect_all(rows, from, to);
                let y = relate_all(h, ds, now).0;
                let x = y.delete_entity(from);
                lemma_relate_all_reads(h, ds, now, n);
                lemma_relate_all_reads(h, ds, now, to);
                lemma_delete_reads(y, from, to);
                lemma_delete_gone(y, from, n);
                if n != from {
                    lemma_delete_reads(y, from, n);
                }
                if applied(m, request, now, g, result, cs) {
                    let names = affected(m, request);
                    let (b, a) = (captured(m, names), captured(x, names));
                    lemma_recounted_reads(x, b, a, cs, now, n);
                    lemma_recounted_reads(x, b, a, cs, now, to);
                    lemma_recounted_rows(x, b, a, cs, now);
                    lemma_read_at_ends(g, d, set![d.from]);
                    lemma_read_at_ends(m, d, set![d.from]);
                    lemma_delete_rows(y, from, d);
                    lemma_relate_all_rows(h, ds, now, d);
                    assert(all_rows(h) == all_rows(m));
                    if relation_read(g, d) && !relation_read(m, d) {
                        assert(ds.contains(d));
                        let k = ds.index_of(d);
                        let z = rows[k];
                        crate::types::lemma_sort_relations(h.touching(h.relations, set![from]));
                        assert(rows.contains(z));
                        lemma_touching(h, h.relations, set![from]);
                        let j = lemma_where_source(h, h.relations, near(set![from]), z);
                        lemma_where_holds(h, h.relations, any(), j);
                        lemma_read_at_ends(m, z, set![z.from]);
                        assert(relation_read(m, z));
                        assert(redirect(z, from, to) == d);
                    }
                }
            } else if applied(m, request, now, g, result, cs) {
                let names = affected(m, request);
                let (b, a) = (captured(m, names), captured(m, names));
                lemma_recounted_reads(m, b, a, cs, now, n);
                lemma_recounted_rows(m, b, a, cs, now);
                lemma_read_at_ends(g, d, set![d.from]);
                lemma_read_at_ends(m, d, set![d.from]);
            }
        },
        _ => {},
    }
}

/// A merge moves every relation of the source to the target, whichever end the
/// source is, and one between source and target or source and itself too.
pub proof fn law_a_merge_moves_either_end(
    m: GraphModel,
    source: String,
    target: String,
    now: int,
    g: GraphModel,
    result: ResultData,
    cs: Seq<ChangeData>,
    other: Seq<char>,
    kind: Seq<char>,
)
    requires
        sound(m),
        source@ != target@,
        other != source@,
        applied(m, MutationRequest::MergeEntities { source, target }, now, g, result, cs),
    ensures
        relation_read(m, RelationData { from: source@, to: other, relation_type: kind }) ==> relation_read(
            g,
            RelationData { from: target@, to: other, relation_type: kind },
        ),
        relation_read(m, RelationData { from: other, to: source@, relation_type: kind }) ==> relation_read(
            g,
            RelationData { from: other, to: target@, relation_type: kind },
        ),
        relation_read(m, RelationData { from: source@, to: source@, relation_type: kind }) ==> relation_read(
            g,
            RelationData { from: target@, to: target@, relation_type: kind },
        ),
{
    let (from, to) = (source@, target@);
    let a = RelationData { from, to: other, relation_type: kind };
    let b = RelationData { from: other, to: from, relation_type: kind };
    let c = RelationData { from, to: from, relation_type: kind };
    let request = MutationRequest::MergeEntities { source, target };
    law_a_sound_graph_stays_sound(m, request, now, g, result, cs);
    law_a_merge_moves_everything(m, source, target, now, g, result, cs, a);
    law_a_merge_moves_everything(m, source, target, now, g, result, cs, b);
    law_a_merge_moves_everything(m, source, target, now, g, result, cs, c);
    let (x, y, z) = (
        RelationData { from: to, to: other, relation_type: kind },
        RelationData { from: other, to, relation_type: kind },
        RelationData { from: to, to, relation_type: kind },
    );
    assert(redirect(a, from, to) =~= x);
    assert(redirect(b, from, to) =~= y);
    assert(redirect(c, from, to) =~= z);
    lemma_read_at_ends(m, b, set![b.from]);
    lemma_read_at_ends(m, b, set![from]);
    lemma_read_at_ends(g, y, set![y.from]);
    lemma_read_at_ends(g, y, set![to]);
}

/// Those of a list that are not seen yet are each of them once, in the order in
/// which they first occur.
proof fn lemma_novel_exact(seen: Seq<Seq<char>>, list: Seq<Seq<char>>, b: Seq<char>)
    ensures
        novel(seen, list).contains(b) <==> list.contains(b) && !seen.contains(b),
        novel(seen, list).no_duplicates(),
    decreases list.len(),
{
    if list.len() > 0 {
        let t = list.drop_last();
        let (u, v) = (novel(seen, t), novel(seen, list));
        lemma_novel_exact(seen, t, b);
        lemma_novel_exact(seen, t, list.last());
        assert(list[list.len() - 1] == list.last());
        assert(list.contains(b) <==> t.contains(b) || b == list.last()) by {
            if list.contains(b) && b != list.last() {
                assert(t[list.index_of(b)] == b);
            }
            if t.contains(b) {
                assert(list[t.index_of(b)] == b);
            }
        }
        if v.len() > u.len() {
            assert(v[u.len() as int] == list.last());
            assert(v.contains(b) <==> u.contains(b) || b == list.last()) by {
                if v.contains(b) && b != list.last() {
                    assert(u[v.index_of(b)] == b);
                }
                if u.contains(b) {
                    assert(v[u.index_of(b)] == b);
                }
            }
        }
    }
}

/// What one upsert does to a name: others stay as they are, and the one it is
/// about keeps its identifier and its observations, and gains those it had not.
proof fn lemma_upsert_exact(m: GraphModel, e: EntityData, now: int, n: Seq<char>)
    requires
        sound(m),
    ensures
        upsert_one(m, e, now) is Ok,
        ({
            let (h, told) = upsert_one(m, e, now)->Ok_0;
            &&& sound(h)
            &&& n != e.name ==> h.snapshot(n) == m.snapshot(n)
            &&& all_rows(h) == all_rows(m)
            &&& m.snapshot(e.name) matches Some(x) ==> (h.snapshot(e.name) matches Some(s) && {
                &&& s.entity_id == x.entity_id && s.name == x.name && s.entity_type == e.entity_type
                &&& x.observations.is_prefix_of(s.observations)
                &&& s.observations == x.observations + novel(x.observations, e.observations)
                &&& told == Some(s.entity())
            })
            &&& m.snapshot(e.name) is None && e.name.len() > 0 ==> (h.snapshot(e.name) matches Some(s) && s.entity()
                == e && told == Some(e))
            &&& m.snapshot(e.name) is None && e.name.len() == 0 ==> h.snapshot(e.name) is None && told is None
        }),
{
    match m.snapshot(e.name) {
        Some(x) => {
            let g = if x.entity_type != e.entity_type {
                m.retype(x.entity_id, e.entity_type)
            } else {
                m
            };
            if x.entity_type != e.entity_type {
                lemma_retype_reads(m, e.name, e.entity_type, n);
                lemma_retype(m, e.name, e.entity_type, set![e.name]);
            }
            let more = novel(x.observations, e.observations);
            let i = lemma_snapshot_row(g, e.name);
            let f = |r: EntityModel| observing(r, more);
            lemma_snapshot_at(g, i);
            lemma_rewrite_reads(g, i, f, n);
            lemma_rewrite_reads(g, i, f, e.name);
            lemma_insert_observations(g, e.name, more, set![e.name]);
            let h = g.insert_observations(x.entity_id, more);
            let s = h.snapshot(e.name)->0;
            assert(s.observations == x.observations + more);
            assert(x.observations =~= s.observations.subrange(0, x.observations.len() as int));
        },
        None => {
            lemma_create_other(m, e, now, n);
            lemma_create_reads(m, e, now, n);
            lemma_create_entity(m, e, now, set![e.name]);
        },
    }
}

proof fn lemma_upsert_all_exact(m: GraphModel, es: Seq<EntityData>, now: int, n: Seq<char>)
    requires
        sound(m),
    ensures
        upsert_all(m, es, now) is Ok,
        ({
            let (h, list) = upsert_all(m, es, now)->Ok_0;
            &&& sound(h)
            &&& all_rows(h) == all_rows(m)
            &&& (forall|i: int| 0 <= i < es.len() ==> (#[trigger] es[i]).name != n) ==> h.snapshot(n) == m.snapshot(n)
            &&& m.snapshot(n) matches Some(x) ==> (h.snapshot(n) matches Some(s) && s.entity_id == x.entity_id && s.name
                == x.name && x.observations.is_prefix_of(s.observations))
            &&& h.snapshot(n) matches Some(s) ==> m.snapshot(n) is Some || n.len() > 0
            &&& h.snapshot(n) is Some && (exists|i: int| 0 <= i < es.len() && (#[trigger] es[i]).name == n)
                ==> list.contains(h.snapshot(n)->0.entity())
            &&& forall|k: int|
                0 <= k < list.len() ==> exists|i: int|
                    0 <= i < es.len() && (#[trigger] es[i]).name == (#[trigger] list[k]).name
            &&& (forall|i: int| 0 <= i < es.len() ==> (#[trigger] es[i]).name.len() > 0) ==> list.len() == es.len()
                && forall|k: int| 0 <= k < es.len() ==> (#[trigger] list[k]).name == es[k].name
        }),
    decreases es.len(),
{
    if es.len() == 0 {
        if m.snapshot(n) is Some {
            let x = m.snapshot(n)->0;
            assert(x.observations =~= x.observations.subrange(0, x.observations.len() as int));
        }
    } else {
        let t = es.drop_last();
        let e = es.last();
        lemma_upsert_all_exact(m, t, now, n);
        let (g, before) = upsert_all(m, t, now)->Ok_0;
        lemma_upsert_exact(g, e, now, n);
        let (h, list) = upsert_all(m, es, now)->Ok_0;
        assert(es[es.len() - 1] == e);
        if forall|i: int| 0 <= i < es.len() ==> (#[trigger] es[i]).name != n {
            assert forall|i: int| 0 <= i < t.len() implies (#[trigger] t[i]).name != n by {
                assert(t[i] == es[i]);
            }
        }
        if m.snapshot(n) is Some {
            let (x, y, z) = (m.snapshot(n)->0, g.snapshot(n)->0, h.snapshot(n)->0);
            assert(x.observations =~= z.observations.subrange(0, x.observations.len() as int)) by {
                assert(x.observations == y.observations.subrange(0, x.observations.len() as int));
                assert(y.observations == z.observations.subrange(0, y.observations.len() as int) || y == z);
                assert forall|k: int| 0 <= k < x.observations.len() implies x.observations[k] == z.observations[k] by {
                    assert(x.observations[k] == y.observations.subrange(0, x.observations.len() as int)[k]);
                    if y != z {
                        assert(y.observations[k] == z.observations.subrange(0, y.observations.len() as int)[k]);
                    }
                }
            }
        }
        if h.snapshot(n) is Some && exists|i: int| 0 <= i < es.len() && (#[trigger] es[i]).name == n {
            if n == e.name {
                assert(list[before.len() as int] == h.snapshot(n)->0.entity());
            } else {
                let i = choose|i: int| 0 <= i < es.len() && (#[trigger] es[i]).name == n;
                assert(t[i].name == n);
                let k = before.index_of(g.snapshot(n)->0.entity());
                assert(list[k] == before[k]);
            }
        }
        assert forall|k: int| 0 <= k < list.len() implies exists|i: int|
            0 <= i < es.len() && (#[trigger] es[i]).name == (#[trigger] list[k]).name by {
            if k < before.len() {
                assert(list[k] == before[k]);
                let i = choose|i: int| 0 <= i < t.len() && (#[trigger] t[i]).name == before[k].name;
                assert(es[i] == t[i]);
            } else {
                lemma_told_name(g, e, now);
                assert(es[es.len() - 1].name == list[k].name);
            }
        }
        if forall|i: int| 0 <= i < es.len() ==> (#[trigger] es[i]).name.len() > 0 {
            assert forall|i: int| 0 <= i < t.len() implies (#[trigger] t[i]).name.len() > 0 by {
                assert(t[i] == es[i]);
            }
            lemma_told_name(g, e, now);
            assert(list.len() == before.len() + 1);
            assert forall|k: int| 0 <= k < es.len() implies (#[trigger] list[k]).name == es[k].name by {
                if k < before.len() {
                    assert(list[k] == before[k]);
                    assert(t[k] == es[k]);
                }
            }
        }
    }
}

/// What an upsert reports has the name that it was asked for.
proof fn lemma_told_name(m: GraphModel, e: EntityData, now: int)
    requires
        sound(m),
    ensures
        upsert_one(m, e, now)->Ok_0.1 matches Some(x) ==> x.name == e.name,
        e.name.len() > 0 ==> upsert_one(m, e, now)->Ok_0.1 is Some,
{
    lemma_upsert_exact(m, e, now, e.name);
    if m.snapshot(e.name) is Some {
        let i = lemma_snapshot_row(m, e.name);
    }
}

/// An upsert never fails. It spares what it does not speak of: other entities and
/// all relations are read as before. An entity that was there keeps its
/// identifier and every observation, in front of those that it gains. What is
/// reported of a name, at the end of the request, is what is then read of it; one
/// report stands for each entry.
pub proof fn law_an_upsert_adds_and_spares(
    m: GraphModel,
    entities: Vec<Entity>,
    now: int,
    g: GraphModel,
    result: ResultData,
    cs: Seq<ChangeData>,
    n: Seq<char>,
    d: RelationData,
)
    requires
        sound(m),
    ensures
        ({
            let request = MutationRequest::UpsertEntities { entities };
            let es = entities_data(entities@);
            &&& executed(m, request, now) is Ok
            &&& applied(m, request, now, g, result, cs) ==> {
                &&& relation_read(g, d) <==> relation_read(m, d)
                &&& (forall|i: int| 0 <= i < es.len() ==> (#[trigger] es[i]).name != n) ==> g.snapshot(n) == m.snapshot(n)
                &&& m.snapshot(n) matches Some(x) ==> (g.snapshot(n) matches Some(s) && s.entity_id == x.entity_id
                    && s.name == n && x.observations.is_prefix_of(s.observations))
                &&& result matches ResultData::Entities(list) && {
                    &&& g.snapshot(n) is Some && (exists|i: int| 0 <= i < es.len() && (#[trigger] es[i]).name == n)
                        ==> list.contains(g.snapshot(n)->0.entity())
                    &&& (forall|i: int| 0 <= i < es.len() ==> (#[trigger] es[i]).name.len() > 0) ==> list.len()
                        == es.len() && forall|k: int| 0 <= k < es.len() ==> (#[trigger] list[k]).name == es[k].name
                }
            }
        }),
{
    let request = MutationRequest::UpsertEntities { entities };
    let es = entities_data(entities@);
    lemma_upsert_all_exact(m, es, now, n);
    if m.snapshot(n) is Some {
        let i = lemma_snapshot_row(m, n);
    }
    if applied(m, request, now, g, result, cs) {
        let names = affected(m, request);
        let h = executed(m, request, now)->Ok_0.0;
        let (b, a) = (captured(m, names), captured(h, names));
        lemma_recounted_reads(h, b, a, cs, now, n);
        lemma_recounted_rows(h, b, a, cs, now);
        lemma_read_at_ends(g, d, set![d.from]);
        lemma_read_at_ends(m, d, set![d.from]);
    }
}

/// One entry of an upsert, alone, gives the entity the type, and exactly the
/// observations that it had and those that were given, none of the latter twice.
pub proof fn law_one_upsert_gives_type_and_observations(m: GraphModel, e: EntityData, now: int, b: Seq<char>)
    requires
        sound(m),
        e.name.len() > 0,
    ensures
        upsert_one(m, e, now) matches Ok((h, told)) && h.snapshot(e.name) matches Some(s) && {
            &&& s.entity_type == e.entity_type
            &&& told == Some(s.entity())
            &&& m.snapshot(e.name) is None ==> s.observations == e.observations
            &&& m.snapshot(e.name) matches Some(x) ==> {
                &&& s.observations.contains(b) <==> x.observations.contains(b) || e.observations.contains(b)
                &&& x.observations.no_duplicates() ==> s.observations.no_duplicates()
            }
        },
{
    lemma_upsert_exact(m, e, now, e.name);
    let h = upsert_one(m, e, now)->Ok_0.0;
    if m.snapshot(e.name) is Some {
        let x = m.snapshot(e.name)->0.observations;
        let more = novel(x, e.observations);
        let all = h.snapshot(e.name)->0.observations;
        lemma_novel_exact(x, e.observations, b);
        assert(all == x + more);
        if all.contains(b) {
            let k = all.index_of(b);
            if k < x.len() {
                assert(x[k] == b);
            } else {
                assert(more[k - x.len()] == b);
            }
        }
        if x.contains(b) {
            assert(all[x.index_of(b)] == b);
        }
        if more.contains(b) {
            assert(all[x.len() + more.index_of(b)] == b);
        }
        if x.no_duplicates() {
            assert forall|i: int, j: int| 0 <= i < all.len() && 0 <= j < all.len() && i != j implies all[i] != all[j] by {
                if i < x.len() && j >= x.len() {
                    lemma_novel_exact(x, e.observations, all[j]);
                    assert(more[j - x.len()] == all[j]);
                    assert(x[i] == all[i]);
                } else if j < x.len() && i >= x.len() {
                    lemma_novel_exact(x, e.observations, all[i]);
                    assert(more[i - x.len()] == all[i]);
                    assert(x[j] == all[j]);
                } else if i >= x.len() {
                    assert(more[i - x.len()] != more[j - x.len()]);
                }
            }
        }
    }
}

/// Observations are added exactly where every entity that is named is there, and
/// what is reported is what was asked for. Observations are taken away where
/// every entity of which something is to be forgotten is there. Relations are not
/// touched by either.
pub proof fn law_observations_need_their_entities(
    m: GraphModel,
    observations: Vec<ObservationUpdate>,
    now: int,
    g: GraphModel,
    result: ResultData,
    cs: Seq<ChangeData>,
    d: RelationData,
)
    requires
        sound(m),
    ensures
        ({
            let us = updates_data(observations@);
            let more = MutationRequest::AddObservations { observations };
            let less = MutationRequest::DeleteObservations { observations };
            &&& executed(m, more, now) is Ok <==> forall|i: int|
                0 <= i < us.len() ==> m.snapshot((#[trigger] us[i]).entity_name) is Some
            &&& executed(m, less, now) is Ok <==> forall|i: int|
                0 <= i < us.len() && (#[trigger] us[i]).contents.len() > 0 ==> m.snapshot(us[i].entity_name) is Some
            &&& applied(m, more, now, g, result, cs) ==> result == ResultData::Observations(us) && (relation_read(g, d)
                <==> relation_read(m, d))
            &&& applied(m, less, now, g, result, cs) ==> result == ResultData::Unit && (relation_read(g, d)
                <==> relation_read(m, d))
        }),
{
    let us = updates_data(observations@);
    let more = MutationRequest::AddObservations { observations };
    let less = MutationRequest::DeleteObservations { observations };
    lemma_observe_owed(m, us);
    lemma_forget_owed(m, us);
    if applied(m, more, now, g, result, cs) {
        let names = affected(m, more);
        let h = executed(m, more, now)->Ok_0.0;
        lemma_observe_all(m, us, update_names(us));
        lemma_observe_all_reads(m, us, d.from);
        lemma_recounted_sound(h, captured(m, names), captured(h, names), cs, now);
        lemma_recounted_rows(h, captured(m, names), captured(h, names), cs, now);
        lemma_read_at_ends(g, d, set![d.from]);
        lemma_read_at_ends(m, d, set![d.from]);
    }
    if applied(m, less, now, g, result, cs) {
        let names = affected(m, less);
        let h = executed(m, less, now)->Ok_0.0;
        lemma_forget_all(m, us, update_names(us));
        lemma_forget_all_reads(m, us, d.from, d.from);
        lemma_recounted_sound(h, captured(m, names), captured(h, names), cs, now);
        lemma_recounted_rows(h, captured(m, names), captured(h, names), cs, now);
        lemma_read_at_ends(g, d, set![d.from]);
        lemma_read_at_ends(m, d, set![d.from]);
    }
}

proof fn lemma_observe_owed(m: GraphModel, us: Seq<ObservationData>)
    requires
        sound(m),
    ensures
        observe_all(m, us) is Ok <==> forall|i: int|
            0 <= i < us.len() ==> m.snapshot((#[trigger] us[i]).entity_name) is Some,
        observe_all(m, us) matches Ok((_, list)) ==> list == us,
    decreases us.len(),
{
    if us.len() > 0 {
        let t = us.drop_last();
        let u = us.last();
        lemma_observe_owed(m, t);
        assert(us[us.len() - 1] == u);
        if observe_all(m, t) is Ok {
            lemma_observe_all_reads(m, t, u.entity_name);
            assert(t.push(u) =~= us);
            if m.snapshot(u.entity_name) is Some {
                assert forall|i: int| 0 <= i < us.len() implies m.snapshot((#[trigger] us[i]).entity_name) is Some by {
                    if i < t.len() {
                        assert(t[i] == us[i]);
                    }
                }
            }
        } else {
            let i = choose|i: int| 0 <= i < t.len() && m.snapshot((#[trigger] t[i]).entity_name) is None;
            assert(us[i] == t[i]);
        }
    } else {
        assert(observe_all(m, us)->Ok_0.1 =~= us);
    }
}

proof fn lemma_forget_owed(m: GraphModel, us: Seq<ObservationData>)
    requires
        sound(m),
    ensures
        forget_all(m, us) is Ok <==> forall|i: int|
            0 <= i < us.len() && (#[trigger] us[i]).contents.len() > 0 ==> m.snapshot(us[i].entity_name) is Some,
    decreases us.len(),
{
    if us.len() > 0 {
        let t = us.drop_last();
        let u = us.last();
        lemma_forget_owed(m, t);
        assert(us[us.len() - 1] == u);
        if forget_all(m, t) is Ok {
            lemma_forget_all_reads(m, t, u.entity_name, u.entity_name);
            if u.contents.len() == 0 || m.snapshot(u.entity_name) is Some {
                assert forall|i: int|
                    0 <= i < us.len() && (#[trigger] us[i]).contents.len() > 0 implies m.snapshot(us[i].entity_name)
                    is Some by {
                    if i < t.len() {
                        assert(t[i] == us[i]);
                    }
                }
            }
        } else {
            let i = choose|i: int|
                0 <= i < t.len() && (#[trigger] t[i]).contents.len() > 0 && m.snapshot(t[i].entity_name) is None;
            assert(us[i] == t[i]);
        }
    }
}

// ---------------------------------------------------------------------------
// What is reported
// ---------------------------------------------------------------------------

/// What the chosen rows say of a name is what is read of it.
proof fn lemma_chosen_reads(m: GraphModel, p: spec_fn(Seq<char>) -> bool, s: SnapshotData)
    requires
        sound(m),
    ensures
        chosen(m, m.entities, p).contains(s) <==> p(s.name) && m.snapshot(s.name) == Some(s),
{
    if chosen(m, m.entities, p).contains(s) {
        let i = lemma_chosen_source(m, m.entities, p, s);
        lemma_snapshot_at(m, i);
    }
    if p(s.name) && m.snapshot(s.name) == Some(s) {
        let i = lemma_snapshot_row(m, s.name);
        lemma_chosen_holds(m, m.entities, p, i);
    }
}

proof fn lemma_chosen_source(m: GraphModel, es: Seq<EntityModel>, p: spec_fn(Seq<char>) -> bool, s: SnapshotData) -> (i:
    int)
    requires
        chosen(m, es, p).contains(s),
    ensures
        0 <= i < es.len(),
        es[i].flags == 0 && p(es[i].name) && snap(m, es[i]) == s,
    decreases es.len(),
{
    let t = es.drop_last();
    let (head, whole) = (chosen(m, t, p), chosen(m, es, p));
    let k = whole.index_of(s);
    if k < head.len() {
        assert(head[k] == s);
        assert(head.contains(s));
        lemma_chosen_source(m, t, p, s)
    } else {
        es.len() - 1
    }
}

proof fn lemma_chosen_holds(m: GraphModel, es: Seq<EntityModel>, p: spec_fn(Seq<char>) -> bool, i: int)
    requires
        0 <= i < es.len(),
        es[i].flags == 0,
        p(es[i].name),
    ensures
        chosen(m, es, p).contains(snap(m, es[i])),
    decreases es.len(),
{
    let t = es.drop_last();
    let (head, whole) = (chosen(m, t, p), chosen(m, es, p));
    if i < t.len() {
        assert(t[i] == es[i]);
        lemma_chosen_holds(m, t, p, i);
        assert(whole[head.index_of(snap(m, es[i]))] == snap(m, es[i]));
    } else {
        assert(whole[head.len() as int] == snap(m, es[i]));
    }
}

/// What a request may not change is read as before.
proof fn lemma_apart_reads(m: GraphModel, h: GraphModel, names: Set<Seq<char>>, n: Seq<char>, d: RelationData)
    requires
        sound(m),
        apart(m, h, names),
    ensures
        sound(h),
        !names.contains(n) ==> h.snapshot(n) == m.snapshot(n),
        !(names.contains(d.from) && names.contains(d.to)) ==> (all_rows(h).contains(d) <==> all_rows(m).contains(d)),
{
    reveal(apart);
    let p = stranger(names);
    if !names.contains(n) {
        if m.snapshot(n) is Some {
            let s = m.snapshot(n)->0;
            let i = lemma_snapshot_row(m, n);
            lemma_chosen_reads(m, p, s);
            lemma_chosen_reads(h, p, s);
        } else if h.snapshot(n) is Some {
            let s = h.snapshot(n)->0;
            let i = lemma_snapshot_row(h, n);
            lemma_chosen_reads(m, p, s);
            lemma_chosen_reads(h, p, s);
        }
    }
    if !(names.contains(d.from) && names.contains(d.to)) {
        let q = beyond(names);
        if all_rows(m).contains(d) {
            let k = lemma_where_source(m, m.relations, any(), d);
            lemma_where_holds(m, m.relations, q, k);
            let j = lemma_where_source(h, h.relations, q, d);
            lemma_where_holds(h, h.relations, any(), j);
        }
        if all_rows(h).contains(d) {
            let k = lemma_where_source(h, h.relations, any(), d);
            lemma_where_holds(h, h.relations, q, k);
            let j = lemma_where_source(m, m.relations, q, d);
            lemma_where_holds(m, m.relations, any(), j);
        }
    }
}

/// The change says that the entity was made, is gone or is another now.
pub open spec fn says_what_happened(c: ChangeData) -> bool {
    c.operation == (if c.before is None {
        ChangeOperation::Create
    } else if c.after is None {
        ChangeOperation::Delete
    } else {
        ChangeOperation::Update
    })
}

/// Every difference between what was read before a request and what is read
/// after it is reported, and nothing else is: for each entity that differs there
/// is one change, with the entity as it was and as it is, and every relation that
/// appeared or disappeared stands in the changes of its ends.
pub proof fn law_every_difference_is_reported(
    m: GraphModel,
    request: MutationRequest,
    now: int,
    g: GraphModel,
    result: ResultData,
    cs: Seq<ChangeData>,
    n: Seq<char>,
    d: RelationData,
    k: int,
)
    requires
        sound(m),
        applied(m, request, now, g, result, cs),
        request matches MutationRequest::RenameEntity { old_name, new_name } ==> old_name@ == new_name@,
    ensures
        m.snapshot(n) != g.snapshot(n) ==> exists|i: int|
            0 <= i < cs.len() && (#[trigger] cs[i]).before == m.snapshot(n) && cs[i].after == g.snapshot(n)
                && says_what_happened(cs[i]),
        !relation_read(m, d) && relation_read(g, d) && (n == d.from || n == d.to) ==> exists|i: int|
            0 <= i < cs.len() && (#[trigger] cs[i]).before == m.snapshot(n) && cs[i].after == g.snapshot(n) && (
            cs[i].relation_delta matches Some(delta) && delta.added.contains(d)),
        relation_read(m, d) && !relation_read(g, d) && (n == d.from || n == d.to) ==> exists|i: int|
            0 <= i < cs.len() && (#[trigger] cs[i]).before == m.snapshot(n) && cs[i].after == g.snapshot(n) && (
            cs[i].relation_delta matches Some(delta) && delta.removed.contains(d)),
        0 <= k < cs.len() ==> {
            let c = cs[k];
            &&& says_what_happened(c)
            &&& c.before == m.snapshot(c.subject()) && c.after == g.snapshot(c.subject())
            &&& c.before != c.after || c.relation_delta is Some
            &&& c.relation_delta matches Some(delta) ==> {
                &&& delta.added.contains(d) ==> !relation_read(m, d) && relation_read(g, d) && d.touches(c.subject())
                &&& delta.removed.contains(d) ==> relation_read(m, d) && !relation_read(g, d) && d.touches(c.subject())
            }
        },
        forall|i: int, j: int| 0 <= i < j < cs.len() ==> (#[trigger] cs[i]).subject() != (#[trigger] cs[j]).subject(),
{
    let names = affected(m, request);
    let h = executed(m, request, now)->Ok_0.0;
    let (b, a) = (captured(m, names), captured(h, names));
    lemma_affected_listable(m, request);
    lemma_executed(m, request, now);
    lemma_apart_reads(m, h, names, n, d);
    lemma_captured_entity(m, names, n);
    lemma_captured_entity(h, names, n);
    lemma_recounted_reads(h, b, a, cs, now, n);
    lemma_recounted_rows(h, b, a, cs, now);
    lemma_read_at_ends(g, d, set![d.from]);
    lemma_read_at_ends(m, d, set![d.from]);
    lemma_read_at_ends(h, d, set![d.from]);
    assert(tell_all(cs, b, a));
    let subjects = cs.map_values(|c: ChangeData| c.subject());
    assert forall|i: int, j: int| 0 <= i < j < cs.len() implies (#[trigger] cs[i]).subject() != (
    #[trigger] cs[j]).subject() by {
        assert(before(subjects[i], subjects[j]));
        lemma_before_irreflexive(subjects[i]);
    }
    let near_names = names.contains(d.from) && names.contains(d.to);
    if near_names {
        lemma_read_at_ends(m, d, names);
        lemma_read_at_ends(h, d, names);
        assert(b.rows.contains(d) <==> all_rows(m).contains(d));
        assert(a.rows.contains(d) <==> all_rows(h).contains(d));
    }
    let moved_in = !relation_read(m, d) && relation_read(g, d) && (n == d.from || n == d.to);
    let moved_out = relation_read(m, d) && !relation_read(g, d) && (n == d.from || n == d.to);
    if moved_in {
        let x = lemma_where_source(h, h.relations, any(), d);
        lemma_ends_read(h, x);
        assert(gained(b, a, n).contains(d));
    }
    if moved_out {
        let x = lemma_where_source(m, m.relations, any(), d);
        lemma_ends_read(m, x);
        assert(gained(a, b, n).contains(d));
    }
    if m.snapshot(n) != g.snapshot(n) || moved_in || moved_out {
        assert(differs(b, a, n));
        let i = choose|i: int| 0 <= i < cs.len() && (#[trigger] cs[i]).subject() == n;
        assert(tells(cs[i], b, a, n));
        assert(cs[i].before == m.snapshot(n) && cs[i].after == g.snapshot(n));
        if moved_in || moved_out {
            assert(cs[i].relation_delta is Some);
        }
    }
    if 0 <= k < cs.len() {
        let c = cs[k];
        let who = c.subject();
        assert(tells(c, b, a, who));
        assert(differs(b, a, who));
        lemma_captured_entity(m, names, who);
        lemma_captured_entity(h, names, who);
        lemma_recounted_reads(h, b, a, cs, now, who);
        assert(names.contains(who));
        lemma_told_relations(m, h, names, c, d);
    }
}

/// The relations of a change are those that the captures differ in.
proof fn lemma_told_relations(m: GraphModel, h: GraphModel, names: Set<Seq<char>>, c: ChangeData, d: RelationData)
    requires
        sound(m),
        sound(h),
        names.contains(c.subject()),
        tells(c, captured(m, names), captured(h, names), c.subject()),
    ensures
        c.relation_delta matches Some(delta) ==> {
            &&& delta.added.contains(d) ==> !all_rows(m).contains(d) && all_rows(h).contains(d) && d.touches(c.subject())
            &&& delta.removed.contains(d) ==> all_rows(m).contains(d) && !all_rows(h).contains(d) && d.touches(
                c.subject(),
            )
        },
{
    let (b, a) = (captured(m, names), captured(h, names));
    let who = c.subject();
    if let Some(delta) = c.relation_delta {
        if delta.added.contains(d) {
            assert(gained(b, a, who).contains(d));
        }
        if delta.removed.contains(d) {
            assert(gained(a, b, who).contains(d));
        }
        if d.touches(who) {
            lemma_read_at_ends(m, d, names);
            lemma_read_at_ends(h, d, names);
        }
    }
}

/// A renaming is reported as one, with the entity as it was and as it is and both
/// its names.
pub proof fn law_a_renaming_is_reported_as_one(
    m: GraphModel,
    old_name: String,
    new_name: String,
    now: int,
    g: GraphModel,
    result: ResultData,
    cs: Seq<ChangeData>,
)
    requires
        sound(m),
        old_name@ != new_name@,
        applied(m, MutationRequest::RenameEntity { old_name, new_name }, now, g, result, cs),
    ensures
        cs.len() == 1,
        cs[0].operation == ChangeOperation::Rename,
        cs[0].before == m.snapshot(old_name@) && cs[0].after == g.snapshot(new_name@),
        cs[0].old_name == Some(old_name@) && cs[0].new_name == Some(new_name@),
        cs[0].relation_delta is None,
{
    let request = MutationRequest::RenameEntity { old_name, new_name };
    let names = affected(m, request);
    let h = executed(m, request, now)->Ok_0.0;
    let (b, a) = (captured(m, names), captured(h, names));
    lemma_affected_listable(m, request);
    law_a_renamed_entity_is_read_under_its_new_name(m, old_name, new_name, now, g, result, cs);
    let i = lemma_snapshot_row(m, old_name@);
    lemma_renamed_sound(m, i, new_name@);
    lemma_recounted_reads(h, b, a, cs, now, new_name@);
    let inner = requested_names(m, request);
    assert(inner.contains(old_name@) && inner.contains(new_name@));
    lemma_captured_entity(m, names, old_name@);
    lemma_captured_entity(h, names, new_name@);
}

/// An entity that a request made or changed is stamped with the time of the
/// request; all others keep their time of change, and nobody's time of making
/// changes.
pub proof fn law_changed_entities_are_stamped(
    es: Seq<EntityModel>,
    cs: Seq<ChangeData>,
    rows: Seq<RelationData>,
    now: int,
    i: int,
)
    requires
        0 <= i < es.len(),
    ensures
        refreshed(es, cs, rows, now).len() == es.len(),
        refreshed(es, cs, rows, now)[i].created_us == es[i].created_us,
        refreshed(es, cs, rows, now)[i].updated_us == (if exists|k: int|
            0 <= k < cs.len() && (#[trigger] cs[k]).operation != ChangeOperation::Rename && cs[k].after is Some
                && cs[k].after->0.entity_id == es[i].id {
            now
        } else {
            es[i].updated_us
        }),
    decreases cs.len(),
{
    lemma_refreshed_len(es, cs, rows, now);
    if cs.len() > 0 {
        let t = cs.drop_last();
        law_changed_entities_are_stamped(es, t, rows, now, i);
        lemma_refreshed(es, t, rows, now, i);
        assert(cs[cs.len() - 1] == cs.last());
        if exists|k: int|
            0 <= k < t.len() && (#[trigger] t[k]).operation != ChangeOperation::Rename && t[k].after is Some
                && t[k].after->0.entity_id == es[i].id {
            let k = choose|k: int|
                0 <= k < t.len() && (#[trigger] t[k]).operation != ChangeOperation::Rename && t[k].after is Some
                    && t[k].after->0.entity_id == es[i].id;
            assert(cs[k] == t[k]);
        }
        if exists|k: int|
            0 <= k < cs.len() && (#[trigger] cs[k]).operation != ChangeOperation::Rename && cs[k].after is Some
                && cs[k].after->0.entity_id == es[i].id {
            let k = choose|k: int|
                0 <= k < cs.len() && (#[trigger] cs[k]).operation != ChangeOperation::Rename && cs[k].after is Some
                    && cs[k].after->0.entity_id == es[i].id;
            if k < t.len() {
                assert(t[k] == cs[k]);
            }
        }
    }
}

} // verus!
