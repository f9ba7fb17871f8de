//! The counters that are stored beside the rows, and how a mutation brings
//! them up to date.
use vstd::prelude::*;

use crate::changes::{
    changes_data, snapshots_data, Captured, ChangeData, ChangeOperation, EntityChange, Snapshot,
};
use crate::errors::{memory, MCSError, Result};
use crate::graph::{
    rewrite, EntityModel, EntitySnapshot, Graph, GraphModel, GraphStat, SnapshotData, StatModel,
    TypeModel, ENTITY_KIND, RELATION_KIND,
};
use crate::text::{same, texts};
use crate::types::{relations_data, Relation, RelationData};

verus! {

/// How many elements satisfy `p`.
pub open spec fn count_of<A>(s: Seq<A>, p: spec_fn(A) -> bool) -> int
    decreases s.len(),
{
    if s.len() == 0 {
        0
    } else {
        count_of(s.drop_last(), p) + (if p(s.last()) {
            1int
        } else {
            0int
        })
    }
}

/// A count lies between zero and the length.
pub proof fn lemma_count_bounds<A>(s: Seq<A>, p: spec_fn(A) -> bool)
    ensures
        0 <= count_of(s, p) <= s.len(),
    decreases s.len(),
{
    if s.len() > 0 {
        lemma_count_bounds(s.drop_last(), p);
    }
}

/// The entities of that type.
pub open spec fn of_type(t: Seq<char>) -> spec_fn(SnapshotData) -> bool {
    |s: SnapshotData| s.entity_type == t
}

/// The relations of that type.
pub open spec fn related_by(t: Seq<char>) -> spec_fn(RelationData) -> bool {
    |d: RelationData| d.relation_type == t
}

/// The relations that begin at that name.
pub open spec fn leaving(name: Seq<char>) -> spec_fn(RelationData) -> bool {
    |d: RelationData| d.from == name
}

/// The relations that end at that name.
pub open spec fn entering(name: Seq<char>) -> spec_fn(RelationData) -> bool {
    |d: RelationData| d.to == name
}

/// The number of observations of some entities.
pub open spec fn observation_total(es: Seq<SnapshotData>) -> int
    decreases es.len(),
{
    if es.len() == 0 {
        0
    } else {
        observation_total(es.drop_last()) + es.last().observations.len()
    }
}

/// How often a capture uses a type.
pub open spec fn uses(c: Captured, kind: int, name: Seq<char>) -> int {
    if kind == ENTITY_KIND {
        count_of(c.entities, of_type(name))
    } else if kind == RELATION_KIND {
        count_of(c.rows, related_by(name))
    } else {
        0
    }
}

/// A type with its count moved by the difference between the captures.
pub open spec fn recount(t: TypeModel, before: Captured, after: Captured) -> TypeModel {
    TypeModel { count: t.count + uses(after, t.kind, t.name) - uses(before, t.kind, t.name), ..t }
}

/// A stored total moved by a difference; a missing total stays missing.
pub open spec fn moved(total: Option<int>, delta: int) -> Option<int> {
    match total {
        Some(n) => Some(n + delta),
        None => None,
    }
}

/// An entity with its own counters taken from a snapshot and the captured
/// relation rows.
pub open spec fn refresh(e: EntityModel, s: SnapshotData, rows: Seq<RelationData>, now: int) -> EntityModel {
    EntityModel {
        obs_count: s.observations.len() as int,
        out_deg: count_of(rows, leaving(s.name)),
        in_deg: count_of(rows, entering(s.name)),
        updated_us: now,
        ..e
    }
}

/// The entity rows with the counters of every changed entity refreshed. A
/// renaming changes no counter.
pub open spec fn refreshed(
    es: Seq<EntityModel>,
    cs: Seq<ChangeData>,
    rows: Seq<RelationData>,
    now: int,
) -> Seq<EntityModel>
    decreases cs.len(),
{
    if cs.len() == 0 {
        es
    } else {
        let head = refreshed(es, cs.drop_last(), rows, now);
        match cs.last().after {
            Some(s) => if cs.last().operation != ChangeOperation::Rename {
                rewrite(head, s.entity_id, |e: EntityModel| refresh(e, s, rows, now))
            } else {
                head
            },
            None => head,
        }
    }
}

/// The totals moved by the difference between the captures.
pub open spec fn retotal(stat: StatModel, before: Captured, after: Captured) -> StatModel {
    StatModel {
        entities: moved(stat.entities, after.entities.len() - before.entities.len()),
        relations: moved(stat.relations, after.rows.len() - before.rows.len()),
        observations: moved(
            stat.observations,
            observation_total(after.entities) - observation_total(before.entities),
        ),
    }
}

/// The graph with its counters moved by the difference between the captures.
pub open spec fn recounted(
    m: GraphModel,
    before: Captured,
    after: Captured,
    cs: Seq<ChangeData>,
    now: int,
) -> GraphModel {
    GraphModel {
        entities: refreshed(m.entities, cs, after.rows, now),
        types: m.types.map_values(|t: TypeModel| recount(t, before, after)),
        stat: retotal(m.stat, before, after),
        ..m
    }
}

/// The number fits a stored counter.
pub open spec fn in_range(n: int) -> bool {
    i64::MIN <= n <= i64::MAX
}

/// A total that is missing or fits.
pub open spec fn total_in_range(n: Option<int>) -> bool {
    match n {
        Some(v) => in_range(v),
        None => true,
    }
}

/// What is captured can be counted by a stored counter.
pub open spec fn countable(c: Captured) -> bool {
    in_range(c.entities.len() as int) && in_range(c.rows.len() as int) && in_range(
        observation_total(c.entities),
    )
}

/// Every counter still fits after the captures are accounted for.
pub open spec fn fits(m: GraphModel, before: Captured, after: Captured, cs: Seq<ChangeData>) -> bool {
    &&& countable(before)
    &&& countable(after)
    &&& forall|i: int|
        0 <= i < m.types.len() ==> in_range(recount(#[trigger] m.types[i], before, after).count)
    &&& total_in_range(retotal(m.stat, before, after).entities)
    &&& total_in_range(retotal(m.stat, before, after).relations)
    &&& total_in_range(retotal(m.stat, before, after).observations)
    &&& forall|i: int|
        0 <= i < cs.len() ==> ((#[trigger] cs[i]).after matches Some(s) ==> in_range(
            s.observations.len() as int,
        ))
}

fn count_type(es: &Vec<EntitySnapshot>, t: &str) -> (r: usize)
    ensures
        r == count_of(snapshots_data(es@), of_type(t@)),
        r <= es@.len(),
{
    let ghost d = snapshots_data(es@);
    let mut n: usize = 0;
    let mut i: usize = 0;
    assert(d.take(0) =~= Seq::<SnapshotData>::empty());
    while i < es.len()
        invariant
            i <= es@.len(),
            n <= i,
            d == snapshots_data(es@),
            n == count_of(d.take(i as int), of_type(t@)),
        decreases es@.len() - i,
    {
        assert(d.take(i + 1).drop_last() =~= d.take(i as int));
        assert(d.take(i + 1).last() == es@[i as int]@);
        if same(&es[i].entity_type, t) {
            n += 1;
        }
        i += 1;
    }
    assert(d.take(es@.len() as int) =~= d);
    n
}

fn count_related(rows: &Vec<Relation>, t: &str) -> (r: usize)
    ensures
        r == count_of(relations_data(rows@), related_by(t@)),
        r <= rows@.len(),
{
    let ghost d = relations_data(rows@);
    let mut n: usize = 0;
    let mut i: usize = 0;
    assert(d.take(0) =~= Seq::<RelationData>::empty());
    while i < rows.len()
        invariant
            i <= rows@.len(),
            n <= i,
            d == relations_data(rows@),
            n == count_of(d.take(i as int), related_by(t@)),
        decreases rows@.len() - i,
    {
        assert(d.take(i + 1).drop_last() =~= d.take(i as int));
        assert(d.take(i + 1).last() == rows@[i as int]@);
        if same(&rows[i].relation_type, t) {
            n += 1;
        }
        i += 1;
    }
    assert(d.take(rows@.len() as int) =~= d);
    n
}

fn count_ends(rows: &Vec<Relation>, name: &str) -> (r: (usize, usize))
    ensures
        r.0 == count_of(relations_data(rows@), leaving(name@)),
        r.1 == count_of(relations_data(rows@), entering(name@)),
        r.0 <= rows@.len(),
        r.1 <= rows@.len(),
{
    let ghost d = relations_data(rows@);
    let mut out: usize = 0;
    let mut inward: usize = 0;
    let mut i: usize = 0;
    assert(d.take(0) =~= Seq::<RelationData>::empty());
    while i < rows.len()
        invariant
            i <= rows@.len(),
            out <= i,
            inward <= i,
            d == relations_data(rows@),
            out == count_of(d.take(i as int), leaving(name@)),
            inward == count_of(d.take(i as int), entering(name@)),
        decreases rows@.len() - i,
    {
        assert(d.take(i + 1).drop_last() =~= d.take(i as int));
        assert(d.take(i + 1).last() == rows@[i as int]@);
        if same(&rows[i].from, name) {
            out += 1;
        }
        if same(&rows[i].to, name) {
            inward += 1;
        }
        i += 1;
    }
    assert(d.take(rows@.len() as int) =~= d);
    (out, inward)
}

/// Observation totals only grow.
proof fn lemma_total_grows(es: Seq<SnapshotData>, n: int)
    requires
        0 <= n <= es.len(),
    ensures
        0 <= observation_total(es.take(n)) <= observation_total(es),
    decreases es.len(),
{
    if es.len() == 0 {
        assert(es.take(n) =~= es);
    } else if n == es.len() {
        assert(es.take(n) =~= es);
        lemma_total_grows(es.drop_last(), n - 1);
        assert(es.drop_last().take(n - 1) =~= es.drop_last());
    } else {
        assert(es.drop_last().take(n) =~= es.take(n));
        lemma_total_grows(es.drop_last(), n);
    }
}

/// The number of observations, if it fits a stored counter.
fn total_observations(es: &Vec<EntitySnapshot>) -> (r: Option<i64>)
    ensures
        match r {
            Some(n) => n == observation_total(snapshots_data(es@)) && n >= 0,
            None => !in_range(observation_total(snapshots_data(es@))),
        },
{
    let ghost d = snapshots_data(es@);
    let mut n: i64 = 0;
    let mut i: usize = 0;
    assert(d.take(0) =~= Seq::<SnapshotData>::empty());
    while i < es.len()
        invariant
            i <= es@.len(),
            d == snapshots_data(es@),
            n == observation_total(d.take(i as int)),
            n >= 0,
        decreases es@.len() - i,
    {
        assert(d.take(i + 1).drop_last() =~= d.take(i as int));
        assert(d.take(i + 1).last() == es@[i as int]@);
        let more: usize = es[i].observations.len();
        assert(texts(es@[i as int].observations@).len() == more);
        if more as i128 + n as i128 > i64::MAX as i128 {
            proof {
                lemma_total_grows(d, i + 1);
            }
            return None;
        }
        n = (n as i128 + more as i128) as i64;
        i += 1;
    }
    assert(d.take(es@.len() as int) =~= d);
    Some(n)
}

/// A length as a stored counter, if it fits.
fn counter_of(n: usize) -> (r: Option<i64>)
    ensures
        match r {
            Some(v) => v == n,
            None => !in_range(n as int),
        },
{
    if n as i128 > i64::MAX as i128 {
        None
    } else {
        Some(n as i64)
    }
}

/// A counter moved up and down, if it still fits.
fn move_counter(n: i64, up: i64, down: i64) -> (r: Option<i64>)
    ensures
        match r {
            Some(v) => v == n + up - down,
            None => !in_range(n + up - down),
        },
{
    let v: i128 = n as i128 + up as i128 - down as i128;
    if v < i64::MIN as i128 || v > i64::MAX as i128 {
        None
    } else {
        Some(v as i64)
    }
}

/// A total moved up and down, if it still fits.
fn move_total(n: Option<i64>, up: i64, down: i64) -> (r: Option<Option<i64>>)
    ensures
        match r {
            Some(v) => crate::graph::opt_int(v) == moved(crate::graph::opt_int(n), up - down),
            None => !total_in_range(moved(crate::graph::opt_int(n), up - down)),
        },
{
    match n {
        Some(v) => match move_counter(v, up, down) {
            Some(w) => Some(Some(w)),
            None => None,
        },
        None => Some(None),
    }
}

fn recount_types(graph: &mut Graph, before: &Snapshot, after: &Snapshot) -> (r: bool)
    requires
        countable(before@),
        countable(after@),
    ensures
        r == (forall|i: int|
            0 <= i < old(graph)@.types.len() ==> in_range(
                recount(#[trigger] old(graph)@.types[i], before@, after@).count,
            )),
        r ==> final(graph)@ == (GraphModel {
            types: old(graph)@.types.map_values(|t: TypeModel| recount(t, before@, after@)),
            ..old(graph)@
        }),
{
    let ghost start = graph@;
    let ghost f = |t: TypeModel| recount(t, before@, after@);
    let mut i: usize = 0;
    while i < graph.types.len()
        invariant
            i <= graph.types@.len(),
            start == old(graph)@,
            start.types.len() == graph.types@.len(),
            countable(before@),
            countable(after@),
            f == (|t: TypeModel| recount(t, before@, after@)),
            graph@ == (GraphModel { types: graph@.types, ..start }),
            forall|j: int| i <= j < start.types.len() ==> graph@.types[j] == start.types[j],
            forall|j: int|
                0 <= j < i ==> #[trigger] graph@.types[j] == f(start.types[j]) && in_range(
                    f(start.types[j]).count,
                ),
        decreases graph.types@.len() - i,
    {
        let ghost prior = graph@.types;
        assert(prior[i as int] == graph.types@[i as int]@);
        let kind: i64 = graph.types[i].kind;
        let (up, down): (usize, usize) = if kind == ENTITY_KIND {
            (
                count_type(&after.entities, &graph.types[i].name),
                count_type(&before.entities, &graph.types[i].name),
            )
        } else if kind == RELATION_KIND {
            (
                count_related(&after.relation_rows, &graph.types[i].name),
                count_related(&before.relation_rows, &graph.types[i].name),
            )
        } else {
            (0, 0)
        };
        assert(up == uses(after@, prior[i as int].kind, prior[i as int].name));
        assert(down == uses(before@, prior[i as int].kind, prior[i as int].name));
        assert(after@.entities.len() == after.entities@.len());
        assert(before@.entities.len() == before.entities@.len());
        assert(after@.rows.len() == after.relation_rows@.len());
        assert(before@.rows.len() == before.relation_rows@.len());
        match move_counter(graph.types[i].count, up as i64, down as i64) {
            Some(n) => {
                graph.types[i].count = n;
                assert(graph@.types =~= prior.update(i as int, f(prior[i as int])));
            },
            None => {
                assert(!in_range(recount(start.types[i as int], before@, after@).count));
                return false;
            },
        }
        i += 1;
    }
    assert(graph@.types =~= start.types.map_values(f));
    assert forall|j: int| 0 <= j < start.types.len() implies in_range(
        recount(#[trigger] start.types[j], before@, after@).count,
    ) by {
        assert(graph@.types[j] == f(start.types[j]));
    }
    true
}

/// Refreshes the counters of one entity.
fn refresh_entity(graph: &mut Graph, s: &EntitySnapshot, rows: &Vec<Relation>, now: i64)
    requires
        in_range(s@.observations.len() as int),
        in_range(rows@.len() as int),
    ensures
        final(graph)@ == (GraphModel {
            entities: rewrite(
                old(graph)@.entities,
                s@.entity_id,
                |e: EntityModel| refresh(e, s@, relations_data(rows@), now as int),
            ),
            ..old(graph)@
        }),
{
    let (out, inward): (usize, usize) = count_ends(rows, &s.name);
    assert(s@.observations.len() == s.observations@.len());
    let observed: i64 = s.observations.len() as i64;
    let ghost start = graph@;
    let ghost sd = s@;
    let ghost rd = relations_data(rows@);
    let ghost f = |e: EntityModel| refresh(e, sd, rd, now as int);
    let mut i: usize = 0;
    while i < graph.entities.len()
        invariant
            i <= graph.entities@.len(),
            start.entities.len() == graph.entities@.len(),
            sd == s@,
            observed == sd.observations.len(),
            out == count_of(rd, leaving(sd.name)),
            inward == count_of(rd, entering(sd.name)),
            in_range(out as int),
            in_range(inward as int),
            f == (|e: EntityModel| refresh(e, sd, rd, now as int)),
            graph@ == (GraphModel { entities: graph@.entities, ..start }),
            forall|j: int| i <= j < start.entities.len() ==> graph@.entities[j] == start.entities[j],
            forall|j: int|
                0 <= j < i ==> graph@.entities[j] == rewrite(start.entities, sd.entity_id, f)[j],
        decreases graph.entities@.len() - i,
    {
        let ghost prior = graph@.entities;
        assert(prior[i as int] == graph.entities@[i as int]@);
        if graph.entities[i].id == s.entity_id {
            graph.entities[i].obs_count = observed;
            graph.entities[i].out_deg = out as i64;
            graph.entities[i].in_deg = inward as i64;
            graph.entities[i].updated_us = now;
            assert(graph@.entities =~= prior.update(i as int, f(prior[i as int])));
        }
        i += 1;
    }
    assert(graph@.entities =~= rewrite(start.entities, sd.entity_id, f));
}

fn refresh_entities(graph: &mut Graph, changes: &Vec<EntityChange>, rows: &Vec<Relation>, now: i64)
    requires
        in_range(rows@.len() as int),
        forall|i: int|
            0 <= i < changes@.len() ==> ((#[trigger] changes_data(changes@)[i]).after matches Some(s)
                ==> in_range(s.observations.len() as int)),
    ensures
        final(graph)@ == (GraphModel {
            entities: refreshed(
                old(graph)@.entities,
                changes_data(changes@),
                relations_data(rows@),
                now as int,
            ),
            ..old(graph)@
        }),
{
    let ghost start = graph@;
    let ghost cs = changes_data(changes@);
    let ghost rd = relations_data(rows@);
    let mut i: usize = 0;
    assert(cs.take(0) =~= Seq::<ChangeData>::empty());
    while i < changes.len()
        invariant
            i <= changes@.len(),
            cs == changes_data(changes@),
            rd == relations_data(rows@),
            in_range(rows@.len() as int),
            forall|i: int|
                0 <= i < changes@.len() ==> ((#[trigger] cs[i]).after matches Some(s) ==> in_range(
                    s.observations.len() as int,
                )),
            graph@ == (GraphModel {
                entities: refreshed(start.entities, cs.take(i as int), rd, now as int),
                ..start
            }),
        decreases changes@.len() - i,
    {
        assert(cs.take(i + 1).drop_last() =~= cs.take(i as int));
        assert(cs.take(i + 1).last() == cs[i as int]);
        assert(cs[i as int] == changes@[i as int]@);
        match &changes[i].after {
            Some(s) => {
                if changes[i].operation != ChangeOperation::Rename {
                    refresh_entity(graph, s, rows, now);
                }
            },
            None => {},
        }
        i += 1;
    }
    assert(cs.take(changes@.len() as int) =~= cs);
}

/// Whether every changed entity has a number of observations that fits.
fn changes_fit(changes: &Vec<EntityChange>) -> (r: bool)
    ensures
        r == (forall|i: int|
            0 <= i < changes@.len() ==> ((#[trigger] changes_data(changes@)[i]).after matches Some(s)
                ==> in_range(s.observations.len() as int))),
{
    let ghost cs = changes_data(changes@);
    let mut i: usize = 0;
    while i < changes.len()
        invariant
            i <= changes@.len(),
            cs == changes_data(changes@),
            forall|j: int|
                0 <= j < i ==> ((#[trigger] cs[j]).after matches Some(s) ==> in_range(
                    s.observations.len() as int,
                )),
        decreases changes@.len() - i,
    {
        assert(cs[i as int] == changes@[i as int]@);
        match &changes[i].after {
            Some(s) => {
                assert(s@.observations.len() == s.observations@.len());
                if s.observations.len() as i128 > i64::MAX as i128 {
                    assert(cs[i as int].after == Some(s@));
                    return false;
                }
            },
            None => {},
        }
        i += 1;
    }
    true
}

/// Moves every stored counter by the difference between the captures.
pub fn update_counters(
    graph: &mut Graph,
    before: &Snapshot,
    after: &Snapshot,
    changes: &Vec<EntityChange>,
    now: i64,
) -> (r: Result<()>)
    ensures
        match r {
            Ok(_) => fits(old(graph)@, before@, after@, changes_data(changes@)) && final(graph)@
                == recounted(old(graph)@, before@, after@, changes_data(changes@), now as int),
            Err(e) => !fits(old(graph)@, before@, after@, changes_data(changes@)) && (e
                matches MCSError::MemoryError(m) && m@ == "counter out of range"@),
        },
{
    let ghost start = graph@;
    assert(after@.entities.len() == after.entities@.len());
    assert(before@.entities.len() == before.entities@.len());
    assert(after@.rows.len() == after.relation_rows@.len());
    assert(before@.rows.len() == before.relation_rows@.len());
    assert(changes_data(changes@).len() == changes@.len());
    let sizes: (Option<i64>, Option<i64>, Option<i64>, Option<i64>) = (
        counter_of(before.entities.len()),
        counter_of(after.entities.len()),
        counter_of(before.relation_rows.len()),
        counter_of(after.relation_rows.len()),
    );
    let observed: (Option<i64>, Option<i64>) = (
        total_observations(&before.entities),
        total_observations(&after.entities),
    );
    if let (Some(be), Some(ae), Some(br), Some(ar)) = sizes {
        if let (Some(bo), Some(ao)) = observed {
            let entities: Option<Option<i64>> = move_total(graph.stat.entities, ae, be);
            let relations: Option<Option<i64>> = move_total(graph.stat.relations, ar, br);
            let observations: Option<Option<i64>> = move_total(graph.stat.observations, ao, bo);
            if let (Some(e), Some(r), Some(o)) = (entities, relations, observations) {
                if changes_fit(changes) && recount_types(graph, before, after) {
                    graph.stat = GraphStat { entities: e, relations: r, observations: o };
                    refresh_entities(graph, changes, &after.relation_rows, now);
                    assert(graph@ =~= recounted(
                        start,
                        before@,
                        after@,
                        changes_data(changes@),
                        now as int,
                    ));
                    return Ok(());
                }
            }
        }
    }
    Err(memory("counter out of range"))
}

/// Counts add up: the count of two lists, one behind the other, is the sum of
/// their counts, one element counts as one or as none, and no more is counted
/// than there is.
pub proof fn law_counts_add_up<A>(a: Seq<A>, b: Seq<A>, x: A, p: spec_fn(A) -> bool)
    ensures
        count_of(a + b, p) == count_of(a, p) + count_of(b, p),
        count_of(seq![x], p) == if p(x) {
            1int
        } else {
            0int
        },
        count_of(Seq::<A>::empty(), p) == 0,
        0 <= count_of(a, p) <= a.len(),
    decreases b.len(),
{
    lemma_count_bounds(a, p);
    assert(seq![x].drop_last() =~= Seq::<A>::empty());
    assert(count_of(seq![x].drop_last(), p) == 0);
    assert(seq![x].last() == x);
    if b.len() == 0 {
        assert(a + b =~= a);
    } else {
        law_counts_add_up(a, b.drop_last(), x, p);
        assert((a + b).drop_last() =~= a + b.drop_last());
    }
}

/// The observations of two lists of entities are those of the one and of the
/// other.
pub proof fn law_observations_add_up(a: Seq<SnapshotData>, b: Seq<SnapshotData>, x: SnapshotData)
    ensures
        observation_total(a + b) == observation_total(a) + observation_total(b),
        observation_total(seq![x]) == x.observations.len(),
    decreases b.len(),
{
    assert(seq![x].drop_last() =~= Seq::<SnapshotData>::empty());
    assert(observation_total(seq![x].drop_last()) == 0);
    assert(seq![x].last() == x);
    if b.len() == 0 {
        assert(a + b =~= a);
    } else {
        law_observations_add_up(a, b.drop_last(), x);
        assert((a + b).drop_last() =~= a + b.drop_last());
    }
}

/// Counters fit as long as what they count does: where no stored counter and no
/// number of rows reaches a quarter of what a counter can hold, no request is
/// refused for one.
pub proof fn law_moderate_counters_fit(m: GraphModel, before: Captured, after: Captured, cs: Seq<ChangeData>)
    requires
        before.entities.len() <= 0x1fff_ffff_ffff_ffff && after.entities.len() <= 0x1fff_ffff_ffff_ffff,
        before.rows.len() <= 0x1fff_ffff_ffff_ffff && after.rows.len() <= 0x1fff_ffff_ffff_ffff,
        observation_total(before.entities) <= 0x1fff_ffff_ffff_ffff,
        observation_total(after.entities) <= 0x1fff_ffff_ffff_ffff,
        forall|i: int|
            0 <= i < m.types.len() ==> -0x1fff_ffff_ffff_ffff <= (#[trigger] m.types[i]).count
                <= 0x1fff_ffff_ffff_ffff,
        m.stat.entities matches Some(n) ==> -0x1fff_ffff_ffff_ffff <= n <= 0x1fff_ffff_ffff_ffff,
        m.stat.relations matches Some(n) ==> -0x1fff_ffff_ffff_ffff <= n <= 0x1fff_ffff_ffff_ffff,
        m.stat.observations matches Some(n) ==> -0x1fff_ffff_ffff_ffff <= n <= 0x1fff_ffff_ffff_ffff,
        forall|i: int|
            0 <= i < cs.len() ==> ((#[trigger] cs[i]).after matches Some(s) ==> s.observations.len()
                <= 0x1fff_ffff_ffff_ffff),
    ensures
        fits(m, before, after, cs),
{
    lemma_total_grows(before.entities, 0);
    lemma_total_grows(after.entities, 0);
    assert forall|i: int| 0 <= i < m.types.len() implies in_range(
        recount(#[trigger] m.types[i], before, after).count,
    ) by {
        let t = m.types[i];
        lemma_count_bounds(before.entities, of_type(t.name));
        lemma_count_bounds(after.entities, of_type(t.name));
        lemma_count_bounds(before.rows, related_by(t.name));
        lemma_count_bounds(after.rows, related_by(t.name));
    }
}

} // verus!
