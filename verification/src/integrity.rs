//! Operator-gated checks and repair of the physical relation rows.
//!
//! Auditing reads rows and counters only. Repair drops repeated rows, rebuilds
//! the counters that depend on relations and leaves a graph whose audit is
//! clean, or leaves the graph alone.
use vstd::prelude::*;

use crate::counters::count_of;
use crate::errors::{invalid, memory, MCSError, Result};
use crate::graph::{
    relation_models, EntityModel, Graph, GraphModel, RelationModel, RelationRow, StatModel,
    TypeModel, ENTITY_KIND, RELATION_KIND,
};
use crate::text::texts;

verus! {

/// Aggregate relation-integrity state. It holds counts only, never names or
/// observation bodies, so it can be shown to an operator.
#[derive(Clone, Copy, Debug, PartialEq, Eq, Structural)]
pub struct AuditReport {
    pub duplicate_groups: i64,
    pub duplicate_rows: i64,
    pub dangling_relation_rows: i64,
    pub drift: DriftReport,
}

/// Counters whose stored values differ from the physical rows.
#[derive(Clone, Copy, Debug, PartialEq, Eq, Structural)]
pub struct DriftReport {
    pub graph_stat_relations: CounterDrift,
    pub type_dict_count: i64,
    pub entity_out_deg: i64,
    pub entity_in_deg: i64,
}

/// A stored counter is optional because a damaged store may miss the
/// `relations` total altogether.
#[derive(Clone, Copy, Debug, PartialEq, Eq, Structural)]
pub struct CounterDrift {
    pub stored: Option<i64>,
    pub actual: i64,
}

/// The two audits around a successful repair.
#[derive(Clone, Copy, Debug, PartialEq, Eq, Structural)]
pub struct RepairReport {
    pub before: AuditReport,
    pub after: AuditReport,
}

impl AuditReport {
    /// The rows and the counters derived from them agree.
    pub open spec fn clean(self) -> bool {
        &&& self.duplicate_groups == 0
        &&& self.duplicate_rows == 0
        &&& self.dangling_relation_rows == 0
        &&& self.drift.graph_stat_relations.stored == Some(self.drift.graph_stat_relations.actual)
        &&& self.drift.type_dict_count == 0
        &&& self.drift.entity_out_deg == 0
        &&& self.drift.entity_in_deg == 0
    }

    /// Whether the rows and the counters derived from them agree.
    #[must_use]
    pub fn is_clean(&self) -> (r: bool)
        ensures
            r == self.clean(),
    {
        let total_ok: bool = match self.drift.graph_stat_relations.stored {
            Some(n) => n == self.drift.graph_stat_relations.actual,
            None => false,
        };
        self.duplicate_groups == 0 && self.duplicate_rows == 0 && self.dangling_relation_rows == 0
            && total_ok && self.drift.type_dict_count == 0 && self.drift.entity_out_deg == 0
            && self.drift.entity_in_deg == 0
    }
}

// ---------------------------------------------------------------------------
// What an audit counts
// ---------------------------------------------------------------------------

/// The rows that store the same relation as `r`.
pub open spec fn like(r: RelationModel) -> spec_fn(RelationModel) -> bool {
    |x: RelationModel| x.from_id == r.from_id && x.to_id == r.to_id && x.type_id == r.type_id
}

/// The number of rows that repeat an earlier row.
pub open spec fn repeats(rs: Seq<RelationModel>) -> int
    decreases rs.len(),
{
    if rs.len() == 0 {
        0
    } else {
        repeats(rs.drop_last()) + (if count_of(rs.drop_last(), like(rs.last())) >= 1 {
            1int
        } else {
            0int
        })
    }
}

/// The number of relations that are stored more than once, counted at their
/// second row.
pub open spec fn repeated_groups(rs: Seq<RelationModel>) -> int
    decreases rs.len(),
{
    if rs.len() == 0 {
        0
    } else {
        repeated_groups(rs.drop_last()) + (if count_of(rs.drop_last(), like(rs.last())) == 1 {
            1int
        } else {
            0int
        })
    }
}

/// Some entity row has that identifier.
pub open spec fn has_entity(es: Seq<EntityModel>, id: int) -> bool {
    exists|i: int| 0 <= i < es.len() && (#[trigger] es[i]).id == id
}

/// Some relation type has that identifier.
pub open spec fn has_relation_type(ts: Seq<TypeModel>, id: int) -> bool {
    exists|i: int| 0 <= i < ts.len() && (#[trigger] ts[i]).id == id && ts[i].kind == RELATION_KIND
}

/// The rows that refer to a row that is not there.
pub open spec fn dangles(m: GraphModel) -> spec_fn(RelationModel) -> bool {
    |r: RelationModel|
        !has_entity(m.entities, r.from_id) || !has_entity(m.entities, r.to_id) || !has_relation_type(
            m.types,
            r.type_id,
        )
}

/// The live entities of a type.
pub open spec fn live_of_type(id: int) -> spec_fn(EntityModel) -> bool {
    |e: EntityModel| e.type_id == id && e.flags == 0
}

/// The relation rows of a type.
pub open spec fn rows_of_type(id: int) -> spec_fn(RelationModel) -> bool {
    |r: RelationModel| r.type_id == id
}

/// The relation rows that begin at an entity.
pub open spec fn rows_from(id: int) -> spec_fn(RelationModel) -> bool {
    |r: RelationModel| r.from_id == id
}

/// The relation rows that end at an entity.
pub open spec fn rows_to(id: int) -> spec_fn(RelationModel) -> bool {
    |r: RelationModel| r.to_id == id
}

/// How many rows use a type.
pub open spec fn actual_count(m: GraphModel, t: TypeModel) -> int {
    if t.kind == ENTITY_KIND {
        count_of(m.entities, live_of_type(t.id))
    } else if t.kind == RELATION_KIND {
        count_of(m.relations, rows_of_type(t.id))
    } else {
        0
    }
}

/// The types whose stored count is wrong.
pub open spec fn miscounted(m: GraphModel) -> spec_fn(TypeModel) -> bool {
    |t: TypeModel| t.count != actual_count(m, t)
}

/// The entities whose stored number of outgoing relations is wrong.
pub open spec fn out_drifted(m: GraphModel) -> spec_fn(EntityModel) -> bool {
    |e: EntityModel| e.out_deg != count_of(m.relations, rows_from(e.id))
}

/// The entities whose stored number of incoming relations is wrong.
pub open spec fn in_drifted(m: GraphModel) -> spec_fn(EntityModel) -> bool {
    |e: EntityModel| e.in_deg != count_of(m.relations, rows_to(e.id))
}

/// The report tells what the rows and counters show.
pub open spec fn audits(r: AuditReport, m: GraphModel) -> bool {
    &&& r.duplicate_groups == repeated_groups(m.relations)
    &&& r.duplicate_rows == repeats(m.relations)
    &&& r.dangling_relation_rows == count_of(m.relations, dangles(m))
    &&& crate::graph::opt_int(r.drift.graph_stat_relations.stored) == m.stat.relations
    &&& r.drift.graph_stat_relations.actual == m.relations.len()
    &&& r.drift.type_dict_count == count_of(m.types, miscounted(m))
    &&& r.drift.entity_out_deg == count_of(m.entities, out_drifted(m))
    &&& r.drift.entity_in_deg == count_of(m.entities, in_drifted(m))
}

/// The tables are small enough for their rows to be counted.
pub open spec fn auditable(m: GraphModel) -> bool {
    m.entities.len() <= i64::MAX && m.relations.len() <= i64::MAX && m.types.len() <= i64::MAX
}

// ---------------------------------------------------------------------------
// Auditing
// ---------------------------------------------------------------------------

fn knows_entity(graph: &Graph, id: i64) -> (r: bool)
    ensures
        r == has_entity(graph@.entities, id as int),
{
    let ghost es = graph@.entities;
    let mut i: usize = 0;
    while i < graph.entities.len()
        invariant
            i <= graph.entities@.len(),
            es == graph@.entities,
            forall|j: int| 0 <= j < i ==> (#[trigger] es[j]).id != id,
        decreases graph.entities@.len() - i,
    {
        assert(es[i as int] == graph.entities@[i as int]@);
        if graph.entities[i].id == id {
            return true;
        }
        i += 1;
    }
    false
}

fn knows_relation_type(graph: &Graph, id: i64) -> (r: bool)
    ensures
        r == has_relation_type(graph@.types, id as int),
{
    let ghost ts = graph@.types;
    let mut i: usize = 0;
    while i < graph.types.len()
        invariant
            i <= graph.types@.len(),
            ts == graph@.types,
            forall|j: int|
                0 <= j < i ==> !((#[trigger] ts[j]).id == id && ts[j].kind == RELATION_KIND),
        decreases graph.types@.len() - i,
    {
        assert(ts[i as int] == graph.types@[i as int]@);
        if graph.types[i].id == id && graph.types[i].kind == RELATION_KIND {
            return true;
        }
        i += 1;
    }
    false
}

/// How many of the first `n` rows store the same relation as `row`.
fn count_like(rows: &Vec<RelationRow>, n: usize, row: &RelationRow) -> (r: usize)
    requires
        n <= rows@.len(),
    ensures
        r == count_of(relation_models(rows@).take(n as int), like(row@)),
        r <= n,
{
    let ghost d = relation_models(rows@);
    let mut found: usize = 0;
    let mut i: usize = 0;
    assert(d.take(0) =~= Seq::<RelationModel>::empty());
    while i < n
        invariant
            i <= n <= rows@.len(),
            found <= i,
            d == relation_models(rows@),
            found == count_of(d.take(i as int), like(row@)),
        decreases n - i,
    {
        assert(d.take(i + 1).drop_last() =~= d.take(i as int));
        assert(d.take(i + 1).last() == rows@[i as int]@);
        if rows[i].from_id == row.from_id && rows[i].to_id == row.to_id && rows[i].type_id
            == row.type_id {
            found += 1;
        }
        i += 1;
    }
    found
}

fn count_rows_of_type(graph: &Graph, id: i64) -> (r: usize)
    ensures
        r == count_of(graph@.relations, rows_of_type(id as int)),
        r <= graph.relations@.len(),
{
    let ghost d = graph@.relations;
    let mut found: usize = 0;
    let mut i: usize = 0;
    assert(d.take(0) =~= Seq::<RelationModel>::empty());
    while i < graph.relations.len()
        invariant
            i <= graph.relations@.len(),
            found <= i,
            d == graph@.relations,
            found == count_of(d.take(i as int), rows_of_type(id as int)),
        decreases graph.relations@.len() - i,
    {
        assert(d.take(i + 1).drop_last() =~= d.take(i as int));
        assert(d.take(i + 1).last() == graph.relations@[i as int]@);
        if graph.relations[i].type_id == id {
            found += 1;
        }
        i += 1;
    }
    assert(d.take(graph.relations@.len() as int) =~= d);
    found
}

/// How many relation rows begin at an entity, and how many end there.
fn count_degrees(graph: &Graph, id: i64) -> (r: (usize, usize))
    ensures
        r.0 == count_of(graph@.relations, rows_from(id as int)),
        r.1 == count_of(graph@.relations, rows_to(id as int)),
        r.0 <= graph.relations@.len(),
        r.1 <= graph.relations@.len(),
{
    let ghost d = graph@.relations;
    let mut out: usize = 0;
    let mut inward: usize = 0;
    let mut i: usize = 0;
    assert(d.take(0) =~= Seq::<RelationModel>::empty());
    while i < graph.relations.len()
        invariant
            i <= graph.relations@.len(),
            out <= i,
            inward <= i,
            d == graph@.relations,
            out == count_of(d.take(i as int), rows_from(id as int)),
            inward == count_of(d.take(i as int), rows_to(id as int)),
        decreases graph.relations@.len() - i,
    {
        assert(d.take(i + 1).drop_last() =~= d.take(i as int));
        assert(d.take(i + 1).last() == graph.relations@[i as int]@);
        if graph.relations[i].from_id == id {
            out += 1;
        }
        if graph.relations[i].to_id == id {
            inward += 1;
        }
        i += 1;
    }
    assert(d.take(graph.relations@.len() as int) =~= d);
    (out, inward)
}

fn count_live_of_type(graph: &Graph, id: i64) -> (r: usize)
    ensures
        r == count_of(graph@.entities, live_of_type(id as int)),
        r <= graph.entities@.len(),
{
    let ghost d = graph@.entities;
    let mut found: usize = 0;
    let mut i: usize = 0;
    assert(d.take(0) =~= Seq::<EntityModel>::empty());
    while i < graph.entities.len()
        invariant
            i <= graph.entities@.len(),
            found <= i,
            d == graph@.entities,
            found == count_of(d.take(i as int), live_of_type(id as int)),
        decreases graph.entities@.len() - i,
    {
        assert(d.take(i + 1).drop_last() =~= d.take(i as int));
        assert(d.take(i + 1).last() == graph.entities@[i as int]@);
        if graph.entities[i].type_id == id && graph.entities[i].flags == 0 {
            found += 1;
        }
        i += 1;
    }
    assert(d.take(graph.entities@.len() as int) =~= d);
    found
}

/// How many rows use the type at `i`.
fn count_uses(graph: &Graph, i: usize) -> (r: usize)
    requires
        i < graph.types@.len(),
    ensures
        r == actual_count(graph@, graph@.types[i as int]),
        r <= graph.entities@.len() || r <= graph.relations@.len(),
{
    assert(graph@.types[i as int] == graph.types@[i as int]@);
    let kind: i64 = graph.types[i].kind;
    if kind == ENTITY_KIND {
        count_live_of_type(graph, graph.types[i].id)
    } else if kind == RELATION_KIND {
        count_rows_of_type(graph, graph.types[i].id)
    } else {
        0
    }
}

fn count_repeats(graph: &Graph) -> (r: (usize, usize))
    ensures
        r.0 == repeated_groups(graph@.relations),
        r.1 == repeats(graph@.relations),
        r.0 <= graph.relations@.len(),
        r.1 <= graph.relations@.len(),
{
    let ghost d = graph@.relations;
    let mut groups: usize = 0;
    let mut rows: usize = 0;
    let mut i: usize = 0;
    assert(d.take(0) =~= Seq::<RelationModel>::empty());
    while i < graph.relations.len()
        invariant
            i <= graph.relations@.len(),
            groups <= i,
            rows <= i,
            d == graph@.relations,
            groups == repeated_groups(d.take(i as int)),
            rows == repeats(d.take(i as int)),
        decreases graph.relations@.len() - i,
    {
        assert(d.take(i + 1).drop_last() =~= d.take(i as int));
        assert(d.take(i + 1).last() == graph.relations@[i as int]@);
        let earlier: usize = count_like(&graph.relations, i, &graph.relations[i]);
        if earlier == 1 {
            groups += 1;
        }
        if earlier >= 1 {
            rows += 1;
        }
        i += 1;
    }
    assert(d.take(graph.relations@.len() as int) =~= d);
    (groups, rows)
}

fn count_dangling(graph: &Graph) -> (r: usize)
    ensures
        r == count_of(graph@.relations, dangles(graph@)),
        r <= graph.relations@.len(),
{
    let ghost d = graph@.relations;
    let mut found: usize = 0;
    let mut i: usize = 0;
    assert(d.take(0) =~= Seq::<RelationModel>::empty());
    while i < graph.relations.len()
        invariant
            i <= graph.relations@.len(),
            found <= i,
            d == graph@.relations,
            found == count_of(d.take(i as int), dangles(graph@)),
        decreases graph.relations@.len() - i,
    {
        assert(d.take(i + 1).drop_last() =~= d.take(i as int));
        assert(d.take(i + 1).last() == graph.relations@[i as int]@);
        let row: RelationRow = graph.relations[i];
        if !knows_entity(graph, row.from_id) || !knows_entity(graph, row.to_id)
            || !knows_relation_type(graph, row.type_id) {
            found += 1;
        }
        i += 1;
    }
    assert(d.take(graph.relations@.len() as int) =~= d);
    found
}

fn count_miscounted(graph: &Graph) -> (r: usize)
    ensures
        r == count_of(graph@.types, miscounted(graph@)),
        r <= graph.types@.len(),
{
    let ghost d = graph@.types;
    let mut found: usize = 0;
    let mut i: usize = 0;
    assert(d.take(0) =~= Seq::<TypeModel>::empty());
    while i < graph.types.len()
        invariant
            i <= graph.types@.len(),
            found <= i,
            d == graph@.types,
            found == count_of(d.take(i as int), miscounted(graph@)),
        decreases graph.types@.len() - i,
    {
        assert(d.take(i + 1).drop_last() =~= d.take(i as int));
        assert(d.take(i + 1).last() == graph.types@[i as int]@);
        if graph.types[i].count as i128 != count_uses(graph, i) as i128 {
            found += 1;
        }
        i += 1;
    }
    assert(d.take(graph.types@.len() as int) =~= d);
    found
}

fn count_drifted(graph: &Graph) -> (r: (usize, usize))
    ensures
        r.0 == count_of(graph@.entities, out_drifted(graph@)),
        r.1 == count_of(graph@.entities, in_drifted(graph@)),
        r.0 <= graph.entities@.len(),
        r.1 <= graph.entities@.len(),
{
    let ghost d = graph@.entities;
    let mut out: usize = 0;
    let mut inward: usize = 0;
    let mut i: usize = 0;
    assert(d.take(0) =~= Seq::<EntityModel>::empty());
    while i < graph.entities.len()
        invariant
            i <= graph.entities@.len(),
            out <= i,
            inward <= i,
            d == graph@.entities,
            out == count_of(d.take(i as int), out_drifted(graph@)),
            inward == count_of(d.take(i as int), in_drifted(graph@)),
        decreases graph.entities@.len() - i,
    {
        assert(d.take(i + 1).drop_last() =~= d.take(i as int));
        assert(d.take(i + 1).last() == graph.entities@[i as int]@);
        let (o, n): (usize, usize) = count_degrees(graph, graph.entities[i].id);
        if graph.entities[i].out_deg as i128 != o as i128 {
            out += 1;
        }
        if graph.entities[i].in_deg as i128 != n as i128 {
            inward += 1;
        }
        i += 1;
    }
    assert(d.take(graph.entities@.len() as int) =~= d);
    (out, inward)
}

/// Audits the rows and counters.
pub fn audit(graph: &Graph) -> (r: Result<AuditReport>)
    ensures
        match r {
            Ok(report) => auditable(graph@) && audits(report, graph@),
            Err(e) => !auditable(graph@) && (e matches MCSError::MemoryError(m) && m@
                == "too many rows to audit"@),
        },
{
    assert(graph@.entities.len() == graph.entities@.len());
    assert(graph@.relations.len() == graph.relations@.len());
    assert(graph@.types.len() == graph.types@.len());
    if graph.entities.len() as i128 > i64::MAX as i128 || graph.relations.len() as i128
        > i64::MAX as i128 || graph.types.len() as i128 > i64::MAX as i128 {
        return Err(memory("too many rows to audit"));
    }
    let (groups, rows): (usize, usize) = count_repeats(graph);
    let (out, inward): (usize, usize) = count_drifted(graph);
    Ok(
        AuditReport {
            duplicate_groups: groups as i64,
            duplicate_rows: rows as i64,
            dangling_relation_rows: count_dangling(graph) as i64,
            drift: DriftReport {
                graph_stat_relations: CounterDrift {
                    stored: graph.stat.relations,
                    actual: graph.relations.len() as i64,
                },
                type_dict_count: count_miscounted(graph) as i64,
                entity_out_deg: out as i64,
                entity_in_deg: inward as i64,
            },
        },
    )
}

// ---------------------------------------------------------------------------
// Repairing
// ---------------------------------------------------------------------------

/// The row at `i` stores its relation before the row at `j`: it was created
/// earlier, or at the same time and stands first.
pub open spec fn precedes(rs: Seq<RelationModel>, i: int, j: int) -> bool {
    rs[i].created_us < rs[j].created_us || (rs[i].created_us == rs[j].created_us && i < j)
}

/// The row at `i` is the first to store its relation.
pub open spec fn keeps(rs: Seq<RelationModel>, i: int) -> bool {
    forall|j: int|
        0 <= j < rs.len() && j != i && #[trigger] like(rs[i])(rs[j]) ==> precedes(rs, i, j)
}

/// The rows among the first `n` that are the first to store their relation.
pub open spec fn kept(rs: Seq<RelationModel>, n: int) -> Seq<RelationModel>
    decreases n,
{
    if n <= 0 {
        Seq::empty()
    } else if keeps(rs, n - 1) {
        kept(rs, n - 1).push(rs[n - 1])
    } else {
        kept(rs, n - 1)
    }
}

/// The graph with one row for each relation.
pub open spec fn deduplicated(m: GraphModel) -> GraphModel {
    GraphModel { relations: kept(m.relations, m.relations.len() as int), ..m }
}

/// An entity with its degrees counted.
pub open spec fn with_degrees(m: GraphModel, e: EntityModel) -> EntityModel {
    EntityModel {
        out_deg: count_of(m.relations, rows_from(e.id)),
        in_deg: count_of(m.relations, rows_to(e.id)),
        ..e
    }
}

/// A type with its uses counted.
pub open spec fn with_count(m: GraphModel, t: TypeModel) -> TypeModel {
    TypeModel { count: actual_count(m, t), ..t }
}

/// The graph with the counters that depend on relations counted anew.
pub open spec fn rebuilt(m: GraphModel) -> GraphModel {
    GraphModel {
        entities: m.entities.map_values(|e: EntityModel| with_degrees(m, e)),
        types: m.types.map_values(|t: TypeModel| with_count(m, t)),
        stat: StatModel { relations: Some(m.relations.len() as int), ..m.stat },
        ..m
    }
}

/// The graph after a repair.
pub open spec fn repaired(m: GraphModel) -> GraphModel {
    rebuilt(deduplicated(m))
}

/// Nothing satisfies `p`, so nothing is counted.
pub proof fn lemma_count_none<A>(s: Seq<A>, p: spec_fn(A) -> bool)
    requires
        forall|i: int| 0 <= i < s.len() ==> !p(#[trigger] s[i]),
    ensures
        count_of(s, p) == 0,
    decreases s.len(),
{
    if s.len() > 0 {
        let t = s.drop_last();
        assert forall|i: int| 0 <= i < t.len() implies !p(#[trigger] t[i]) by {
            assert(t[i] == s[i]);
        }
        lemma_count_none(t, p);
        assert(s[s.len() - 1] == s.last());
    }
}

/// Nothing is counted, so nothing satisfies `p`.
pub proof fn lemma_count_zero<A>(s: Seq<A>, p: spec_fn(A) -> bool)
    requires
        count_of(s, p) == 0,
    ensures
        forall|i: int| 0 <= i < s.len() ==> !p(#[trigger] s[i]),
    decreases s.len(),
{
    if s.len() > 0 {
        let t = s.drop_last();
        crate::counters::lemma_count_bounds(t, p);
        lemma_count_zero(t, p);
        assert forall|i: int| 0 <= i < s.len() implies !p(#[trigger] s[i]) by {
            if i < t.len() {
                assert(t[i] == s[i]);
            }
        }
    }
}

/// A map that keeps `p` keeps the count.
pub proof fn lemma_count_map<A>(s: Seq<A>, f: spec_fn(A) -> A, p: spec_fn(A) -> bool)
    requires
        forall|x: A| p(#[trigger] f(x)) == p(x),
    ensures
        count_of(s.map_values(f), p) == count_of(s, p),
    decreases s.len(),
{
    if s.len() > 0 {
        lemma_count_map(s.drop_last(), f, p);
        assert(s.map_values(f).drop_last() =~= s.drop_last().map_values(f));
        assert(s.map_values(f).last() == f(s.last()));
    }
}

/// The row is one of the first `n`, and the first to store its relation.
spec fn is_first_row(rs: Seq<RelationModel>, n: int, r: RelationModel) -> bool {
    exists|i: int| 0 <= i < n && #[trigger] keeps(rs, i) && rs[i] == r
}

/// Where such a row stands.
proof fn lemma_first_row_at(rs: Seq<RelationModel>, n: int, r: RelationModel) -> (i: int)
    requires
        is_first_row(rs, n, r),
    ensures
        0 <= i < n,
        keeps(rs, i),
        rs[i] == r,
{
    choose|i: int| 0 <= i < n && #[trigger] keeps(rs, i) && rs[i] == r
}

/// Of more rows it still is one.
proof fn lemma_first_row_of_more(rs: Seq<RelationModel>, n: int, r: RelationModel)
    requires
        is_first_row(rs, n, r),
    ensures
        is_first_row(rs, n + 1, r),
{
    let i = lemma_first_row_at(rs, n, r);
    assert(keeps(rs, i));
}

/// Every kept row is one of the rows, and the first to store its relation.
proof fn lemma_kept(rs: Seq<RelationModel>, n: int)
    requires
        0 <= n <= rs.len(),
    ensures
        kept(rs, n).len() <= n,
        forall|k: int| 0 <= k < kept(rs, n).len() ==> is_first_row(rs, n, #[trigger] kept(rs, n)[k]),
    decreases n,
{
    if n > 0 {
        lemma_kept(rs, n - 1);
        let (head, whole) = (kept(rs, n - 1), kept(rs, n));
        assert forall|k: int| 0 <= k < whole.len() implies is_first_row(rs, n, #[trigger] whole[k]) by {
            if k < head.len() {
                assert(whole[k] == head[k]);
                lemma_first_row_of_more(rs, n - 1, head[k]);
            } else {
                assert(keeps(rs, n - 1));
                assert(whole[k] == rs[n - 1]);
            }
        }
    }
}

/// No relation is stored twice among the kept rows.
proof fn lemma_kept_once(rs: Seq<RelationModel>, n: int)
    requires
        0 <= n <= rs.len(),
    ensures
        repeats(kept(rs, n)) == 0,
        repeated_groups(kept(rs, n)) == 0,
    decreases n,
{
    if n > 0 {
        lemma_kept_once(rs, n - 1);
        if keeps(rs, n - 1) {
            let head = kept(rs, n - 1);
            let r = rs[n - 1];
            lemma_kept(rs, n - 1);
            assert forall|k: int| 0 <= k < head.len() implies !like(r)(#[trigger] head[k]) by {
                let i = lemma_first_row_at(rs, n - 1, head[k]);
                if like(r)(head[k]) {
                    assert(like(rs[n - 1])(rs[i]));
                    assert(like(rs[i])(rs[n - 1]));
                    assert(precedes(rs, n - 1, i) && precedes(rs, i, n - 1));
                }
            }
            lemma_count_none(head, like(r));
            assert(head.push(r).drop_last() =~= head);
        }
    }
}

/// Among the first `n` rows some row is the first of those that store the
/// relation of row `i`.
proof fn lemma_first_of(rs: Seq<RelationModel>, i: int, n: int) -> (k: int)
    requires
        0 <= i < n <= rs.len(),
    ensures
        0 <= k < n,
        like(rs[i])(rs[k]),
        forall|j: int|
            0 <= j < n && j != k && #[trigger] like(rs[i])(rs[j]) ==> precedes(rs, k, j),
    decreases n,
{
    let last = n - 1;
    if i == last {
        if exists|j: int| 0 <= j < last && #[trigger] like(rs[i])(rs[j]) {
            let j = choose|j: int| 0 <= j < last && #[trigger] like(rs[i])(rs[j]);
            let k = lemma_first_of(rs, j, last);
            assert(like(rs[i])(rs[k]));
            assert forall|x: int| 0 <= x < last && x != k && #[trigger] like(rs[i])(rs[x]) implies precedes(
                rs,
                k,
                x,
            ) by {
                assert(like(rs[j])(rs[x]));
            }
            if precedes(rs, k, last) {
                k
            } else {
                assert forall|x: int| 0 <= x < n && x != last && #[trigger] like(rs[i])(rs[x]) implies precedes(
                    rs,
                    last,
                    x,
                ) by {}
                last
            }
        } else {
            last
        }
    } else {
        let k = lemma_first_of(rs, i, last);
        if like(rs[i])(rs[last]) && !precedes(rs, k, last) {
            assert forall|x: int| 0 <= x < n && x != last && #[trigger] like(rs[i])(rs[x]) implies precedes(
                rs,
                last,
                x,
            ) by {}
            last
        } else {
            k
        }
    }
}

/// A row that is kept is among the rows that are kept.
proof fn lemma_kept_contains(rs: Seq<RelationModel>, n: int, k: int)
    requires
        0 <= k < n <= rs.len(),
        keeps(rs, k),
    ensures
        kept(rs, n).contains(rs[k]),
    decreases n,
{
    let head = kept(rs, n - 1);
    let whole = kept(rs, n);
    if k == n - 1 {
        assert(whole[head.len() as int] == rs[k]);
    } else {
        lemma_kept_contains(rs, n - 1, k);
        assert(whole[head.index_of(rs[k])] == rs[k]);
    }
}

/// A repair loses no relation: of the rows that store one it keeps the one that
/// was written first, by time and then by position, and it adds no row.
pub proof fn law_repair_keeps_the_first_row(m: GraphModel, i: int)
    requires
        0 <= i < m.relations.len(),
    ensures
        exists|k: int|
            0 <= k < m.relations.len() && #[trigger] like(m.relations[i])(m.relations[k]) && keeps(
                m.relations,
                k,
            ) && repaired(m).relations.contains(m.relations[k]),
        forall|j: int|
            0 <= j < repaired(m).relations.len() ==> m.relations.contains(#[trigger] repaired(m).relations[j]),
{
    let rs = m.relations;
    let n = rs.len() as int;
    let k = lemma_first_of(rs, i, n);
    assert forall|j: int| 0 <= j < n && j != k && #[trigger] like(rs[k])(rs[j]) implies precedes(rs, k, j) by {
        assert(like(rs[i])(rs[j]));
    }
    lemma_kept_contains(rs, n, k);
    lemma_kept(rs, n);
    let g = repaired(m);
    assert forall|j: int| 0 <= j < g.relations.len() implies rs.contains(#[trigger] g.relations[j]) by {
        let x = lemma_first_row_at(rs, n, g.relations[j]);
        assert(rs[x] == g.relations[j]);
    }
}

/// A repair of a graph without dangling rows leaves a graph with a clean
/// audit, whatever was repeated or miscounted.
pub proof fn law_repair_gives_a_clean_audit(m: GraphModel, report: AuditReport)
    requires
        count_of(m.relations, dangles(m)) == 0,
        audits(report, repaired(m)),
    ensures
        report.clean(),
{
    let d = deduplicated(m);
    let g = repaired(m);
    let n = m.relations.len() as int;
    lemma_kept_once(m.relations, n);
    lemma_kept(m.relations, n);
    lemma_count_zero(m.relations, dangles(m));
    assert forall|k: int| 0 <= k < g.relations.len() implies !dangles(g)(#[trigger] g.relations[k]) by {
        let i = lemma_first_row_at(m.relations, n, g.relations[k]);
        let r = m.relations[i];
        assert(!dangles(m)(r));
        let a = choose|a: int| 0 <= a < m.entities.len() && (#[trigger] m.entities[a]).id == r.from_id;
        assert(g.entities[a].id == r.from_id);
        let b = choose|b: int| 0 <= b < m.entities.len() && (#[trigger] m.entities[b]).id == r.to_id;
        assert(g.entities[b].id == r.to_id);
        let t = choose|t: int|
            0 <= t < m.types.len() && (#[trigger] m.types[t]).id == r.type_id && m.types[t].kind
                == RELATION_KIND;
        assert(g.types[t].id == r.type_id && g.types[t].kind == RELATION_KIND);
    }
    lemma_count_none(g.relations, dangles(g));
    assert forall|k: int| 0 <= k < g.types.len() implies !miscounted(g)(#[trigger] g.types[k]) by {
        let t = m.types[k];
        let f = |e: EntityModel| with_degrees(d, e);
        assert forall|x: EntityModel| live_of_type(t.id)(#[trigger] f(x)) == live_of_type(t.id)(x) by {}
        lemma_count_map(d.entities, f, live_of_type(t.id));
        assert(g.entities =~= d.entities.map_values(f));
        assert(g.types[k] == with_count(d, t));
    }
    lemma_count_none(g.types, miscounted(g));
    assert forall|k: int| 0 <= k < g.entities.len() implies !out_drifted(g)(#[trigger] g.entities[k])
        && !in_drifted(g)(g.entities[k]) by {
        assert(g.entities[k] == with_degrees(d, m.entities[k]));
    }
    lemma_count_none(g.entities, out_drifted(g));
    lemma_count_none(g.entities, in_drifted(g));
}

/// Whether the row at `i` is the first to store its relation.
fn is_first(rows: &Vec<RelationRow>, i: usize) -> (r: bool)
    requires
        i < rows@.len(),
    ensures
        r == keeps(relation_models(rows@), i as int),
{
    let ghost d = relation_models(rows@);
    let mut j: usize = 0;
    while j < rows.len()
        invariant
            i < rows@.len(),
            j <= rows@.len(),
            d == relation_models(rows@),
            forall|k: int|
                0 <= k < j && k != i && #[trigger] like(d[i as int])(d[k]) ==> precedes(d, i as int, k),
        decreases rows@.len() - j,
    {
        let a: RelationRow = rows[i];
        let b: RelationRow = rows[j];
        assert(d[i as int] == a@);
        assert(d[j as int] == b@);
        if j != i && a.from_id == b.from_id && a.to_id == b.to_id && a.type_id == b.type_id && !(
        a.created_us < b.created_us || (a.created_us == b.created_us && i < j)) {
            assert(like(d[i as int])(d[j as int]));
            return false;
        }
        j += 1;
    }
    true
}

fn deduplicate(graph: &mut Graph)
    ensures
        final(graph)@ == deduplicated(old(graph)@),
{
    let ghost d = graph@.relations;
    let mut rows: Vec<RelationRow> = Vec::new();
    let mut i: usize = 0;
    assert(relation_models(rows@) =~= kept(d, 0));
    while i < graph.relations.len()
        invariant
            i <= graph.relations@.len(),
            graph@ == old(graph)@,
            d == graph@.relations,
            relation_models(rows@) == kept(d, i as int),
        decreases graph.relations@.len() - i,
    {
        let ghost done = relation_models(rows@);
        assert(d[i as int] == graph.relations@[i as int]@);
        if is_first(&graph.relations, i) {
            rows.push(graph.relations[i]);
            assert(relation_models(rows@) =~= done.push(d[i as int]));
        }
        i += 1;
    }
    graph.relations = rows;
}

/// Counts the uses of every type anew.
fn rebuild_types(graph: &mut Graph)
    requires
        auditable(old(graph)@),
    ensures
        final(graph)@ == (GraphModel {
            types: old(graph)@.types.map_values(|t: TypeModel| with_count(old(graph)@, t)),
            ..old(graph)@
        }),
{
    let ghost start = graph@;
    let ghost f = |t: TypeModel| with_count(start, t);
    let mut i: usize = 0;
    while i < graph.types.len()
        invariant
            i <= graph.types@.len(),
            auditable(start),
            start.types.len() == graph.types@.len(),
            f == (|t: TypeModel| with_count(start, t)),
            graph@ == (GraphModel { types: graph@.types, ..start }),
            forall|j: int| i <= j < start.types.len() ==> graph@.types[j] == start.types[j],
            forall|j: int| 0 <= j < i ==> #[trigger] graph@.types[j] == f(start.types[j]),
        decreases graph.types@.len() - i,
    {
        let ghost prior = graph@.types;
        assert(prior[i as int] == graph.types@[i as int]@);
        assert(graph@.entities.len() == graph.entities@.len());
        assert(graph@.relations.len() == graph.relations@.len());
        let n: usize = count_uses(graph, i);
        assert(n == actual_count(start, start.types[i as int]));
        graph.types[i].count = n as i64;
        assert(graph@.types =~= prior.update(i as int, f(prior[i as int])));
        i += 1;
    }
    assert(graph@.types =~= start.types.map_values(f));
}

/// Counts the degrees of every entity anew.
fn rebuild_degrees(graph: &mut Graph)
    requires
        auditable(old(graph)@),
    ensures
        final(graph)@ == (GraphModel {
            entities: old(graph)@.entities.map_values(|e: EntityModel| with_degrees(old(graph)@, e)),
            ..old(graph)@
        }),
{
    let ghost start = graph@;
    let ghost f = |e: EntityModel| with_degrees(start, e);
    let mut i: usize = 0;
    while i < graph.entities.len()
        invariant
            i <= graph.entities@.len(),
            auditable(start),
            start.entities.len() == graph.entities@.len(),
            f == (|e: EntityModel| with_degrees(start, e)),
            graph@ == (GraphModel { entities: graph@.entities, ..start }),
            forall|j: int| i <= j < start.entities.len() ==> graph@.entities[j] == start.entities[j],
            forall|j: int| 0 <= j < i ==> #[trigger] graph@.entities[j] == f(start.entities[j]),
        decreases graph.entities@.len() - i,
    {
        let ghost prior = graph@.entities;
        assert(prior[i as int] == graph.entities@[i as int]@);
        assert(graph@.relations.len() == graph.relations@.len());
        let (out, inward): (usize, usize) = count_degrees(graph, graph.entities[i].id);
        graph.entities[i].out_deg = out as i64;
        graph.entities[i].in_deg = inward as i64;
        assert(graph@.entities =~= prior.update(i as int, f(prior[i as int])));
        i += 1;
    }
    assert(graph@.entities =~= start.entities.map_values(f));
}

/// Counts the counters that depend on relations anew.
pub fn rebuild_relation_caches(graph: &mut Graph)
    requires
        auditable(old(graph)@),
    ensures
        final(graph)@ == rebuilt(old(graph)@),
{
    let ghost start = graph@;
    assert(graph@.relations.len() == graph.relations@.len());
    graph.stat.relations = Some(graph.relations.len() as i64);
    let ghost totalled = graph@;
    rebuild_types(graph);
    let ghost counted = graph@;
    rebuild_degrees(graph);
    proof {
        assert(counted.types =~= start.types.map_values(|t: TypeModel| with_count(start, t))) by {
            assert forall|k: int| 0 <= k < start.types.len() implies #[trigger] counted.types[k]
                == with_count(start, start.types[k]) by {
                assert(counted.types[k] == with_count(totalled, totalled.types[k]));
            }
        }
        assert(graph@.entities =~= start.entities.map_values(|e: EntityModel| with_degrees(start, e))) by {
            assert forall|k: int| 0 <= k < start.entities.len() implies #[trigger] graph@.entities[k]
                == with_degrees(start, start.entities[k]) by {
                assert(graph@.entities[k] == with_degrees(counted, counted.entities[k]));
            }
        }
    }
}

/// How the index that keeps relations unique is declared.
#[derive(Debug)]
pub struct IndexShape {
    pub unique: bool,
    /// Whether the index covers every row.
    pub full: bool,
    pub columns: Vec<String>,
}

/// What is wrong with the index that keeps relations unique.
pub open spec fn index_fault(index: Option<IndexShape>) -> Option<Seq<char>> {
    match index {
        None => None,
        Some(shape) => if !shape.unique {
            Some("relation_unique_triple exists but is not unique"@)
        } else if !shape.full {
            Some("relation_unique_triple must not be a partial index"@)
        } else if texts(shape.columns@) != seq!["from_id"@, "to_id"@, "type_id"@] {
            Some("relation_unique_triple does not enforce the relation triple"@)
        } else {
            None
        },
    }
}

/// Checks the index that keeps relations unique. Returns whether it is
/// missing and has to be created.
pub fn ensure_relation_unique_index(index: &Option<IndexShape>) -> (r: Result<bool>)
    ensures
        match r {
            Ok(create) => index_fault(*index) is None && create == (index is None),
            Err(e) => (index_fault(*index) matches Some(w) && (e matches MCSError::MemoryError(m) && m@
                == w)),
        },
{
    match index {
        None => Ok(true),
        Some(shape) => {
            if !shape.unique {
                return Err(memory("relation_unique_triple exists but is not unique"));
            }
            if !shape.full {
                return Err(memory("relation_unique_triple must not be a partial index"));
            }
            let mut wanted: Vec<String> = Vec::new();
            wanted.push("from_id".to_owned());
            wanted.push("to_id".to_owned());
            wanted.push("type_id".to_owned());
            assert(texts(wanted@) =~= seq!["from_id"@, "to_id"@, "type_id"@]);
            if crate::text::same_texts(&shape.columns, &wanted) {
                Ok(false)
            } else {
                Err(memory("relation_unique_triple does not enforce the relation triple"))
            }
        },
    }
}

/// Whether a repair may start: the operator has confirmed it and has named a
/// place for the backup.
pub fn admit_repair(backup: bool, confirmed: bool) -> (r: Result<()>)
    ensures
        r is Ok <==> confirmed && backup,
        !confirmed ==> (r matches Err(MCSError::InvalidParams(m)) && m@
            == "relation repair requires --confirm"@),
        confirmed && !backup ==> (r matches Err(MCSError::InvalidParams(m)) && m@
            == "relation repair requires a --backup path"@),
{
    if !confirmed {
        return Err(invalid("relation repair requires --confirm"));
    }
    if !backup {
        return Err(invalid("relation repair requires a --backup path"));
    }
    Ok(())
}

/// What an integrity check prints when it finds nothing.
pub open spec fn intact(lines: Seq<String>) -> bool {
    texts(lines) == seq!["ok"@]
}

/// Judges the lines of an integrity check.
pub fn require_integrity_check(lines: &Vec<String>, label: &str) -> (r: Result<()>)
    ensures
        r is Ok <==> intact(lines@),
        r matches Err(e) ==> (e matches MCSError::MemoryError(m) && m@ == label@
            + " database failed PRAGMA integrity_check"@),
{
    let mut wanted: Vec<String> = Vec::new();
    wanted.push("ok".to_owned());
    assert(texts(wanted@) =~= seq!["ok"@]);
    if crate::text::same_texts(lines, &wanted) {
        Ok(())
    } else {
        Err(
            MCSError::MemoryError(
                label.to_owned().concat(" database failed PRAGMA integrity_check"),
            ),
        )
    }
}

/// What the store's own checks found before a repair.
#[derive(Debug)]
pub struct Preflight {
    /// The lines of the integrity check of the backup; nothing where no
    /// backup was asked for.
    pub backup: Option<Vec<String>>,
    /// The lines of the integrity check of the source.
    pub source: Vec<String>,
    /// Whether the foreign key check returned a row.
    pub violations: bool,
    /// The index that keeps relations unique.
    pub index: Option<IndexShape>,
}

/// Why a repair is refused.
pub open spec fn repair_fault(m: GraphModel, found: Preflight, confirmed: bool) -> Option<MCSRefusal> {
    if !confirmed {
        Some(MCSRefusal::Params("relation repair requires --confirm"@))
    } else if found.backup is None {
        Some(MCSRefusal::Params("relation repair requires a --backup path"@))
    } else if !intact(found.backup->0@) {
        Some(MCSRefusal::Memory("backup"@ + " database failed PRAGMA integrity_check"@))
    } else if !intact(found.source@) {
        Some(MCSRefusal::Memory("source"@ + " database failed PRAGMA integrity_check"@))
    } else if found.violations {
        Some(MCSRefusal::Memory("relation repair refused: foreign_key_check returned violations"@))
    } else if !auditable(m) {
        Some(MCSRefusal::Memory("too many rows to audit"@))
    } else if count_of(m.relations, dangles(m)) != 0 {
        Some(
            MCSRefusal::Memory(
                "relation repair refused: dangling relation rows require explicit remediation"@,
            ),
        )
    } else {
        match index_fault(found.index) {
            Some(w) => Some(MCSRefusal::Memory(w)),
            None => None,
        }
    }
}

/// The sort and the words of a refusal.
pub enum MCSRefusal {
    Params(Seq<char>),
    Memory(Seq<char>),
}

impl MCSRefusal {
    /// The error says so.
    pub open spec fn is(self, e: MCSError) -> bool {
        match self {
            MCSRefusal::Params(w) => e matches MCSError::InvalidParams(m) && m@ == w,
            MCSRefusal::Memory(w) => e matches MCSError::MemoryError(m) && m@ == w,
        }
    }
}

/// Repairs the relation rows and the counters that depend on them. The graph
/// is untouched unless the repair succeeds.
pub fn repair(graph: &mut Graph, found: &Preflight, confirmed: bool) -> (r: Result<RepairReport>)
    ensures
        match r {
            Ok(report) => {
                &&& repair_fault(old(graph)@, *found, confirmed) is None
                &&& final(graph)@ == repaired(old(graph)@)
                &&& audits(report.before, old(graph)@)
                &&& audits(report.after, final(graph)@)
                &&& report.after.clean()
            },
            Err(e) => {
                &&& final(graph)@ == old(graph)@
                &&& repair_fault(old(graph)@, *found, confirmed) matches Some(why) && why.is(e)
            },
        },
{
    let ghost m = graph@;
    match admit_repair(found.backup.is_some(), confirmed) {
        Ok(_) => {},
        Err(e) => {
            return Err(e);
        },
    }
    if let Some(lines) = &found.backup {
        match require_integrity_check(lines, "backup") {
            Ok(_) => {},
            Err(e) => {
                return Err(e);
            },
        }
    }
    match require_integrity_check(&found.source, "source") {
        Ok(_) => {},
        Err(e) => {
            return Err(e);
        },
    }
    if found.violations {
        return Err(memory("relation repair refused: foreign_key_check returned violations"));
    }
    let before: AuditReport = match audit(graph) {
        Ok(report) => report,
        Err(e) => {
            return Err(e);
        },
    };
    if before.dangling_relation_rows != 0 {
        return Err(
            memory("relation repair refused: dangling relation rows require explicit remediation"),
        );
    }
    match ensure_relation_unique_index(&found.index) {
        Ok(_) => {},
        Err(e) => {
            return Err(e);
        },
    }
    let mut work: Graph = graph.clone();
    deduplicate(&mut work);
    proof {
        lemma_kept(m.relations, m.relations.len() as int);
    }
    rebuild_relation_caches(&mut work);
    let after: AuditReport = match audit(&work) {
        Ok(report) => report,
        Err(e) => {
            return Err(e);
        },
    };
    proof {
        law_repair_gives_a_clean_audit(m, after);
    }
    *graph = work;
    Ok(RepairReport { before, after })
}

/// Relations are counted each for themselves: where no row of one list stores a
/// relation of the other, both lists together repeat as much as each does. Of
/// rows that all store one relation every one but the first repeats it.
pub proof fn law_repetitions_are_counted(a: Seq<RelationModel>, b: Seq<RelationModel>)
    ensures
        (forall|i: int, j: int|
            0 <= i < a.len() && 0 <= j < b.len() ==> !(#[trigger] like(b[j])(#[trigger] a[i]))) ==> repeats(a + b)
            == repeats(a) + repeats(b) && repeated_groups(a + b) == repeated_groups(a) + repeated_groups(b),
        b.len() > 0 && (forall|i: int, j: int|
            0 <= i < b.len() && 0 <= j < b.len() ==> #[trigger] like(b[j])(#[trigger] b[i])) ==> repeats(b) == b.len()
            - 1 && repeated_groups(b) == (if b.len() >= 2 {
            1int
        } else {
            0int
        }),
    decreases b.len(),
{
    if b.len() == 0 {
        assert(a + b =~= a);
    } else {
        let front = b.drop_last();
        let last = b.len() - 1;
        law_repetitions_are_counted(a, front);
        assert((a + b).drop_last() =~= a + front);
        assert((a + b).last() == b.last());
        assert(b[last] == b.last());
        let p = like(b.last());
        crate::counters::law_counts_add_up(a, front, b.last(), p);
        if forall|i: int, j: int|
            0 <= i < a.len() && 0 <= j < b.len() ==> !(#[trigger] like(b[j])(#[trigger] a[i])) {
            assert forall|i: int, j: int| 0 <= i < a.len() && 0 <= j < front.len() implies !(#[trigger] like(
                front[j],
            )(#[trigger] a[i])) by {
                assert(front[j] == b[j]);
                assert(!like(b[j])(a[i]));
            }
            assert forall|i: int| 0 <= i < a.len() implies !p(#[trigger] a[i]) by {
                assert(!like(b[last])(a[i]));
            }
            lemma_count_none(a, p);
        }
        if forall|i: int, j: int|
            0 <= i < b.len() && 0 <= j < b.len() ==> #[trigger] like(b[j])(#[trigger] b[i]) {
            assert forall|i: int, j: int| 0 <= i < front.len() && 0 <= j < front.len() implies #[trigger] like(
                front[j],
            )(#[trigger] front[i]) by {
                assert(front[j] == b[j] && front[i] == b[i]);
                assert(like(b[j])(b[i]));
            }
            assert forall|i: int| 0 <= i < front.len() implies p(#[trigger] front[i]) by {
                assert(front[i] == b[i]);
                assert(like(b[last])(b[i]));
            }
            lemma_count_all(front, p);
        }
    }
}

proof fn lemma_count_all<A>(s: Seq<A>, p: spec_fn(A) -> bool)
    requires
        forall|i: int| 0 <= i < s.len() ==> p(#[trigger] s[i]),
    ensures
        count_of(s, p) == s.len(),
    decreases s.len(),
{
    if s.len() > 0 {
        let t = s.drop_last();
        assert forall|i: int| 0 <= i < t.len() implies p(#[trigger] t[i]) by {
            assert(t[i] == s[i]);
        }
        lemma_count_all(t, p);
        assert(s[s.len() - 1] == s.last());
    }
}

/// Two rows that store the same relation are noticed, wherever they stand.
pub proof fn law_every_repetition_is_noticed(rs: Seq<RelationModel>)
    ensures
        repeats(rs) >= 0 && repeated_groups(rs) >= 0,
        repeats(rs) == 0 <==> forall|i: int, j: int| 0 <= i < j < rs.len() ==> !#[trigger] like(rs[j])(rs[i]),
        repeated_groups(rs) == 0 <==> repeats(rs) == 0,
    decreases rs.len(),
{
    if rs.len() > 0 {
        let front = rs.drop_last();
        let last = rs.len() - 1;
        law_every_repetition_is_noticed(front);
        let p = like(rs.last());
        assert(rs[last] == rs.last());
        crate::counters::lemma_count_bounds(front, p);
        assert forall|i: int, j: int| 0 <= i < j < front.len() implies like(front[j])(front[i]) == #[trigger] like(
            rs[j],
        )(rs[i]) by {
            assert(front[j] == rs[j] && front[i] == rs[i]);
        }
        if count_of(front, p) == 0 {
            lemma_count_zero(front, p);
            if repeats(front) == 0 {
                assert forall|i: int, j: int| 0 <= i < j < rs.len() implies !#[trigger] like(rs[j])(rs[i]) by {
                    if j == last {
                        assert(!p(front[i]));
                    } else {
                        assert(!like(front[j])(front[i]));
                    }
                }
            } else {
                let (i, j) = choose|i: int, j: int| 0 <= i < j < front.len() && #[trigger] like(front[j])(front[i]);
                assert(like(rs[j])(rs[i]));
            }
        } else {
            if forall|i: int| 0 <= i < front.len() ==> !p(#[trigger] front[i]) {
                lemma_count_none(front, p);
            }
            let i = choose|i: int| 0 <= i < front.len() && p(#[trigger] front[i]);
            assert(like(rs[last])(rs[i]));
            if count_of(front, p) > 1 && repeats(front) == 0 {
                lemma_two(front, p);
                let (x, y) = choose|x: int, y: int|
                    0 <= x < y < front.len() && p(#[trigger] front[x]) && p(#[trigger] front[y]);
                assert(like(front[y])(front[x]));
            }
        }
    }
}

proof fn lemma_two<A>(s: Seq<A>, p: spec_fn(A) -> bool)
    requires
        count_of(s, p) >= 2,
    ensures
        exists|x: int, y: int| 0 <= x < y < s.len() && p(#[trigger] s[x]) && p(#[trigger] s[y]),
    decreases s.len(),
{
    let t = s.drop_last();
    if p(s.last()) {
        if forall|i: int| 0 <= i < t.len() ==> !p(#[trigger] t[i]) {
            lemma_count_none(t, p);
        }
        let x = choose|x: int| 0 <= x < t.len() && p(#[trigger] t[x]);
        assert(p(s[x]) && p(s[s.len() - 1]));
    } else {
        lemma_two(t, p);
        let (x, y) = choose|x: int, y: int| 0 <= x < y < t.len() && p(#[trigger] t[x]) && p(#[trigger] t[y]);
        assert(p(s[x]) && p(s[y]));
    }
}

/// An audit is clean exactly where the rows and the counters agree: no relation is
/// stored twice, every row has both its ends and its type, and every counter is
/// the number of the rows it counts.
pub proof fn law_what_a_clean_audit_means(report: AuditReport, m: GraphModel)
    requires
        audits(report, m),
    ensures
        report.clean() <==> {
            &&& forall|i: int, j: int|
                0 <= i < j < m.relations.len() ==> !#[trigger] like(m.relations[j])(m.relations[i])
            &&& forall|i: int|
                0 <= i < m.relations.len() ==> has_entity(m.entities, (#[trigger] m.relations[i]).from_id)
                    && has_entity(m.entities, m.relations[i].to_id) && has_relation_type(
                    m.types,
                    m.relations[i].type_id,
                )
            &&& m.stat.relations == Some(m.relations.len() as int)
            &&& forall|i: int|
                0 <= i < m.types.len() ==> (#[trigger] m.types[i]).count == actual_count(m, m.types[i])
            &&& forall|i: int|
                0 <= i < m.entities.len() ==> (#[trigger] m.entities[i]).out_deg == count_of(
                    m.relations,
                    |r: RelationModel| r.from_id == m.entities[i].id,
                ) && m.entities[i].in_deg == count_of(
                    m.relations,
                    |r: RelationModel| r.to_id == m.entities[i].id,
                )
        },
{
    law_every_repetition_is_noticed(m.relations);
    assert forall|id: int| #[trigger] rows_from(id) == (|r: RelationModel| r.from_id == id) by {
        assert(rows_from(id) =~= (|r: RelationModel| r.from_id == id));
    }
    assert forall|id: int| #[trigger] rows_to(id) == (|r: RelationModel| r.to_id == id) by {
        assert(rows_to(id) =~= (|r: RelationModel| r.to_id == id));
    }
    if report.clean() {
        lemma_count_zero(m.relations, dangles(m));
        lemma_count_zero(m.types, miscounted(m));
        lemma_count_zero(m.entities, out_drifted(m));
        lemma_count_zero(m.entities, in_drifted(m));
        assert forall|i: int| 0 <= i < m.relations.len() implies has_entity(
            m.entities,
            (#[trigger] m.relations[i]).from_id,
        ) && has_entity(m.entities, m.relations[i].to_id) && has_relation_type(m.types, m.relations[i].type_id) by {
            assert(!dangles(m)(m.relations[i]));
        }
        assert forall|i: int| 0 <= i < m.types.len() implies (#[trigger] m.types[i]).count == actual_count(
            m,
            m.types[i],
        ) by {
            assert(!miscounted(m)(m.types[i]));
        }
        assert forall|i: int| 0 <= i < m.entities.len() implies (#[trigger] m.entities[i]).out_deg == count_of(
            m.relations,
            rows_from(m.entities[i].id),
        ) && m.entities[i].in_deg == count_of(m.relations, rows_to(m.entities[i].id)) by {
            assert(!out_drifted(m)(m.entities[i]));
            assert(!in_drifted(m)(m.entities[i]));
        }
    }
    if forall|i: int|
        0 <= i < m.relations.len() ==> has_entity(m.entities, (#[trigger] m.relations[i]).from_id) && has_entity(
            m.entities,
            m.relations[i].to_id,
        ) && has_relation_type(m.types, m.relations[i].type_id) {
        lemma_count_none(m.relations, dangles(m));
    }
    if forall|i: int| 0 <= i < m.types.len() ==> (#[trigger] m.types[i]).count == actual_count(m, m.types[i]) {
        lemma_count_none(m.types, miscounted(m));
    }
    if forall|i: int|
        0 <= i < m.entities.len() ==> (#[trigger] m.entities[i]).out_deg == count_of(
            m.relations,
            |r: RelationModel| r.from_id == m.entities[i].id,
        ) && m.entities[i].in_deg == count_of(m.relations, |r: RelationModel| r.to_id == m.entities[i].id) {
        assert forall|i: int| 0 <= i < m.entities.len() implies !out_drifted(m)(#[trigger] m.entities[i])
            && !in_drifted(m)(m.entities[i]) by {
            let id = m.entities[i].id;
            assert(rows_from(id) == (|r: RelationModel| r.from_id == id));
            assert(rows_to(id) == (|r: RelationModel| r.to_id == id));
        }
        lemma_count_none(m.entities, out_drifted(m));
        lemma_count_none(m.entities, in_drifted(m));
    }
}

/// A repair changes no name, no type and no observation: of an entity only its
/// degrees, of a type only its count, and everything else of the graph stays.
pub proof fn law_a_repair_touches_counters_alone(m: GraphModel, k: int)
    ensures
        repaired(m).entities.len() == m.entities.len(),
        repaired(m).types.len() == m.types.len(),
        0 <= k < m.entities.len() ==> repaired(m).entities[k] == (EntityModel {
            out_deg: repaired(m).entities[k].out_deg,
            in_deg: repaired(m).entities[k].in_deg,
            ..m.entities[k]
        }),
        0 <= k < m.types.len() ==> repaired(m).types[k] == (TypeModel {
            count: repaired(m).types[k].count,
            ..m.types[k]
        }),
        repaired(m).stat == (StatModel { relations: repaired(m).stat.relations, ..m.stat }),
{
}

/// A repair goes ahead exactly where it was confirmed, with a sound backup of a
/// sound source, where nothing dangles and the index, if there is one, keeps each
/// relation unique.
pub proof fn law_which_repairs_go_ahead(m: GraphModel, found: Preflight, confirmed: bool)
    ensures
        repair_fault(m, found, confirmed) is None <==> {
            &&& confirmed
            &&& found.backup matches Some(b) && texts(b@) == seq!["ok"@]
            &&& texts(found.source@) == seq!["ok"@]
            &&& !found.violations
            &&& m.entities.len() <= i64::MAX && m.relations.len() <= i64::MAX && m.types.len() <= i64::MAX
            &&& count_of(m.relations, dangles(m)) == 0
            &&& found.index matches Some(x) ==> x.unique && x.full && texts(x.columns@) == seq![
                "from_id"@,
                "to_id"@,
                "type_id"@,
            ]
        },
{
}

/// A row dangles exactly where one of its ends, or its type as one of relations,
/// is nowhere among the rows.
pub proof fn law_what_dangling_means(m: GraphModel, r: RelationModel, a: int, b: int, t: int)
    requires
        0 <= a < m.entities.len(),
        0 <= b < m.entities.len(),
        0 <= t < m.types.len(),
        m.entities[a].id == r.from_id,
        m.entities[b].id == r.to_id,
        m.types[t].id == r.type_id && m.types[t].kind == RELATION_KIND,
    ensures
        !dangles(m)(r),
        forall|other: GraphModel|
            (forall|i: int| 0 <= i < other.entities.len() ==> (#[trigger] other.entities[i]).id != r.from_id)
                ==> #[trigger] dangles(other)(r),
{
    assert(has_entity(m.entities, r.from_id));
    assert(has_entity(m.entities, r.to_id));
}

/// The row that a repair keeps of a relation was written before every other row
/// of it, or at the same time and stands before it.
pub proof fn law_what_is_kept_was_written_first(rs: Seq<RelationModel>, i: int, j: int)
    requires
        0 <= i < rs.len(),
        0 <= j < rs.len(),
        i != j,
        rs[i].from_id == rs[j].from_id && rs[i].to_id == rs[j].to_id && rs[i].type_id == rs[j].type_id,
        keeps(rs, i),
    ensures
        rs[i].created_us <= rs[j].created_us,
        rs[i].created_us == rs[j].created_us ==> i < j,
        !keeps(rs, j),
{
    assert(like(rs[i])(rs[j]));
    assert(like(rs[j])(rs[i]));
}

/// After a repair the rows are those that are kept, in their order.
pub proof fn law_the_kept_rows_stay_in_order(rs: Seq<RelationModel>, n: int)
    requires
        0 <= n < rs.len(),
    ensures
        keeps(rs, n) ==> kept(rs, n + 1) == kept(rs, n).push(rs[n]),
        !keeps(rs, n) ==> kept(rs, n + 1) == kept(rs, n),
        kept(rs, 0).len() == 0,
{
}

} // verus!
