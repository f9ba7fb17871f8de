//! Entities and relations as callers see them.
use vstd::prelude::*;

use crate::order::{before, lemma_before_irreflexive, lemma_before_transitive, place, Placed};
use crate::text::{copy_texts, same, texts};

verus! {

#[derive(Debug, PartialEq, Eq)]
pub struct Entity {
    pub name: String,
    pub entity_type: String,
    pub observations: Vec<String>,
}

/// Read model of one entity with its incident graph context.
///
/// This extends, rather than replaces, [`Entity`]: entity creation and graph
/// exports keep their shape while callers of the richer read get the context.
#[derive(Debug, PartialEq, Eq)]
pub struct EntityDescription {
    pub name: String,
    pub entity_type: String,
    pub observations: Vec<String>,
    pub relations: Vec<Relation>,
    pub neighbors: Vec<String>,
    pub degree: Degree,
}

#[derive(Debug, Clone, Copy, PartialEq, Eq)]
pub struct Degree {
    pub incoming: i64,
    pub outgoing: i64,
}

#[derive(Debug, PartialEq, Eq, PartialOrd, Ord)]
pub struct Relation {
    pub from: String,
    pub to: String,
    pub relation_type: String,
}

#[derive(Debug, PartialEq, Eq)]
pub struct KnowledgeGraphOut {
    pub entities: Vec<Entity>,
    pub relations: Vec<Relation>,
}

/// What an [`Entity`] holds.
#[verifier::ext_equal]
pub struct EntityData {
    pub name: Seq<char>,
    pub entity_type: Seq<char>,
    pub observations: Seq<Seq<char>>,
}

/// What a [`Relation`] holds.
#[verifier::ext_equal]
pub struct RelationData {
    pub from: Seq<char>,
    pub to: Seq<char>,
    pub relation_type: Seq<char>,
}

impl View for Entity {
    type V = EntityData;

    open spec fn view(&self) -> EntityData {
        EntityData {
            name: self.name@,
            entity_type: self.entity_type@,
            observations: texts(self.observations@),
        }
    }
}

impl View for Relation {
    type V = RelationData;

    open spec fn view(&self) -> RelationData {
        RelationData { from: self.from@, to: self.to@, relation_type: self.relation_type@ }
    }
}

/// What a list of entities holds.
pub open spec fn entities_data(v: Seq<Entity>) -> Seq<EntityData> {
    v.map_values(|e: Entity| e@)
}

/// What a list of relations holds.
pub open spec fn relations_data(v: Seq<Relation>) -> Seq<RelationData> {
    v.map_values(|r: Relation| r@)
}

impl Clone for Entity {
    fn clone(&self) -> (r: Self)
        ensures
            r@ == self@,
    {
        Entity {
            name: self.name.clone(),
            entity_type: self.entity_type.clone(),
            observations: copy_texts(&self.observations),
        }
    }
}

impl Clone for Relation {
    fn clone(&self) -> (r: Self)
        ensures
            r@ == self@,
    {
        Relation {
            from: self.from.clone(),
            to: self.to.clone(),
            relation_type: self.relation_type.clone(),
        }
    }
}

/// A copy of a list of entities.
pub fn copy_entities(v: &Vec<Entity>) -> (r: Vec<Entity>)
    ensures
        entities_data(r@) == entities_data(v@),
{
    let mut out: Vec<Entity> = Vec::new();
    let mut i: usize = 0;
    while i < v.len()
        invariant
            i <= v@.len(),
            entities_data(out@) =~= entities_data(v@).take(i as int),
        decreases v@.len() - i,
    {
        let ghost done = entities_data(out@);
        out.push(v[i].clone());
        assert(entities_data(out@) =~= done.push(entities_data(v@)[i as int]));
        i += 1;
    }
    assert(entities_data(v@).take(v@.len() as int) =~= entities_data(v@));
    out
}

/// A copy of a list of relations.
pub fn copy_relations(v: &Vec<Relation>) -> (r: Vec<Relation>)
    ensures
        relations_data(r@) == relations_data(v@),
{
    let mut out: Vec<Relation> = Vec::new();
    let mut i: usize = 0;
    while i < v.len()
        invariant
            i <= v@.len(),
            relations_data(out@) =~= relations_data(v@).take(i as int),
        decreases v@.len() - i,
    {
        let ghost done = relations_data(out@);
        out.push(v[i].clone());
        assert(relations_data(out@) =~= done.push(relations_data(v@)[i as int]));
        i += 1;
    }
    assert(relations_data(v@).take(v@.len() as int) =~= relations_data(v@));
    out
}

impl Relation {
    /// Whether two relations say the same.
    pub fn same(&self, other: &Relation) -> (r: bool)
        ensures
            r == (self@ == other@),
    {
        same(&self.from, &other.from) && same(&self.to, &other.to) && same(
            &self.relation_type,
            &other.relation_type,
        )
    }

    /// Whether the relation begins or ends at an entity of that name.
    pub fn touches(&self, name: &str) -> (r: bool)
        ensures
            r == self@.touches(name@),
    {
        same(&self.from, name) || same(&self.to, name)
    }
}

impl RelationData {
    /// Whether the relation begins or ends at an entity of that name.
    pub open spec fn touches(self, name: Seq<char>) -> bool {
        self.from == name || self.to == name
    }
}

/// The order of relations: by source, then by destination, then by type.
pub open spec fn relation_before(a: RelationData, b: RelationData) -> bool {
    ||| before(a.from, b.from)
    ||| a.from == b.from && before(a.to, b.to)
    ||| a.from == b.from && a.to == b.to && before(a.relation_type, b.relation_type)
}

/// No relation comes before itself.
pub proof fn lemma_relation_irreflexive(a: RelationData)
    ensures
        !relation_before(a, a),
{
    lemma_before_irreflexive(a.from);
    lemma_before_irreflexive(a.to);
    lemma_before_irreflexive(a.relation_type);
}

/// The order of relations is transitive.
pub proof fn lemma_relation_transitive(a: RelationData, b: RelationData, c: RelationData)
    requires
        relation_before(a, b),
        relation_before(b, c),
    ensures
        relation_before(a, c),
{
    if before(a.from, b.from) && before(b.from, c.from) {
        lemma_before_transitive(a.from, b.from, c.from);
    }
    if before(a.to, b.to) && before(b.to, c.to) {
        lemma_before_transitive(a.to, b.to, c.to);
    }
    if before(a.relation_type, b.relation_type) && before(b.relation_type, c.relation_type) {
        lemma_before_transitive(a.relation_type, b.relation_type, c.relation_type);
    }
}

/// Compares two relations.
pub fn place_relation(a: &Relation, b: &Relation) -> (r: Placed)
    ensures
        match r {
            Placed::Before => relation_before(a@, b@),
            Placed::Same => a@ == b@,
            Placed::After => relation_before(b@, a@),
        },
{
    match place(&a.from, &b.from) {
        Placed::Same => match place(&a.to, &b.to) {
            Placed::Same => place(&a.relation_type, &b.relation_type),
            other => other,
        },
        other => other,
    }
}

/// The relations are in order; equal ones stand side by side.
pub open spec fn relations_sorted(s: Seq<RelationData>) -> bool {
    forall|i: int, j: int|
        0 <= i < j < s.len() ==> (#[trigger] s[i] == #[trigger] s[j] || relation_before(s[i], s[j]))
}

/// The relations are in order and none occurs twice.
pub open spec fn relations_ascending(s: Seq<RelationData>) -> bool {
    forall|i: int, j: int| 0 <= i < j < s.len() ==> relation_before(#[trigger] s[i], #[trigger] s[j])
}

/// Whether a list of relations holds the given one.
pub fn holds_relation(v: &Vec<Relation>, r: &Relation) -> (found: bool)
    ensures
        found == relations_data(v@).contains(r@),
{
    let mut i: usize = 0;
    while i < v.len()
        invariant
            i <= v@.len(),
            forall|j: int| 0 <= j < i ==> relations_data(v@)[j] != r@,
        decreases v@.len() - i,
    {
        if v[i].same(r) {
            assert(relations_data(v@)[i as int] == r@);
            return true;
        }
        i += 1;
    }
    false
}

/// The list with one relation put where the order wants it.
pub open spec fn put_relation(s: Seq<RelationData>, r: RelationData) -> Seq<RelationData>
    decreases s.len(),
{
    if s.len() == 0 || s.last() == r || relation_before(s.last(), r) {
        s.push(r)
    } else {
        put_relation(s.drop_last(), r).push(s.last())
    }
}

/// The relations in order.
pub open spec fn sort_relations(s: Seq<RelationData>) -> Seq<RelationData>
    decreases s.len(),
{
    if s.len() == 0 {
        s
    } else {
        put_relation(sort_relations(s.drop_last()), s.last())
    }
}

/// Putting a relation into a list adds exactly that relation.
pub proof fn lemma_put_relation(s: Seq<RelationData>, r: RelationData)
    ensures
        put_relation(s, r).to_multiset() == s.to_multiset().insert(r),
        forall|x: RelationData| #[trigger]
            put_relation(s, r).contains(x) <==> s.contains(x) || x == r,
        relations_sorted(s) ==> relations_sorted(put_relation(s, r)),
        put_relation(s, r).len() == s.len() + 1,
    decreases s.len(),
{
    broadcast use vstd::seq_lib::group_to_multiset_ensures;

    let p = put_relation(s, r);
    if s.len() == 0 || s.last() == r || relation_before(s.last(), r) {
        assert forall|x: RelationData| p.contains(x) <==> s.contains(x) || x == r by {
            if s.contains(x) {
                assert(p[s.index_of(x)] == x);
            }
            assert(p[s.len() as int] == r);
        }
        if relations_sorted(s) {
            assert forall|i: int, j: int| 0 <= i < j < p.len() implies (#[trigger] p[i] == #[trigger] p[j]
                || relation_before(p[i], p[j])) by {
                if j == s.len() && i < s.len() - 1 {
                    assert(s[i] == s[s.len() - 1] || relation_before(s[i], s[s.len() - 1]));
                    if relation_before(s[i], s.last()) && relation_before(s.last(), r) {
                        lemma_relation_transitive(s[i], s.last(), r);
                    }
                }
            }
        }
    } else {
        let t = s.drop_last();
        let q = put_relation(t, r);
        lemma_put_relation(t, r);
        assert(t.push(s.last()) =~= s);
        assert(p.to_multiset() =~= s.to_multiset().insert(r));
        assert forall|x: RelationData| p.contains(x) <==> s.contains(x) || x == r by {
            assert(p[q.len() as int] == s.last());
            assert(s[s.len() - 1] == s.last());
            if q.contains(x) {
                assert(p[q.index_of(x)] == x);
            }
            if p.contains(x) && x != s.last() {
                assert(q[p.index_of(x)] == x);
            }
            if s.contains(x) && x != s.last() {
                assert(t[s.index_of(x)] == x);
            }
            if t.contains(x) {
                assert(s[t.index_of(x)] == x);
            }
        }
        if relations_sorted(s) {
            assert(relations_sorted(t)) by {
                assert forall|i: int, j: int| 0 <= i < j < t.len() implies (#[trigger] t[i] == #[trigger] t[j]
                    || relation_before(t[i], t[j])) by {
                    assert(t[i] == s[i] && t[j] == s[j]);
                }
            }
            assert forall|i: int, j: int| 0 <= i < j < p.len() implies (#[trigger] p[i] == #[trigger] p[j]
                || relation_before(p[i], p[j])) by {
                if j == q.len() {
                    assert(q.contains(p[i])) by {
                        assert(q[i] == p[i]);
                    }
                    if p[i] != r {
                        let k = t.index_of(p[i]);
                        assert(s[k] == s[s.len() - 1] || relation_before(s[k], s[s.len() - 1]));
                    } else {
                        lemma_relation_total(s.last(), r);
                    }
                } else {
                    assert(q[i] == p[i] && q[j] == p[j]);
                }
            }
        }
    }
}

/// Of two different relations one comes before the other.
pub proof fn lemma_relation_total(a: RelationData, b: RelationData)
    ensures
        a == b || relation_before(a, b) || relation_before(b, a),
{
    crate::order::lemma_before_total(a.from, b.from);
    crate::order::lemma_before_total(a.to, b.to);
    crate::order::lemma_before_total(a.relation_type, b.relation_type);
}

/// Sorting keeps exactly the relations that were there and orders them.
pub proof fn lemma_sort_relations(s: Seq<RelationData>)
    ensures
        sort_relations(s).to_multiset() == s.to_multiset(),
        relations_sorted(sort_relations(s)),
        sort_relations(s).len() == s.len(),
        forall|x: RelationData| #[trigger] sort_relations(s).contains(x) <==> s.contains(x),
    decreases s.len(),
{
    broadcast use vstd::seq_lib::group_to_multiset_ensures;

    if s.len() > 0 {
        let t = s.drop_last();
        lemma_sort_relations(t);
        lemma_put_relation(sort_relations(t), s.last());
        assert(t.push(s.last()) =~= s);
        assert forall|x: RelationData| #[trigger] sort_relations(s).contains(x) <==> s.contains(x) by {
            assert(s[s.len() - 1] == s.last());
            if s.contains(x) && x != s.last() {
                assert(t[s.index_of(x)] == x);
            }
            if t.contains(x) {
                assert(s[t.index_of(x)] == x);
            }
        }
    }
}

/// Sorts relations.
pub fn sorted_relations(v: Vec<Relation>) -> (r: Vec<Relation>)
    ensures
        relations_data(r@) == sort_relations(relations_data(v@)),
{
    let mut out: Vec<Relation> = Vec::new();
    let mut i: usize = 0;
    let ghost d = relations_data(v@);
    assert(relations_data(out@) =~= sort_relations(d.take(0)));
    while i < v.len()
        invariant
            i <= v@.len(),
            d == relations_data(v@),
            relations_data(out@) == sort_relations(d.take(i as int)),
        decreases v@.len() - i,
    {
        let ghost s = relations_data(out@);
        let ghost start = out@;
        let x: Relation = v[i].clone();
        let ghost xd = x@;
        let mut k: usize = out.len();
        let mut going: bool = true;
        assert(out@.skip(k as int) =~= Seq::<Relation>::empty());
        assert(s.take(k as int) =~= s);
        assert(s.skip(k as int) =~= Seq::<RelationData>::empty());
        assert(put_relation(s.take(k as int), xd) + s.skip(k as int) =~= put_relation(s, xd));
        while going
            invariant
                k <= out@.len(),
                out@ == start,
                s == relations_data(start),
                xd == x@,
                put_relation(s, xd) == put_relation(s.take(k as int), xd) + s.skip(k as int),
                !going ==> put_relation(s.take(k as int), xd) == s.take(k as int).push(xd),
            decreases k, (if going { 1int } else { 0int }),
        {
            if k == 0 {
                going = false;
            } else {
                let ghost c = s.take(k as int);
                assert(c.last() == out@[k - 1]@);
                match place_relation(&out[k - 1], &x) {
                    Placed::After => {
                        proof {
                            if relation_before(c.last(), xd) {
                                lemma_relation_transitive(xd, c.last(), xd);
                            }
                            lemma_relation_irreflexive(xd);
                            assert(c.drop_last() =~= s.take(k - 1));
                            assert(put_relation(s.take(k - 1), xd) + s.skip(k - 1) =~= put_relation(
                                s.take(k as int),
                                xd,
                            ) + s.skip(k as int));
                        }
                        k -= 1;
                    },
                    _ => {
                        going = false;
                    },
                }
            }
        }
        out.insert(k, x);
        assert(relations_data(out@) =~= s.take(k as int).push(xd) + s.skip(k as int));
        proof {
            assert(d.take(i + 1).drop_last() =~= d.take(i as int));
        }
        i += 1;
    }
    assert(d.take(v@.len() as int) =~= d);
    out
}

/// The list holds exactly the relations of the set, in order, each once.
pub open spec fn lists_relations(s: Seq<RelationData>, set: Set<RelationData>) -> bool {
    relations_ascending(s) && (forall|x: RelationData| #[trigger] s.contains(x) <==> set.contains(x))
}

/// Only one order lists a set of relations.
pub proof fn lemma_relations_listed_once(a: Seq<RelationData>, b: Seq<RelationData>, set: Set<RelationData>)
    requires
        lists_relations(a, set),
        lists_relations(b, set),
    ensures
        a == b,
    decreases a.len(),
{
    if a.len() == 0 {
        if b.len() > 0 {
            assert(b.contains(b[0]));
            assert(a.contains(b[0]));
        }
        assert(a =~= b);
    } else {
        let x = a.last();
        assert(a[a.len() - 1] == x);
        assert(a.contains(x));
        assert(b.contains(x));
        let i = b.index_of(x);
        let last = b.len() - 1;
        if i < last {
            assert(relation_before(b[i], b[last]));
            assert(b.contains(b[last]));
            assert(a.contains(b[last]));
            let k = a.index_of(b[last]);
            if k < a.len() - 1 {
                assert(relation_before(a[k], a[a.len() - 1]));
                lemma_relation_transitive(b[i], b[last], b[i]);
            }
            lemma_relation_irreflexive(b[i]);
        }
        lemma_lists_all_but_the_last(a, set);
        lemma_lists_all_but_the_last(b, set);
        lemma_relations_listed_once(a.drop_last(), b.drop_last(), set.remove(x));
        assert(a =~= a.drop_last().push(x));
        assert(b =~= b.drop_last().push(x));
    }
}

proof fn lemma_lists_all_but_the_last(s: Seq<RelationData>, set: Set<RelationData>)
    requires
        lists_relations(s, set),
        s.len() > 0,
    ensures
        lists_relations(s.drop_last(), set.remove(s.last())),
{
    let t = s.drop_last();
    let x = s.last();
    assert forall|i: int, j: int| 0 <= i < j < t.len() implies relation_before(#[trigger] t[i], #[trigger] t[j]) by {
        assert(relation_before(s[i], s[j]));
    }
    assert forall|y: RelationData| #[trigger] t.contains(y) <==> set.remove(x).contains(y) by {
        if t.contains(y) {
            let k = t.index_of(y);
            assert(s[k] == y);
            assert(s.contains(y));
            assert(relation_before(s[k], s[s.len() - 1]));
            lemma_relation_irreflexive(x);
        }
        if set.contains(y) && y != x {
            assert(s.contains(y));
            let k = s.index_of(y);
            assert(t[k] == y);
        }
    }
}

/// Adds a relation to an ascending list, unless it is there.
pub fn insert_relation(v: &mut Vec<Relation>, x: &Relation)
    requires
        relations_ascending(relations_data(old(v)@)),
    ensures
        relations_ascending(relations_data(final(v)@)),
        forall|y: RelationData| #[trigger]
            relations_data(final(v)@).contains(y) <==> relations_data(old(v)@).contains(y) || y == x@,
{
    let ghost s = relations_data(v@);
    let mut i: usize = 0;
    let mut going: bool = true;
    while going && i < v.len()
        invariant
            i <= v@.len(),
            s == relations_data(v@),
            relations_ascending(s),
            forall|j: int| 0 <= j < i ==> relation_before(#[trigger] s[j], x@),
            !going ==> forall|j: int| i <= j < s.len() ==> relation_before(x@, #[trigger] s[j]),
        decreases v@.len() - i, (if going { 1int } else { 0int }),
    {
        assert(s[i as int] == v@[i as int]@);
        match place_relation(&v[i], x) {
            Placed::Before => {
                i += 1;
            },
            Placed::Same => {
                assert(s.contains(x@));
                return ;
            },
            Placed::After => {
                assert forall|j: int| i <= j < s.len() implies relation_before(x@, #[trigger] s[j]) by {
                    if j > i {
                        lemma_relation_transitive(x@, s[i as int], s[j]);
                    }
                }
                going = false;
            },
        }
    }
    v.insert(i, x.clone());
    proof {
        let n = relations_data(v@);
        assert(n =~= s.insert(i as int, x@));
        assert forall|p: int, q: int| 0 <= p < q < n.len() implies relation_before(
            #[trigger] n[p],
            #[trigger] n[q],
        ) by {
            if p < i && q > i {
                assert(relation_before(s[p], s[q - 1]));
            }
        }
        assert forall|y: RelationData| #[trigger] n.contains(y) <==> s.contains(y) || y == x@ by {
            if s.contains(y) {
                let k = s.index_of(y);
                assert(n[if k < i { k } else { k + 1 }] == y);
            }
            assert(n[i as int] == x@);
            if n.contains(y) && y != x@ {
                let k = n.index_of(y);
                assert(s[if k < i { k } else { k - 1 }] == y);
            }
        }
    }
}

/// Relations are ordered by where they begin, then by where they end, then by
/// their type; of two different ones exactly one comes first.
pub proof fn law_relations_are_ordered_by_their_parts(a: RelationData, b: RelationData)
    ensures
        before(a.from, b.from) ==> relation_before(a, b) && !relation_before(b, a),
        a.from == b.from && before(a.to, b.to) ==> relation_before(a, b) && !relation_before(b, a),
        a.from == b.from && a.to == b.to ==> (relation_before(a, b) <==> before(a.relation_type, b.relation_type)),
        a == b <==> !relation_before(a, b) && !relation_before(b, a),
{
    lemma_relation_total(a, b);
    lemma_relation_irreflexive(a);
    if relation_before(a, b) && relation_before(b, a) {
        lemma_relation_transitive(a, b, a);
    }
    lemma_before_irreflexive(a.from);
    lemma_before_irreflexive(a.to);
}

/// Sorting relations loses none and adds none: each stands there as often as it
/// did, and the smaller ones first.
pub proof fn law_sorting_keeps_every_relation(s: Seq<RelationData>, i: int, j: int)
    ensures
        sort_relations(s).to_multiset() == s.to_multiset(),
        sort_relations(s).len() == s.len(),
        0 <= i < j < s.len() ==> !relation_before(sort_relations(s)[j], sort_relations(s)[i]),
{
    lemma_sort_relations(s);
    if 0 <= i < j < s.len() {
        let t = sort_relations(s);
        if t[i] == t[j] {
            lemma_relation_irreflexive(t[i]);
        } else if relation_before(t[j], t[i]) {
            lemma_relation_transitive(t[i], t[j], t[i]);
            lemma_relation_irreflexive(t[i]);
        }
    }
}

/// A relation touches its two ends and nothing else.
pub proof fn law_a_relation_touches_its_ends(d: RelationData, name: Seq<char>)
    ensures
        d.touches(d.from) && d.touches(d.to),
        d.touches(name) ==> name == d.from || name == d.to,
{
}

/// Nothing of an entity or of a relation goes unseen, and a list shows
/// every item in its place.
pub proof fn law_nothing_goes_unseen(
    a: Entity,
    b: Relation,
    x: Seq<Entity>,
    y: Seq<Relation>,
    i: int,
)
    ensures
        a@.name == a.name@,
        a@.entity_type == a.entity_type@,
        a@.observations == texts(a.observations@),
        b@.from == b.from@,
        b@.to == b.to@,
        b@.relation_type == b.relation_type@,
        entities_data(x).len() == x.len(),
        0 <= i < x.len() ==> entities_data(x)[i] == x[i]@,
        relations_data(y).len() == y.len(),
        0 <= i < y.len() ==> relations_data(y)[i] == y[i]@,
{
}

} // verus!
