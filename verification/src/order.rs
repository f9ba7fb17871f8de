//! The order of texts and the sorted set of texts that it gives.
//!
//! Texts are compared scalar value by scalar value, which is the order of
//! their UTF-8 bytes.
use vstd::prelude::*;

use crate::text::{chars_of, copy_texts, texts};

verus! {

/// The texts agree up to `i`, where the first one ends or is smaller.
pub open spec fn parts_at(a: Seq<char>, b: Seq<char>, i: int) -> bool {
    &&& 0 <= i <= a.len()
    &&& i < b.len()
    &&& forall|j: int| 0 <= j < i ==> a[j] == b[j]
    &&& i == a.len() || a[i] < b[i]
}

/// Whether `a` comes before `b`.
pub open spec fn before(a: Seq<char>, b: Seq<char>) -> bool {
    exists|i: int| parts_at(a, b, i)
}

/// No text comes before itself.
pub proof fn lemma_before_irreflexive(a: Seq<char>)
    ensures
        !before(a, a),
{
}

/// The order of texts is transitive.
pub proof fn lemma_before_transitive(a: Seq<char>, b: Seq<char>, c: Seq<char>)
    requires
        before(a, b),
        before(b, c),
    ensures
        before(a, c),
{
    let i = choose|i: int| parts_at(a, b, i);
    let j = choose|j: int| parts_at(b, c, j);
    let k = if i <= j {
        i
    } else {
        j
    };
    assert(parts_at(a, c, k));
}

/// Of two different texts one comes before the other.
pub proof fn lemma_before_total(a: Seq<char>, b: Seq<char>)
    ensures
        a == b || before(a, b) || before(b, a),
    decreases a.len(),
{
    if a.len() == 0 || b.len() == 0 {
        if b.len() > 0 {
            assert(parts_at(a, b, 0));
        } else if a.len() > 0 {
            assert(parts_at(b, a, 0));
        } else {
            assert(a =~= b);
        }
    } else if a[0] != b[0] {
        assert(parts_at(a, b, 0) || parts_at(b, a, 0));
    } else {
        let (x, y) = (a.skip(1), b.skip(1));
        lemma_before_total(x, y);
        if x == y {
            assert forall|j: int| 0 <= j < a.len() implies a[j] == b[j] by {
                if j > 0 {
                    assert(x[j - 1] == y[j - 1]);
                }
            }
            assert(a =~= b);
        } else if before(x, y) {
            let i = choose|i: int| parts_at(x, y, i);
            assert forall|j: int| 0 <= j < i + 1 implies a[j] == b[j] by {
                if j > 0 {
                    assert(x[j - 1] == y[j - 1]);
                }
            }
            assert(parts_at(a, b, i + 1));
        } else {
            let i = choose|i: int| parts_at(y, x, i);
            assert forall|j: int| 0 <= j < i + 1 implies b[j] == a[j] by {
                if j > 0 {
                    assert(x[j - 1] == y[j - 1]);
                }
            }
            assert(parts_at(b, a, i + 1));
        }
    }
}

/// How two texts are ordered.
pub enum Placed {
    Before,
    Same,
    After,
}

/// Compares two texts.
pub fn place(a: &str, b: &str) -> (r: Placed)
    ensures
        match r {
            Placed::Before => before(a@, b@),
            Placed::Same => a@ == b@,
            Placed::After => before(b@, a@),
        },
{
    let x: Vec<char> = chars_of(a);
    let y: Vec<char> = chars_of(b);
    let mut i: usize = 0;
    while i < x.len() && i < y.len() && x[i] == y[i]
        invariant
            x@ == a@,
            y@ == b@,
            i <= x@.len(),
            i <= y@.len(),
            forall|j: int| 0 <= j < i ==> x@[j] == y@[j],
        decreases x@.len() - i,
    {
        i += 1;
    }
    if i < y.len() && (i == x.len() || x[i] < y[i]) {
        assert(parts_at(a@, b@, i as int));
        Placed::Before
    } else if i < x.len() {
        assert(parts_at(b@, a@, i as int));
        Placed::After
    } else {
        assert(a@ =~= b@);
        Placed::Same
    }
}

/// The texts are in order and none occurs twice.
pub open spec fn ascending(s: Seq<Seq<char>>) -> bool {
    forall|i: int, j: int| 0 <= i < j < s.len() ==> before(#[trigger] s[i], #[trigger] s[j])
}

/// The elements of a set in order.
pub open spec fn listed(set: Set<Seq<char>>) -> Seq<Seq<char>> {
    choose|s: Seq<Seq<char>>| #[trigger] ascending(s) && s.to_set() == set
}

/// Only one order lists a set.
pub proof fn lemma_listed_unique(a: Seq<Seq<char>>, b: Seq<Seq<char>>)
    requires
        ascending(a),
        ascending(b),
        a.to_set() == b.to_set(),
    ensures
        a == b,
    decreases a.len(),
{
    if a.len() == 0 {
        if b.len() > 0 {
            assert(b.to_set().contains(b[0]));
            assert(a.to_set().contains(b[0]));
        }
        assert(a =~= b);
    } else {
        assert(a.to_set().contains(a.last()));
        assert(b.to_set().contains(a.last()));
        assert(b.contains(a.last()));
        let i = b.index_of(a.last());
        let last = b.len() - 1;
        if i < last {
            assert(before(b[i], b[last]));
            assert(b.to_set().contains(b[last]));
            assert(a.to_set().contains(b[last]));
            assert(a.contains(b[last]));
            let k = a.index_of(b[last]);
            if k < a.len() - 1 {
                assert(before(a[k], a[a.len() - 1]));
                lemma_before_transitive(b[i], b[last], b[i]);
            }
            lemma_before_irreflexive(b[i]);
        }
        assert(b.last() == a.last());
        let (x, y) = (a.drop_last(), b.drop_last());
        assert forall|t: Seq<char>| x.to_set().contains(t) <==> y.to_set().contains(t) by {
            lemma_drop_last_set(a, t);
            lemma_drop_last_set(b, t);
        }
        assert(x.to_set() =~= y.to_set());
        assert(ascending(x)) by {
            assert forall|p: int, q: int| 0 <= p < q < x.len() implies before(#[trigger] x[p], #[trigger] x[q]) by {
                assert(before(a[p], a[q]));
            }
        }
        assert(ascending(y)) by {
            assert forall|p: int, q: int| 0 <= p < q < y.len() implies before(#[trigger] y[p], #[trigger] y[q]) by {
                assert(before(b[p], b[q]));
            }
        }
        lemma_listed_unique(x, y);
        assert(a =~= x.push(a.last()));
        assert(b =~= y.push(b.last()));
    }
}

proof fn lemma_drop_last_set(a: Seq<Seq<char>>, t: Seq<char>)
    requires
        ascending(a),
        a.len() > 0,
    ensures
        a.drop_last().to_set().contains(t) <==> a.to_set().contains(t) && t != a.last(),
{
    let x = a.drop_last();
    if x.contains(t) {
        let k = x.index_of(t);
        assert(a[k] == t);
        assert(before(a[k], a[a.len() - 1]));
        lemma_before_irreflexive(t);
    }
    if a.contains(t) && t != a.last() {
        let k = a.index_of(t);
        assert(x[k] == t);
    }
}

/// A set of texts, walked in order.
pub struct TextSet {
    items: Vec<String>,
}

impl View for TextSet {
    type V = Set<Seq<char>>;

    closed spec fn view(&self) -> Set<Seq<char>> {
        texts(self.items@).to_set()
    }
}

impl TextSet {
    #[verifier::type_invariant]
    spec fn sorted(self) -> bool {
        ascending(texts(self.items@))
    }

    /// The elements in order.
    pub closed spec fn in_order(&self) -> Seq<Seq<char>> {
        texts(self.items@)
    }

    /// The set without elements.
    pub fn new() -> (r: Self)
        ensures
            r@ == Set::<Seq<char>>::empty(),
    {
        let items: Vec<String> = Vec::new();
        assert(texts(items@).to_set() =~= Set::<Seq<char>>::empty());
        TextSet { items }
    }

    /// The position of a text, or the position where it belongs.
    fn seek(&self, s: &str) -> (r: (usize, bool))
        ensures
            r.1 ==> r.0 < self.in_order().len() && self.in_order()[r.0 as int] == s@,
            !r.1 ==> r.0 <= self.in_order().len() && (forall|j: int|
                0 <= j < r.0 ==> before(#[trigger] self.in_order()[j], s@)) && (forall|j: int|
                r.0 <= j < self.in_order().len() ==> before(s@, #[trigger] self.in_order()[j])),
    {
        proof {
            use_type_invariant(self);
        }
        let ghost t = texts(self.items@);
        let mut i: usize = 0;
        while i < self.items.len()
            invariant
                t == texts(self.items@),
                ascending(t),
                i <= self.items@.len(),
                forall|j: int| 0 <= j < i ==> before(#[trigger] t[j], s@),
            decreases self.items@.len() - i,
        {
            assert(t[i as int] == self.items@[i as int]@);
            match place(&self.items[i], s) {
                Placed::Before => {
                    i += 1;
                },
                Placed::Same => {
                    return (i, true);
                },
                Placed::After => {
                    assert forall|j: int| i <= j < t.len() implies before(s@, #[trigger] t[j]) by {
                        if j > i {
                            lemma_before_transitive(s@, t[i as int], t[j]);
                        }
                    }
                    return (i, false);
                },
            }
        }
        (i, false)
    }

    /// Adds a text. Returns whether it was new.
    pub fn insert(&mut self, s: &str) -> (r: bool)
        ensures
            final(self)@ == old(self)@.insert(s@),
            r == !old(self)@.contains(s@),
    {
        let (i, found): (usize, bool) = self.seek(s);
        proof {
            use_type_invariant(&*self);
        }
        let ghost t = texts(self.items@);
        if found {
            assert(t.contains(s@));
            assert(self@ =~= self@.insert(s@));
            return false;
        }
        let mut items: Vec<String> = Vec::new();
        std::mem::swap(&mut items, &mut self.items);
        let ghost u = items@;
        items.insert(i, s.to_owned());
        proof {
            let n = texts(items@);
            assert(n =~= t.insert(i as int, s@));
            assert forall|p: int, q: int| 0 <= p < q < n.len() implies before(#[trigger] n[p], #[trigger] n[q]) by {
                if p < i && q > i {
                    assert(before(t[p], t[q - 1]));
                }
            }
            assert forall|x: Seq<char>| n.to_set().contains(x) <==> t.to_set().insert(s@).contains(x) by {
                if t.contains(x) {
                    let k = t.index_of(x);
                    assert(n[if k < i { k } else { k + 1 }] == x);
                }
                if x == s@ {
                    assert(n[i as int] == s@);
                }
                if n.contains(x) && x != s@ {
                    let k = n.index_of(x);
                    assert(k != i);
                    assert(t[if k < i { k } else { k - 1 }] == x);
                }
            }
            assert(n.to_set() =~= t.to_set().insert(s@));
            if t.contains(s@) {
                let k = t.index_of(s@);
                lemma_before_irreflexive(s@);
                assert(before(t[k], s@) || before(s@, t[k]));
            }
        }
        self.items = items;
        true
    }

    /// Whether the text is an element.
    pub fn contains(&self, s: &str) -> (r: bool)
        ensures
            r == self@.contains(s@),
    {
        let (i, found): (usize, bool) = self.seek(s);
        proof {
            let t = texts(self.items@);
            if found {
                assert(t[i as int] == s@);
            } else if t.contains(s@) {
                let k = t.index_of(s@);
                lemma_before_irreflexive(s@);
                assert(before(t[k], s@) || before(s@, t[k]));
            }
        }
        found
    }

    /// The number of elements.
    pub fn len(&self) -> (r: usize)
        ensures
            r == self.in_order().len(),
    {
        self.items.len()
    }

    /// Whether there is no element.
    pub fn is_empty(&self) -> (r: bool)
        ensures
            r == (self@ == Set::<Seq<char>>::empty()),
    {
        proof {
            let t = texts(self.items@);
            if t.len() > 0 {
                assert(t.contains(t[0]));
                assert(self@.contains(t[0]));
            } else {
                assert(t.to_set() =~= Set::<Seq<char>>::empty());
            }
        }
        self.items.len() == 0
    }

    /// One element, counted in order.
    pub fn at(&self, i: usize) -> (r: &String)
        requires
            i < self.in_order().len(),
        ensures
            r@ == self.in_order()[i as int],
    {
        &self.items[i]
    }

    /// The elements, in order.
    pub fn to_vec(&self) -> (r: Vec<String>)
        ensures
            texts(r@) == self.in_order(),
            texts(r@) == listed(self@),
            texts(r@).to_set() == self@,
            ascending(texts(r@)),
    {
        proof {
            use_type_invariant(self);
            let t = texts(self.items@);
            assert(ascending(t) && t.to_set() == self@);
            lemma_listed_unique(t, listed(self@));
        }
        copy_texts(&self.items)
    }

    /// A set with the same elements.
    pub fn duplicate(&self) -> (r: Self)
        ensures
            r@ == self@,
            r.in_order() == self.in_order(),
    {
        proof {
            use_type_invariant(self);
        }
        TextSet { items: copy_texts(&self.items) }
    }

    /// The set of the texts in a list.
    pub fn from_list(v: &Vec<String>) -> (r: Self)
        ensures
            r@ == texts(v@).to_set(),
    {
        let mut out: TextSet = TextSet::new();
        let mut i: usize = 0;
        while i < v.len()
            invariant
                i <= v@.len(),
                out@ == texts(v@).take(i as int).to_set(),
            decreases v@.len() - i,
        {
            out.insert(&v[i]);
            proof {
                let t = texts(v@);
                assert(t.take(i + 1) =~= t.take(i as int).push(t[i as int]));
                assert forall|x: Seq<char>|
                    t.take(i + 1).to_set().contains(x) <==> t.take(i as int).to_set().insert(t[i as int]).contains(x) by {
                    if t.take(i as int).contains(x) {
                        let k = t.take(i as int).index_of(x);
                        assert(t.take(i + 1)[k] == x);
                    }
                    if x == t[i as int] {
                        assert(t.take(i + 1)[i as int] == x);
                    }
                }
                assert(out@ =~= t.take(i + 1).to_set());
            }
            i += 1;
        }
        assert(texts(v@).take(v@.len() as int) =~= texts(v@));
        out
    }
}

/// Texts are ordered by their first difference, the smaller scalar value first;
/// where one ends there, it comes first. Of two different texts exactly one comes
/// before the other.
pub proof fn law_texts_are_ordered_by_their_first_difference(
    head: Seq<char>,
    x: char,
    y: char,
    a: Seq<char>,
    b: Seq<char>,
)
    ensures
        x < y ==> before(head.push(x) + a, head.push(y) + b),
        before(head, head.push(x) + a),
        a == b <==> !before(a, b) && !before(b, a),
        !(before(a, b) && before(b, a)),
{
    if x < y {
        assert(parts_at(head.push(x) + a, head.push(y) + b, head.len() as int));
    }
    assert(parts_at(head, head.push(x) + a, head.len() as int));
    lemma_before_total(a, b);
    lemma_before_irreflexive(a);
    if before(a, b) && before(b, a) {
        lemma_before_transitive(a, b, a);
    }
}

/// A set is listed in the one order that there is: whatever lists its elements in
/// ascending order is its list.
pub proof fn law_a_set_is_listed_in_order(s: Seq<Seq<char>>)
    requires
        forall|i: int, j: int| 0 <= i < j < s.len() ==> before(#[trigger] s[i], #[trigger] s[j]),
    ensures
        listed(s.to_set()) == s,
        s.no_duplicates(),
{
    assert(ascending(s));
    let t = listed(s.to_set());
    assert(ascending(t) && t.to_set() == s.to_set());
    lemma_listed_unique(s, t);
    assert forall|i: int, j: int| 0 <= i < j < s.len() implies s[i] != s[j] by {
        lemma_before_irreflexive(s[i]);
    }
}

} // verus!
