//! A small keyed table: rows under distinct text keys, kept in the order in
//! which they were added.
use vstd::prelude::*;

use crate::text::same;

verus! {

/// The map that a list of keyed rows stands for.
pub open spec fn map_of<R>(s: Seq<(Seq<char>, R)>) -> Map<Seq<char>, R>
    decreases s.len(),
{
    if s.len() == 0 {
        Map::empty()
    } else {
        map_of(s.drop_last()).insert(s.last().0, s.last().1)
    }
}

/// No key occurs twice.
pub open spec fn keys_distinct<R>(s: Seq<(Seq<char>, R)>) -> bool {
    forall|i: int, j: int| 0 <= i < j < s.len() ==> (#[trigger] s[i]).0 != (#[trigger] s[j]).0
}

/// Every listed row is in the map, and nothing else is.
pub proof fn lemma_map_of<R>(s: Seq<(Seq<char>, R)>)
    requires
        keys_distinct(s),
    ensures
        forall|i: int|
            0 <= i < s.len() ==> map_of(s).contains_key((#[trigger] s[i]).0) && map_of(s)[s[i].0]
                == s[i].1,
        forall|k: Seq<char>| #[trigger]
            map_of(s).contains_key(k) ==> exists|i: int| 0 <= i < s.len() && (#[trigger] s[i]).0 == k,
    decreases s.len(),
{
    if s.len() > 0 {
        let t = s.drop_last();
        assert forall|i: int, j: int| 0 <= i < j < t.len() implies (#[trigger] t[i]).0 != (
        #[trigger] t[j]).0 by {
            assert(s[i].0 != s[j].0);
        }
        lemma_map_of(t);
        assert forall|i: int| 0 <= i < s.len() implies map_of(s).contains_key((#[trigger] s[i]).0)
            && map_of(s)[s[i].0] == s[i].1 by {
            if i < t.len() {
                assert(t[i] == s[i]);
                assert(s[i].0 != s[s.len() - 1].0);
            }
        }
        assert forall|k: Seq<char>| #[trigger] map_of(s).contains_key(k) implies exists|i: int|
            0 <= i < s.len() && (#[trigger] s[i]).0 == k by {
            if k == s.last().0 {
                assert(s[s.len() - 1].0 == k);
            } else {
                assert(map_of(t).contains_key(k));
                let i = choose|i: int| 0 <= i < t.len() && (#[trigger] t[i]).0 == k;
                assert(t[i] == s[i]);
            }
        }
    }
}

/// Replacing one row replaces it in the map.
pub proof fn lemma_map_update<R>(s: Seq<(Seq<char>, R)>, i: int, row: R)
    requires
        keys_distinct(s),
        0 <= i < s.len(),
    ensures
        keys_distinct(s.update(i, (s[i].0, row))),
        map_of(s.update(i, (s[i].0, row))) == map_of(s).insert(s[i].0, row),
{
    let t = s.update(i, (s[i].0, row));
    assert(keys_distinct(t));
    lemma_map_of(s);
    lemma_map_of(t);
    let (a, b) = (map_of(t), map_of(s).insert(s[i].0, row));
    assert forall|k: Seq<char>| a.contains_key(k) == b.contains_key(k) by {
        if a.contains_key(k) {
            let j = choose|j: int| 0 <= j < t.len() && (#[trigger] t[j]).0 == k;
            assert(s[j].0 == k);
        }
        if b.contains_key(k) && k != s[i].0 {
            let j = choose|j: int| 0 <= j < s.len() && (#[trigger] s[j]).0 == k;
            assert(t[j].0 == k);
        }
        assert(t[i].0 == s[i].0);
    }
    assert forall|k: Seq<char>| a.contains_key(k) implies a[k] == b[k] by {
        let j = choose|j: int| 0 <= j < t.len() && (#[trigger] t[j]).0 == k;
        assert(s[j].0 == k);
        if j == i {
            assert(t[i] == (s[i].0, row));
        } else {
            assert(t[j] == s[j]);
            assert(s[j].0 != s[i].0);
        }
    }
    assert(a =~= b);
}

/// Removing one row removes it from the map.
pub proof fn lemma_map_remove<R>(s: Seq<(Seq<char>, R)>, i: int)
    requires
        keys_distinct(s),
        0 <= i < s.len(),
    ensures
        keys_distinct(s.remove(i)),
        map_of(s.remove(i)) == map_of(s).remove(s[i].0),
{
    let t = s.remove(i);
    assert forall|p: int, q: int| 0 <= p < q < t.len() implies (#[trigger] t[p]).0 != (
    #[trigger] t[q]).0 by {
        let (x, y) = (
            if p < i {
                p
            } else {
                p + 1
            },
            if q < i {
                q
            } else {
                q + 1
            },
        );
        assert(t[p] == s[x] && t[q] == s[y]);
    }
    lemma_map_of(s);
    lemma_map_of(t);
    let (a, b) = (map_of(t), map_of(s).remove(s[i].0));
    assert forall|k: Seq<char>| a.contains_key(k) == b.contains_key(k) by {
        if a.contains_key(k) {
            let j = choose|j: int| 0 <= j < t.len() && (#[trigger] t[j]).0 == k;
            let x = if j < i {
                j
            } else {
                j + 1
            };
            assert(t[j] == s[x]);
            assert(s[x].0 == k);
        }
        if b.contains_key(k) {
            let j = choose|j: int| 0 <= j < s.len() && (#[trigger] s[j]).0 == k;
            assert(j != i);
            assert(t[if j < i { j } else { j - 1 }] == s[j]);
        }
    }
    assert forall|k: Seq<char>| a.contains_key(k) implies a[k] == b[k] by {
        let j = choose|j: int| 0 <= j < t.len() && (#[trigger] t[j]).0 == k;
        let x = if j < i {
            j
        } else {
            j + 1
        };
        assert(t[j] == s[x]);
        assert(s[x].0 == k);
    }
    assert(a =~= b);
}

/// Rows under distinct text keys.
#[verifier::reject_recursive_types(R)]
#[derive(Debug)]
pub struct Table<R> {
    rows: Vec<(String, R)>,
}

impl<R> View for Table<R> {
    type V = Map<Seq<char>, R>;

    closed spec fn view(&self) -> Map<Seq<char>, R> {
        map_of(self.entries())
    }
}

impl<R> Table<R> {
    /// The rows with their keys, in order.
    pub closed spec fn entries(&self) -> Seq<(Seq<char>, R)> {
        self.rows@.map_values(|p: (String, R)| (p.0@, p.1))
    }

    #[verifier::type_invariant]
    spec fn distinct(self) -> bool {
        keys_distinct(self.entries())
    }

    /// The table without rows.
    pub fn new() -> (r: Self)
        ensures
            r@ == Map::<Seq<char>, R>::empty(),
            r.entries().len() == 0,
    {
        let rows: Vec<(String, R)> = Vec::new();
        Table { rows }
    }

    /// The number of rows. The entries list the map.
    pub fn len(&self) -> (r: usize)
        ensures
            r == self.entries().len(),
            keys_distinct(self.entries()),
            self@ == map_of(self.entries()),
    {
        proof {
            use_type_invariant(self);
        }
        self.rows.len()
    }

    /// The key at a position.
    pub fn key_at(&self, i: usize) -> (r: &String)
        requires
            i < self.entries().len(),
        ensures
            r@ == self.entries()[i as int].0,
    {
        &self.rows[i].0
    }

    /// The row at a position.
    pub fn row_at(&self, i: usize) -> (r: &R)
        requires
            i < self.entries().len(),
        ensures
            *r == self.entries()[i as int].1,
    {
        &self.rows[i].1
    }

    /// Where a key stands.
    pub fn position(&self, key: &str) -> (r: Option<usize>)
        ensures
            match r {
                Some(i) => i < self.entries().len() && self.entries()[i as int].0 == key@
                    && self@.contains_key(key@) && self@[key@] == self.entries()[i as int].1,
                None => !self@.contains_key(key@),
            },
    {
        proof {
            use_type_invariant(self);
        }
        let ghost s = self.entries();
        proof {
            lemma_map_of(s);
        }
        let mut i: usize = 0;
        while i < self.rows.len()
            invariant
                i <= self.rows@.len(),
                s == self.entries(),
                keys_distinct(s),
                forall|j: int|
                    0 <= j < s.len() ==> map_of(s).contains_key((#[trigger] s[j]).0) && map_of(
                        s,
                    )[s[j].0] == s[j].1,
                forall|k: Seq<char>| #[trigger]
                    map_of(s).contains_key(k) ==> exists|j: int|
                        0 <= j < s.len() && (#[trigger] s[j]).0 == k,
                forall|j: int| 0 <= j < i ==> (#[trigger] s[j]).0 != key@,
            decreases self.rows@.len() - i,
        {
            assert(s[i as int] == (self.rows@[i as int].0@, self.rows@[i as int].1));
            if same(&self.rows[i].0, key) {
                return Some(i);
            }
            i += 1;
        }
        None
    }

    /// The row under a key.
    pub fn get(&self, key: &str) -> (r: Option<&R>)
        ensures
            match r {
                Some(row) => self@.contains_key(key@) && *row == self@[key@],
                None => !self@.contains_key(key@),
            },
    {
        match self.position(key) {
            Some(i) => Some(&self.rows[i].1),
            None => None,
        }
    }

    /// Replaces the row at a position.
    pub fn set_at(&mut self, i: usize, row: R)
        requires
            i < old(self).entries().len(),
        ensures
            final(self).entries() == old(self).entries().update(
                i as int,
                (old(self).entries()[i as int].0, row),
            ),
            final(self)@ == old(self)@.insert(old(self).entries()[i as int].0, row),
    {
        proof {
            use_type_invariant(&*self);
        }
        let ghost s = self.entries();
        let mut rows: Vec<(String, R)> = Vec::new();
        std::mem::swap(&mut rows, &mut self.rows);
        let key: String = rows[i].0.clone();
        rows.set(i, (key, row));
        proof {
            let t = rows@.map_values(|p: (String, R)| (p.0@, p.1));
            assert(t =~= s.update(i as int, (s[i as int].0, row)));
            lemma_map_update(s, i as int, row);
        }
        self.rows = rows;
    }

    /// Puts a row under a key, in the place of the row that is there.
    pub fn insert(&mut self, key: &str, row: R)
        ensures
            final(self)@ == old(self)@.insert(key@, row),
            old(self)@.contains_key(key@) ==> final(self).entries().len() == old(self).entries().len(),
            !old(self)@.contains_key(key@) ==> final(self).entries() == old(self).entries().push(
                (key@, row),
            ),
    {
        match self.position(key) {
            Some(i) => {
                self.set_at(i, row);
            },
            None => {
                proof {
                    use_type_invariant(&*self);
                }
                let ghost s = self.entries();
                let mut rows: Vec<(String, R)> = Vec::new();
                std::mem::swap(&mut rows, &mut self.rows);
                rows.push((key.to_owned(), row));
                proof {
                    let t = rows@.map_values(|p: (String, R)| (p.0@, p.1));
                    assert(t =~= s.push((key@, row)));
                    assert(t.drop_last() =~= s);
                    lemma_map_of(s);
                    assert forall|p: int, q: int| 0 <= p < q < t.len() implies (#[trigger] t[p]).0 != (
                    #[trigger] t[q]).0 by {
                        if q == s.len() {
                            assert(map_of(s).contains_key(s[p].0));
                        } else {
                            assert(s[p].0 != s[q].0);
                        }
                    }
                }
                self.rows = rows;
            },
        }
    }

    /// Takes out the row under a key.
    pub fn remove(&mut self, key: &str) -> (r: Option<R>)
        ensures
            final(self)@ == old(self)@.remove(key@),
            match r {
                Some(row) => old(self)@.contains_key(key@) && row == old(self)@[key@],
                None => !old(self)@.contains_key(key@),
            },
    {
        match self.position(key) {
            Some(i) => {
                proof {
                    use_type_invariant(&*self);
                }
                let ghost s = self.entries();
                let mut rows: Vec<(String, R)> = Vec::new();
                std::mem::swap(&mut rows, &mut self.rows);
                let (_, row): (String, R) = rows.remove(i);
                proof {
                    let t = rows@.map_values(|p: (String, R)| (p.0@, p.1));
                    assert(t =~= s.remove(i as int));
                    lemma_map_remove(s, i as int);
                }
                self.rows = rows;
                Some(row)
            },
            None => {
                assert(self@.remove(key@) =~= self@);
                None
            },
        }
    }
}

/// A table stands for its rows: every one of them is found under its key, and
/// nothing else is.
pub proof fn law_every_row_is_found_under_its_key<R>(s: Seq<(Seq<char>, R)>, k: int, key: Seq<char>)
    requires
        forall|i: int, j: int| 0 <= i < j < s.len() ==> (#[trigger] s[i]).0 != (#[trigger] s[j]).0,
    ensures
        0 <= k < s.len() ==> map_of(s).contains_key(s[k].0) && map_of(s)[s[k].0] == s[k].1,
        map_of(s).contains_key(key) <==> exists|i: int| 0 <= i < s.len() && (#[trigger] s[i]).0 == key,
    decreases s.len(),
{
    if s.len() > 0 {
        let front = s.drop_last();
        assert(s[s.len() - 1] == s.last());
        assert forall|i: int, j: int| 0 <= i < j < front.len() implies (#[trigger] front[i]).0 != (
        #[trigger] front[j]).0 by {
            assert(front[i] == s[i] && front[j] == s[j]);
        }
        law_every_row_is_found_under_its_key(front, k, key);
        if 0 <= k < front.len() {
            assert(front[k] == s[k]);
            assert(s[k].0 != s[s.len() - 1].0);
        }
        if exists|i: int| 0 <= i < s.len() && (#[trigger] s[i]).0 == key {
            let i = choose|i: int| 0 <= i < s.len() && (#[trigger] s[i]).0 == key;
            if i < front.len() {
                assert(front[i] == s[i]);
            }
        }
        if map_of(front).contains_key(key) {
            let i = choose|i: int| 0 <= i < front.len() && (#[trigger] front[i]).0 == key;
            assert(s[i] == front[i]);
        }
    }
}

} // verus!
