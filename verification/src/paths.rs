//! The order of file paths: component by component, not character by character.
//!
//! Repeated and trailing separators and components that stay in place do not
//! tell one path from another, except for a `.` at the very beginning.
use vstd::prelude::*;

use crate::order::{before, lemma_before_irreflexive, lemma_before_total, lemma_before_transitive, place, Placed};
use crate::text::{same, split, split_at_char, texts};

verus! {

/// A component: its rank, and its name where it has one. The root ranks first,
/// then a leading `.`, then `..`, then every name.
pub type PartData = (int, Seq<char>);

/// A component of a path.
pub struct Part {
    rank: u8,
    name: String,
}

impl View for Part {
    type V = PartData;

    closed spec fn view(&self) -> PartData {
        (self.rank as int, self.name@)
    }
}

/// What lists of components hold.
pub open spec fn parts_data(v: Seq<Part>) -> Seq<PartData> {
    v.map_values(|p: Part| p@)
}

/// The component that the text between two separators stands for.
pub open spec fn part_of(piece: Seq<char>, first: bool) -> Option<PartData> {
    if piece.len() == 0 {
        None
    } else if piece == "."@ {
        if first {
            Some((1int, Seq::empty()))
        } else {
            None
        }
    } else if piece == ".."@ {
        Some((2int, Seq::empty()))
    } else {
        Some((3int, piece))
    }
}

/// The components that the texts between the separators stand for.
pub open spec fn parts_of(pieces: Seq<Seq<char>>) -> Seq<PartData>
    decreases pieces.len(),
{
    if pieces.len() == 0 {
        Seq::empty()
    } else {
        let rest = parts_of(pieces.drop_last());
        match part_of(pieces.last(), pieces.len() == 1) {
            Some(p) => rest.push(p),
            None => rest,
        }
    }
}

/// The components of a path.
pub open spec fn components(path: Seq<char>) -> Seq<PartData> {
    let named = parts_of(split(path, '/'));
    if path.len() > 0 && path[0] == '/' {
        seq![(0int, Seq::<char>::empty())] + named
    } else {
        named
    }
}

fn read_part(piece: &String, first: bool) -> (r: Option<Part>)
    ensures
        match r {
            Some(p) => part_of(piece@, first) == Some(p@),
            None => part_of(piece@, first) is None,
        },
{
    if piece.as_str().is_empty() {
        None
    } else if same(piece, ".") {
        if first {
            Some(Part { rank: 1, name: String::new() })
        } else {
            None
        }
    } else if same(piece, "..") {
        Some(Part { rank: 2, name: String::new() })
    } else {
        Some(Part { rank: 3, name: piece.clone() })
    }
}

fn read_components(path: &str) -> (r: Vec<Part>)
    ensures
        parts_data(r@) == components(path@),
{
    let pieces: Vec<String> = split_at_char(path, '/');
    let ghost all = texts(pieces@);
    let rooted: bool = crate::text::starts_with(path, "/");
    let mut out: Vec<Part> = Vec::new();
    if rooted {
        out.push(Part { rank: 0, name: String::new() });
    }
    let ghost root = parts_data(out@);
    proof {
        reveal_strlit("/");
        assert("/"@.len() == 1 && "/"@[0] == '/');
        if path@.len() > 0 && path@[0] == '/' {
            assert("/"@ =~= path@.subrange(0, 1));
        }
        if rooted {
            assert(path@.subrange(0, 1)[0] == path@[0]);
        }
        assert(rooted == (path@.len() > 0 && path@[0] == '/'));
        if rooted {
            assert(root =~= seq![(0int, Seq::<char>::empty())]);
        } else {
            assert(root =~= Seq::<PartData>::empty());
        }
        assert(all.take(0) =~= Seq::<Seq<char>>::empty());
        assert(root + parts_of(all.take(0)) =~= root);
    }
    let mut i: usize = 0;
    while i < pieces.len()
        invariant
            i <= pieces@.len(),
            all == texts(pieces@),
            parts_data(out@) == root + parts_of(all.take(i as int)),
        decreases pieces@.len() - i,
    {
        let ghost done = parts_data(out@);
        assert(all.take(i + 1).drop_last() =~= all.take(i as int));
        assert(all.take(i + 1).last() == pieces@[i as int]@);
        match read_part(&pieces[i], i == 0) {
            Some(p) => {
                let ghost d = p@;
                out.push(p);
                assert(parts_data(out@) =~= done.push(d));
                assert(parts_data(out@) =~= root + parts_of(all.take(i + 1)));
            },
            None => {},
        }
        i += 1;
    }
    assert(all.take(pieces@.len() as int) =~= all);
    assert(root + parts_of(all) =~= components(path@));
    out
}

/// Whether a component comes before another.
pub open spec fn part_before(a: PartData, b: PartData) -> bool {
    a.0 < b.0 || a.0 == b.0 && before(a.1, b.1)
}

/// Whether a list of components comes before another: at the first difference, or
/// by ending first.
pub open spec fn parts_before(a: Seq<PartData>, b: Seq<PartData>) -> bool
    decreases b.len(),
{
    if b.len() == 0 {
        false
    } else if a.len() == 0 {
        true
    } else {
        part_before(a[0], b[0]) || a[0] == b[0] && parts_before(a.skip(1), b.skip(1))
    }
}

/// Whether a path comes before another.
pub open spec fn path_before(a: Seq<char>, b: Seq<char>) -> bool {
    parts_before(components(a), components(b))
}

/// The two name the same path.
pub open spec fn same_path(a: Seq<char>, b: Seq<char>) -> bool {
    components(a) == components(b)
}

/// The paths are in order and none occurs twice.
pub open spec fn in_path_order(v: Seq<Seq<char>>) -> bool {
    forall|i: int, j: int| 0 <= i < j < v.len() ==> path_before(#[trigger] v[i], #[trigger] v[j])
}

proof fn lemma_parts_irreflexive(a: Seq<PartData>)
    ensures
        !parts_before(a, a),
    decreases a.len(),
{
    if a.len() > 0 {
        lemma_before_irreflexive(a[0].1);
        lemma_parts_irreflexive(a.skip(1));
    }
}

proof fn lemma_parts_transitive(a: Seq<PartData>, b: Seq<PartData>, c: Seq<PartData>)
    requires
        parts_before(a, b),
        parts_before(b, c),
    ensures
        parts_before(a, c),
    decreases b.len(),
{
    if a.len() > 0 {
        let (x, y, z) = (a[0], b[0], c[0]);
        if before(x.1, y.1) && before(y.1, z.1) {
            lemma_before_transitive(x.1, y.1, z.1);
        }
        if x == y && y == z && !part_before(x, y) && !part_before(y, z) {
            lemma_parts_transitive(a.skip(1), b.skip(1), c.skip(1));
        }
        lemma_before_irreflexive(x.1);
    }
}

/// How two paths are ordered.
pub fn place_path(a: &str, b: &str) -> (r: Placed)
    ensures
        match r {
            Placed::Before => path_before(a@, b@),
            Placed::Same => same_path(a@, b@),
            Placed::After => path_before(b@, a@),
        },
{
    let x: Vec<Part> = read_components(a);
    let y: Vec<Part> = read_components(b);
    let ghost (p, q) = (parts_data(x@), parts_data(y@));
    let mut i: usize = 0;
    assert(p.skip(0) =~= p && q.skip(0) =~= q);
    while i < x.len() && i < y.len()
        invariant
            i <= x@.len(),
            i <= y@.len(),
            p == parts_data(x@),
            q == parts_data(y@),
            p == components(a@),
            q == components(b@),
            p.take(i as int) == q.take(i as int),
            parts_before(p, q) == parts_before(p.skip(i as int), q.skip(i as int)),
            parts_before(q, p) == parts_before(q.skip(i as int), p.skip(i as int)),
        decreases x@.len() - i,
    {
        let ghost (u, v) = (p.skip(i as int), q.skip(i as int));
        assert(u[0] == x@[i as int]@ && v[0] == y@[i as int]@);
        assert(u.skip(1) =~= p.skip(i + 1) && v.skip(1) =~= q.skip(i + 1));
        if x[i].rank < y[i].rank {
            return Placed::Before;
        }
        if y[i].rank < x[i].rank {
            return Placed::After;
        }
        match place(&x[i].name, &y[i].name) {
            Placed::Before => {
                return Placed::Before;
            },
            Placed::After => {
                return Placed::After;
            },
            Placed::Same => {},
        }
        proof {
            assert(u[0] == v[0]);
            lemma_before_irreflexive(u[0].1);
            assert(p.take(i + 1) =~= p.take(i as int).push(u[0]));
            assert(q.take(i + 1) =~= q.take(i as int).push(v[0]));
        }
        i += 1;
    }
    if i < y.len() {
        Placed::Before
    } else if i < x.len() {
        Placed::After
    } else {
        assert(p =~= p.take(i as int) && q =~= q.take(i as int));
        Placed::Same
    }
}

/// The paths with one more, unless one names the same path.
pub open spec fn enrolled(v: Seq<Seq<char>>, p: Seq<char>) -> Seq<Seq<char>>
    decreases v.len(),
{
    if v.len() == 0 {
        seq![p]
    } else if path_before(v[0], p) {
        seq![v[0]] + enrolled(v.skip(1), p)
    } else if same_path(v[0], p) {
        v
    } else {
        seq![p] + v
    }
}

/// A path that joins others takes its place among them. Those that were there
/// stay, and the path is there too, under the spelling that came first.
pub proof fn law_a_path_takes_its_place(v: Seq<Seq<char>>, p: Seq<char>)
    requires
        in_path_order(v),
    ensures
        in_path_order(enrolled(v, p)),
        forall|x: Seq<char>| #[trigger] v.contains(x) ==> enrolled(v, p).contains(x),
        forall|x: Seq<char>| #[trigger] enrolled(v, p).contains(x) ==> v.contains(x) || x == p,
        exists|x: Seq<char>| #[trigger] enrolled(v, p).contains(x) && same_path(x, p),
    decreases v.len(),
{
    let w = enrolled(v, p);
    if v.len() == 0 {
        assert(w[0] == p);
        assert(w.contains(p));
    } else {
        let rest = v.skip(1);
        let first = v[0];
        if path_before(first, p) {
            assert forall|i: int, j: int| 0 <= i < j < rest.len() implies path_before(
                #[trigger] rest[i],
                #[trigger] rest[j],
            ) by {
                assert(path_before(v[i + 1], v[j + 1]));
            }
            law_a_path_takes_its_place(rest, p);
            let more = enrolled(rest, p);
            assert forall|i: int, j: int| 0 <= i < j < w.len() implies path_before(
                #[trigger] w[i],
                #[trigger] w[j],
            ) by {
                assert(w[j] == more[j - 1]);
                if i == 0 {
                    assert(more.contains(more[j - 1]));
                    if rest.contains(more[j - 1]) {
                        let k = rest.index_of(more[j - 1]);
                        assert(path_before(v[0], v[k + 1]));
                    }
                } else {
                    assert(w[i] == more[i - 1]);
                }
            }
            assert forall|x: Seq<char>| #[trigger] v.contains(x) implies w.contains(x) by {
                let k = v.index_of(x);
                if k == 0 {
                    assert(w[0] == x);
                } else {
                    assert(rest[k - 1] == x);
                    assert(rest.contains(x));
                    let n = more.index_of(x);
                    assert(w[n + 1] == x);
                }
            }
            assert forall|x: Seq<char>| #[trigger] w.contains(x) implies v.contains(x) || x == p by {
                let k = w.index_of(x);
                if k > 0 {
                    assert(more[k - 1] == x);
                    assert(more.contains(x));
                    if rest.contains(x) {
                        assert(v[rest.index_of(x) + 1] == x);
                    }
                } else {
                    assert(v[0] == x);
                }
            }
            let x = choose|x: Seq<char>| #[trigger] more.contains(x) && same_path(x, p);
            let n = more.index_of(x);
            assert(w[n + 1] == x);
            assert(w.contains(x));
        } else if same_path(first, p) {
            assert(v.contains(first));
        } else {
            lemma_one_is_first(first, p);
            assert(w[0] == p);
            assert forall|i: int, j: int| 0 <= i < j < w.len() implies path_before(
                #[trigger] w[i],
                #[trigger] w[j],
            ) by {
                assert(w[j] == v[j - 1]);
                if i == 0 {
                    if j > 1 {
                        assert(path_before(v[0], v[j - 1]));
                        lemma_parts_transitive(components(p), components(v[0]), components(v[j - 1]));
                    }
                } else {
                    assert(w[i] == v[i - 1]);
                }
            }
            assert forall|x: Seq<char>| #[trigger] v.contains(x) implies w.contains(x) by {
                assert(w[v.index_of(x) + 1] == x);
            }
            assert forall|x: Seq<char>| #[trigger] w.contains(x) implies v.contains(x) || x == p by {
                let k = w.index_of(x);
                if k > 0 {
                    assert(v[k - 1] == x);
                }
            }
            assert(w.contains(p));
        }
    }
}

/// Of two different paths one comes before the other.
proof fn lemma_one_is_first(a: Seq<char>, b: Seq<char>)
    ensures
        same_path(a, b) || path_before(a, b) || path_before(b, a),
{
    lemma_parts_total(components(a), components(b));
}

proof fn lemma_parts_total(a: Seq<PartData>, b: Seq<PartData>)
    ensures
        a == b || parts_before(a, b) || parts_before(b, a),
    decreases a.len(),
{
    if a.len() == 0 || b.len() == 0 {
        if a.len() == 0 && b.len() == 0 {
            assert(a =~= b);
        }
    } else {
        lemma_before_total(a[0].1, b[0].1);
        if a[0] == b[0] {
            lemma_parts_total(a.skip(1), b.skip(1));
            if a.skip(1) == b.skip(1) {
                assert(a =~= seq![a[0]] + a.skip(1));
                assert(b =~= seq![b[0]] + b.skip(1));
            }
        }
    }
}

/// Adds a path to a list in order, unless it is there.
pub fn enroll(v: &mut Vec<String>, path: &str)
    ensures
        texts(final(v)@) == enrolled(texts(old(v)@), path@),
{
    let ghost all = texts(v@);
    let mut i: usize = 0;
    assert(all.skip(0) =~= all);
    assert(all.take(0) + enrolled(all, path@) =~= enrolled(all, path@));
    while i < v.len()
        invariant
            i <= v@.len(),
            all == texts(v@),
            all == texts(old(v)@),
            enrolled(all, path@) == all.take(i as int) + enrolled(all.skip(i as int), path@),
        decreases v@.len() - i,
    {
        let ghost tail = all.skip(i as int);
        assert(tail[0] == v@[i as int]@);
        match place_path(&v[i], path) {
            Placed::Before => {
                assert(tail.skip(1) =~= all.skip(i + 1));
                assert(all.take(i + 1) =~= all.take(i as int).push(tail[0]));
                assert(all.take(i as int) + (seq![tail[0]] + enrolled(all.skip(i + 1), path@)) =~= all.take(
                    i + 1,
                ) + enrolled(all.skip(i + 1), path@));
                i += 1;
            },
            Placed::Same => {
                proof {
                    lemma_parts_irreflexive(components(path@));
                }
                assert(all.take(i as int) + tail =~= all);
                return;
            },
            Placed::After => {
                proof {
                    lemma_not_both(tail[0], path@);
                }
                v.insert(i, path.to_owned());
                assert(texts(v@) =~= all.take(i as int) + (seq![path@] + tail));
                return;
            },
        }
    }
    assert(all.skip(i as int) =~= Seq::<Seq<char>>::empty());
    v.push(path.to_owned());
    assert(texts(v@) =~= all.take(i as int) + seq![path@]);
}

/// A path that comes before another neither comes after it nor is it.
proof fn lemma_not_both(a: Seq<char>, b: Seq<char>)
    requires
        path_before(b, a),
    ensures
        !path_before(a, b),
        !same_path(a, b),
{
    if path_before(a, b) {
        lemma_parts_transitive(components(a), components(b), components(a));
    }
    lemma_parts_irreflexive(components(a));
}

/// A path that is made of names is known by them: the names are its components,
/// in order, each for itself. A leading separator is the root before them.
pub proof fn law_a_path_is_its_names(names: Seq<Seq<char>>)
    requires
        names.len() > 0,
        forall|i: int|
            0 <= i < names.len() ==> (#[trigger] names[i]).len() > 0 && !names[i].contains('/') && names[i] != "."@
                && names[i] != ".."@,
    ensures
        components(crate::text::joined(names, seq!['/'])) == Seq::new(names.len(), |i: int| (3int, names[i])),
        components(seq!['/'] + crate::text::joined(names, seq!['/'])) == seq![(0int, Seq::<char>::empty())] + Seq::new(
            names.len(),
            |i: int| (3int, names[i]),
        ),
{
    let path = crate::text::joined(names, seq!['/']);
    crate::text::law_joined_parts_are_split_again(names, '/');
    lemma_parts_of_names(names);
    lemma_joined_head(names);
    let more = seq![Seq::<char>::empty()] + names;
    assert forall|i: int| 0 <= i < more.len() implies !(#[trigger] more[i]).contains('/') by {
        if i > 0 {
            assert(more[i] == names[i - 1]);
        }
    }
    crate::text::law_joined_parts_are_split_again(more, '/');
    lemma_joined_more(names);
    lemma_parts_of_more(names);
}

proof fn lemma_parts_of_names(names: Seq<Seq<char>>)
    requires
        forall|i: int|
            0 <= i < names.len() ==> (#[trigger] names[i]).len() > 0 && names[i] != "."@ && names[i] != ".."@,
    ensures
        parts_of(names) == Seq::new(names.len(), |i: int| (3int, names[i])),
    decreases names.len(),
{
    if names.len() > 0 {
        let front = names.drop_last();
        assert forall|i: int| 0 <= i < front.len() implies (#[trigger] front[i]).len() > 0 && front[i] != "."@
            && front[i] != ".."@ by {
            assert(front[i] == names[i]);
        }
        lemma_parts_of_names(front);
        assert(names[names.len() - 1] == names.last());
        assert(parts_of(names) =~= Seq::new(names.len(), |i: int| (3int, names[i])));
    } else {
        assert(parts_of(names) =~= Seq::new(names.len(), |i: int| (3int, names[i])));
    }
}

proof fn lemma_parts_of_more(names: Seq<Seq<char>>)
    requires
        forall|i: int|
            0 <= i < names.len() ==> (#[trigger] names[i]).len() > 0 && names[i] != "."@ && names[i] != ".."@,
    ensures
        parts_of(seq![Seq::<char>::empty()] + names) == Seq::new(names.len(), |i: int| (3int, names[i])),
    decreases names.len(),
{
    let more = seq![Seq::<char>::empty()] + names;
    if names.len() > 0 {
        let front = names.drop_last();
        assert forall|i: int| 0 <= i < front.len() implies (#[trigger] front[i]).len() > 0 && front[i] != "."@
            && front[i] != ".."@ by {
            assert(front[i] == names[i]);
        }
        lemma_parts_of_more(front);
        assert(more.drop_last() =~= seq![Seq::<char>::empty()] + front);
        assert(more.last() == names[names.len() - 1]);
        assert(parts_of(more) =~= Seq::new(names.len(), |i: int| (3int, names[i])));
    } else {
        assert(more =~= seq![Seq::<char>::empty()]);
        assert(more.drop_last() =~= Seq::<Seq<char>>::empty());
        assert(parts_of(more.drop_last()) =~= Seq::<PartData>::empty());
        assert(parts_of(more) =~= Seq::new(names.len(), |i: int| (3int, names[i])));
    }
}

/// What is joined begins with the first of the names.
proof fn lemma_joined_head(names: Seq<Seq<char>>)
    requires
        names.len() > 0,
        names[0].len() > 0,
        !names[0].contains('/'),
    ensures
        crate::text::joined(names, seq!['/']).len() > 0,
        crate::text::joined(names, seq!['/'])[0] != '/',
        crate::text::joined(names, seq!['/'])[0] == names[0][0],
    decreases names.len(),
{
    assert(names[0].contains(names[0][0]));
    if names.len() > 1 {
        lemma_joined_head(names.drop_last());
    }
}

proof fn lemma_joined_more(names: Seq<Seq<char>>)
    requires
        names.len() > 0,
    ensures
        crate::text::joined(seq![Seq::<char>::empty()] + names, seq!['/']) == seq!['/'] + crate::text::joined(
            names,
            seq!['/'],
        ),
    decreases names.len(),
{
    let more = seq![Seq::<char>::empty()] + names;
    if names.len() == 1 {
        assert(more.drop_last() =~= seq![Seq::<char>::empty()]);
        assert(more.last() == names[0]);
        assert(crate::text::joined(more.drop_last(), seq!['/']) == Seq::<char>::empty());
        assert(crate::text::joined(names, seq!['/']) == names[0]);
        assert(crate::text::joined(more, seq!['/']) =~= seq!['/'] + names[0]);
    } else {
        lemma_joined_more(names.drop_last());
        assert(more.drop_last() =~= seq![Seq::<char>::empty()] + names.drop_last());
        assert(crate::text::joined(more, seq!['/']) =~= seq!['/'] + crate::text::joined(names, seq!['/']));
    }
}

/// Paths are ordered like the words of a dictionary, their components in the
/// place of letters: at the first component in which they differ, or the shorter
/// first.
pub proof fn law_paths_are_ordered_by_their_first_difference(a: Seq<char>, b: Seq<char>)
    ensures
        path_before(a, b) <==> exists|k: int|
            {
                &&& 0 <= k <= components(a).len() && k < components(b).len()
                &&& #[trigger] components(a).take(k) == components(b).take(k)
                &&& k == components(a).len() || part_before(components(a)[k], components(b)[k])
            },
        same_path(a, b) || path_before(a, b) || path_before(b, a),
        !(path_before(a, b) && path_before(b, a)),
        same_path(a, b) ==> !path_before(a, b),
{
    lemma_first_difference(components(a), components(b));
    lemma_one_is_first(a, b);
    lemma_parts_irreflexive(components(a));
    if path_before(a, b) && path_before(b, a) {
        lemma_parts_transitive(components(a), components(b), components(a));
    }
}

proof fn lemma_first_difference(a: Seq<PartData>, b: Seq<PartData>)
    ensures
        parts_before(a, b) <==> exists|k: int|
            {
                &&& 0 <= k <= a.len() && k < b.len()
                &&& #[trigger] a.take(k) == b.take(k)
                &&& k == a.len() || part_before(a[k], b[k])
            },
    decreases b.len(),
{
    if b.len() > 0 {
        if a.len() == 0 {
            assert(a.take(0) =~= b.take(0));
        } else {
            let (x, y) = (a.skip(1), b.skip(1));
            lemma_first_difference(x, y);
            if part_before(a[0], b[0]) {
                assert(a.take(0) =~= b.take(0));
            } else if a[0] == b[0] && parts_before(x, y) {
                let k = choose|k: int|
                    {
                        &&& 0 <= k <= x.len() && k < y.len()
                        &&& #[trigger] x.take(k) == y.take(k)
                        &&& k == x.len() || part_before(x[k], y[k])
                    };
                assert(a.take(k + 1) =~= seq![a[0]] + x.take(k));
                assert(b.take(k + 1) =~= seq![b[0]] + y.take(k));
                assert(a.take(k + 1) == b.take(k + 1));
            }
            if exists|k: int|
                {
                    &&& 0 <= k <= a.len() && k < b.len()
                    &&& #[trigger] a.take(k) == b.take(k)
                    &&& k == a.len() || part_before(a[k], b[k])
                } {
                let k = choose|k: int|
                    {
                        &&& 0 <= k <= a.len() && k < b.len()
                        &&& #[trigger] a.take(k) == b.take(k)
                        &&& k == a.len() || part_before(a[k], b[k])
                    };
                if k > 0 {
                    assert(a.take(k)[0] == b.take(k)[0]);
                    assert(x.take(k - 1) =~= a.take(k).skip(1));
                    assert(y.take(k - 1) =~= b.take(k).skip(1));
                    assert(x.take(k - 1) == y.take(k - 1));
                }
            }
        }
    }
}

} // verus!
