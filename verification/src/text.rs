//! Text helpers shared by every module: equality, trimming, ASCII folding,
//! decimal numbers and joining over Unicode scalar values.
use vstd::prelude::*;
use vstd::utf8::*;

verus! {

/// The texts held by a list of strings.
pub open spec fn texts(v: Seq<String>) -> Seq<Seq<char>> {
    v.map_values(|s: String| s@)
}

/// The text of an optional string.
pub open spec fn opt_text(s: Option<String>) -> Option<Seq<char>> {
    match s {
        Some(t) => Some(t@),
        None => None,
    }
}

/// The text of an optional string slice.
pub open spec fn opt_str(s: Option<&str>) -> Option<Seq<char>> {
    match s {
        Some(t) => Some(t@),
        None => None,
    }
}

proof fn lemma_utf8_injective(a: Seq<char>, b: Seq<char>)
    requires
        encode_utf8(a) == encode_utf8(b),
    ensures
        a == b,
{
    encode_utf8_decode_utf8(a);
    encode_utf8_decode_utf8(b);
}

/// Whether two texts are the same.
pub fn same(a: &str, b: &str) -> (r: bool)
    ensures
        r == (a@ == b@),
{
    let x: &[u8] = a.as_bytes();
    let y: &[u8] = b.as_bytes();
    if x.len() != y.len() {
        return false;
    }
    let mut i: usize = 0;
    while i < x.len()
        invariant
            i <= x@.len(),
            x@.len() == y@.len(),
            x@ == encode_utf8(a@),
            y@ == encode_utf8(b@),
            forall|j: int| 0 <= j < i ==> x@[j] == y@[j],
        decreases x@.len() - i,
    {
        if x[i] != y[i] {
            return false;
        }
        i += 1;
    }
    proof {
        assert(x@ =~= y@);
        lemma_utf8_injective(a@, b@);
    }
    true
}

/// The number of bytes of a text in UTF-8.
pub fn byte_len(s: &str) -> (r: usize)
    ensures
        r == encode_utf8(s@).len(),
{
    s.as_bytes().len()
}

/// Whether two optional texts are the same.
pub fn same_opt(a: &Option<String>, b: &Option<String>) -> (r: bool)
    ensures
        r == (opt_text(*a) == opt_text(*b)),
{
    match (a, b) {
        (Some(x), Some(y)) => same(x, y),
        (None, None) => true,
        _ => false,
    }
}

/// The scalar values of a text, in order.
pub fn chars_of(s: &str) -> (r: Vec<char>)
    ensures
        r@ == s@,
{
    let mut out: Vec<char> = Vec::new();
    for c in it: s.chars()
        invariant
            out@ == it.seq().take(it.index() as int),
            it.seq() == s@,
    {
        out.push(c);
    }
    out
}

/// `String::push`: appends one scalar value to the text.
#[verifier::external_body]
pub(crate) fn push_char(s: &mut String, c: char)
    ensures
        final(s)@ == old(s)@.push(c),
{
    s.push(c);
}

/// The text made of the given scalar values.
pub fn text_of(v: &[char]) -> (r: String)
    ensures
        r@ == v@,
{
    let mut out: String = String::new();
    let mut i: usize = 0;
    while i < v.len()
        invariant
            i <= v@.len(),
            out@ == v@.take(i as int),
        decreases v@.len() - i,
    {
        push_char(&mut out, v[i]);
        i += 1;
    }
    out
}

/// Copies a list of texts.
pub fn copy_texts(v: &Vec<String>) -> (r: Vec<String>)
    ensures
        texts(r@) == texts(v@),
        r@ == v@,
{
    let mut out: Vec<String> = Vec::new();
    let mut i: usize = 0;
    while i < v.len()
        invariant
            i <= v@.len(),
            out@ == v@.take(i as int),
        decreases v@.len() - i,
    {
        out.push(v[i].clone());
        i += 1;
    }
    assert(out@ =~= v@);
    out
}

/// Whether a list of texts holds the given one.
pub fn holds_text(v: &Vec<String>, s: &str) -> (r: bool)
    ensures
        r == texts(v@).contains(s@),
{
    let mut i: usize = 0;
    while i < v.len()
        invariant
            i <= v@.len(),
            forall|j: int| 0 <= j < i ==> texts(v@)[j] != s@,
        decreases v@.len() - i,
    {
        if same(&v[i], s) {
            assert(texts(v@)[i as int] == s@);
            return true;
        }
        i += 1;
    }
    false
}

/// Whether two lists of texts are the same.
pub fn same_texts(a: &Vec<String>, b: &Vec<String>) -> (r: bool)
    ensures
        r == (texts(a@) == texts(b@)),
{
    if a.len() != b.len() {
        assert(texts(a@).len() != texts(b@).len());
        return false;
    }
    let mut i: usize = 0;
    while i < a.len()
        invariant
            i <= a@.len(),
            a@.len() == b@.len(),
            forall|j: int| 0 <= j < i ==> texts(a@)[j] == texts(b@)[j],
        decreases a@.len() - i,
    {
        if !same(&a[i], &b[i]) {
            assert(texts(a@)[i as int] != texts(b@)[i as int]);
            return false;
        }
        i += 1;
    }
    assert(texts(a@) =~= texts(b@));
    true
}

/// The Unicode `White_Space` property.
pub open spec fn white_space(c: char) -> bool {
    let u = c as u32;
    ||| 0x9 <= u <= 0xd
    ||| u == 0x20
    ||| u == 0x85
    ||| u == 0xa0
    ||| u == 0x1680
    ||| 0x2000 <= u <= 0x200a
    ||| u == 0x2028
    ||| u == 0x2029
    ||| u == 0x202f
    ||| u == 0x205f
    ||| u == 0x3000
}

/// Whether a scalar value is white space.
pub fn is_white_space(c: char) -> (r: bool)
    ensures
        r == white_space(c),
{
    let u: u32 = c as u32;
    (0x9 <= u && u <= 0xd) || u == 0x20 || u == 0x85 || u == 0xa0 || u == 0x1680 || (0x2000 <= u && u
        <= 0x200a) || u == 0x2028 || u == 0x2029 || u == 0x202f || u == 0x205f || u == 0x3000
}

/// The Unicode category `Cc`.
pub open spec fn control(c: char) -> bool {
    let u = c as u32;
    u <= 0x1f || 0x7f <= u <= 0x9f
}

/// Whether a scalar value is a control code.
pub fn is_control(c: char) -> (r: bool)
    ensures
        r == control(c),
{
    let u: u32 = c as u32;
    u <= 0x1f || (0x7f <= u && u <= 0x9f)
}

/// Whether some scalar value of a text is a control code.
pub fn has_control(s: &str) -> (r: bool)
    ensures
        r == exists|i: int| 0 <= i < s@.len() && control(s@[i]),
{
    let v: Vec<char> = chars_of(s);
    let mut i: usize = 0;
    while i < v.len()
        invariant
            i <= v@.len(),
            v@ == s@,
            forall|j: int| 0 <= j < i ==> !control(v@[j]),
        decreases v@.len() - i,
    {
        if is_control(v[i]) {
            assert(control(s@[i as int]));
            return true;
        }
        i += 1;
    }
    false
}

/// A text without its leading white space.
pub open spec fn trimmed_start(s: Seq<char>) -> Seq<char>
    decreases s.len(),
{
    if s.len() > 0 && white_space(s[0]) {
        trimmed_start(s.skip(1))
    } else {
        s
    }
}

/// A text without its trailing white space.
pub open spec fn trimmed_end(s: Seq<char>) -> Seq<char>
    decreases s.len(),
{
    if s.len() > 0 && white_space(s.last()) {
        trimmed_end(s.drop_last())
    } else {
        s
    }
}

/// A text without the white space at either end.
pub open spec fn trimmed(s: Seq<char>) -> Seq<char> {
    trimmed_end(trimmed_start(s))
}

/// Removes the white space at both ends.
pub fn trim(s: &str) -> (r: String)
    ensures
        r@ == trimmed(s@),
{
    let v: Vec<char> = chars_of(s);
    let mut a: usize = 0;
    assert(v@.skip(0) =~= s@);
    while a < v.len() && is_white_space(v[a])
        invariant
            a <= v@.len(),
            v@ == s@,
            trimmed_start(s@) == trimmed_start(v@.skip(a as int)),
        decreases v@.len() - a,
    {
        assert(v@.skip(a as int).skip(1) =~= v@.skip(a + 1));
        a += 1;
    }
    assert(trimmed_start(s@) == v@.skip(a as int));
    let mut b: usize = v.len();
    assert(v@.subrange(a as int, b as int) =~= v@.skip(a as int));
    while b > a && is_white_space(v[b - 1])
        invariant
            a <= b <= v@.len(),
            v@ == s@,
            trimmed(s@) == trimmed_end(v@.subrange(a as int, b as int)),
        decreases b,
    {
        assert(v@.subrange(a as int, b as int).drop_last() =~= v@.subrange(a as int, b - 1));
        b -= 1;
    }
    text_of(vstd::slice::slice_subrange(v.as_slice(), a, b))
}

/// An ASCII letter in lower case, any other scalar value as it is.
pub open spec fn lower(c: char) -> char {
    if 'A' <= c <= 'Z' {
        (c as u8 + 32) as char
    } else {
        c
    }
}

/// A text with its ASCII letters in lower case.
pub open spec fn lowered(s: Seq<char>) -> Seq<char> {
    s.map_values(|c: char| lower(c))
}

/// Folds an ASCII letter to lower case.
pub fn lower_char(c: char) -> (r: char)
    ensures
        r == lower(c),
{
    let u: u32 = c as u32;
    if 65 <= u && u <= 90 {
        let b: u8 = c as u8;
        (b + 32) as char
    } else {
        c
    }
}

/// Folds the ASCII letters of a text to lower case.
pub fn to_lower(s: &str) -> (r: String)
    ensures
        r@ == lowered(s@),
{
    let v: Vec<char> = chars_of(s);
    let mut out: String = String::new();
    let mut i: usize = 0;
    while i < v.len()
        invariant
            i <= v@.len(),
            v@ == s@,
            out@ == lowered(s@).take(i as int),
        decreases v@.len() - i,
    {
        push_char(&mut out, lower_char(v[i]));
        i += 1;
        assert(out@ =~= lowered(s@).take(i as int));
    }
    assert(out@ =~= lowered(s@));
    out
}

/// Whether a text begins with another.
pub fn starts_with(s: &str, prefix: &str) -> (r: bool)
    ensures
        r == prefix@.is_prefix_of(s@),
{
    let v: Vec<char> = chars_of(s);
    let p: Vec<char> = chars_of(prefix);
    if p.len() > v.len() {
        return false;
    }
    let mut i: usize = 0;
    while i < p.len()
        invariant
            i <= p@.len() <= v@.len(),
            v@ == s@,
            p@ == prefix@,
            forall|j: int| 0 <= j < i ==> v@[j] == p@[j],
        decreases p@.len() - i,
    {
        if v[i] != p[i] {
            assert(s@.subrange(0, prefix@.len() as int)[i as int] != prefix@[i as int]);
            return false;
        }
        i += 1;
    }
    assert(prefix@ =~= s@.subrange(0, prefix@.len() as int));
    true
}

/// The text after a prefix it is known to have, or nothing.
pub fn strip_prefix(s: &str, prefix: &str) -> (r: Option<String>)
    ensures
        match r {
            Some(rest) => prefix@.is_prefix_of(s@) && rest@ == s@.skip(prefix@.len() as int),
            None => !prefix@.is_prefix_of(s@),
        },
{
    if !starts_with(s, prefix) {
        return None;
    }
    let v: Vec<char> = chars_of(s);
    let n: usize = chars_of(prefix).len();
    let out: String = text_of(vstd::slice::slice_subrange(v.as_slice(), n, v.len()));
    assert(out@ =~= s@.skip(prefix@.len() as int));
    Some(out)
}

/// Whether a text holds the given scalar value.
pub fn holds_char(s: &str, c: char) -> (r: bool)
    ensures
        r == s@.contains(c),
{
    let v: Vec<char> = chars_of(s);
    let mut i: usize = 0;
    while i < v.len()
        invariant
            i <= v@.len(),
            v@ == s@,
            forall|j: int| 0 <= j < i ==> v@[j] != c,
        decreases v@.len() - i,
    {
        if v[i] == c {
            assert(s@[i as int] == c);
            return true;
        }
        i += 1;
    }
    false
}

/// The decimal digits of a number.
pub open spec fn decimal(n: nat) -> Seq<char>
    decreases n,
{
    if n < 10 {
        seq![(48 + n) as u8 as char]
    } else {
        decimal(n / 10).push((48 + n % 10) as u8 as char)
    }
}

/// Writes a number in decimal.
pub fn decimal_of(n: u64) -> (r: String)
    ensures
        r@ == decimal(n as nat),
    decreases n,
{
    if n < 10 {
        let mut out: String = String::new();
        push_char(&mut out, (48 + n as u8) as char);
        assert(out@ =~= decimal(n as nat));
        out
    } else {
        let mut out: String = decimal_of(n / 10);
        push_char(&mut out, (48 + (n % 10) as u8) as char);
        out
    }
}

/// Whether a scalar value is an ASCII digit.
pub open spec fn digit(c: char) -> bool {
    '0' <= c <= '9'
}

/// Texts joined by a separator.
pub open spec fn joined(list: Seq<Seq<char>>, sep: Seq<char>) -> Seq<char>
    decreases list.len(),
{
    if list.len() == 0 {
        Seq::empty()
    } else if list.len() == 1 {
        list[0]
    } else {
        joined(list.drop_last(), sep) + sep + list.last()
    }
}

/// Joins texts with a separator.
pub fn join(list: &Vec<String>, sep: &str) -> (r: String)
    ensures
        r@ == joined(texts(list@), sep@),
{
    let ghost all = texts(list@);
    if list.len() == 0 {
        return String::new();
    }
    let mut out: String = list[0].clone();
    let mut i: usize = 1;
    assert(all.take(1)[0] == list@[0]@);
    while i < list.len()
        invariant
            1 <= i <= list@.len(),
            all == texts(list@),
            out@ == joined(all.take(i as int), sep@),
        decreases list@.len() - i,
    {
        out.append(sep);
        out.append(&list[i]);
        assert(all.take(i + 1).drop_last() =~= all.take(i as int));
        assert(all.take(i + 1).last() == list@[i as int]@);
        i += 1;
    }
    assert(all.take(list@.len() as int) =~= all);
    out
}

/// A text without the trailing occurrences of a scalar value.
pub open spec fn end_trimmed(s: Seq<char>, c: char) -> Seq<char>
    decreases s.len(),
{
    if s.len() > 0 && s.last() == c {
        end_trimmed(s.drop_last(), c)
    } else {
        s
    }
}

/// Removes the trailing occurrences of a scalar value.
pub fn trim_end_char(s: &str, c: char) -> (r: String)
    ensures
        r@ == end_trimmed(s@, c),
{
    let v: Vec<char> = chars_of(s);
    let mut n: usize = v.len();
    assert(v@.take(n as int) =~= s@);
    while n > 0 && v[n - 1] == c
        invariant
            n <= v@.len(),
            v@ == s@,
            end_trimmed(s@, c) == end_trimmed(v@.take(n as int), c),
        decreases n,
    {
        assert(v@.take(n as int).drop_last() =~= v@.take(n - 1));
        n -= 1;
    }
    let out: String = text_of(vstd::slice::slice_subrange(v.as_slice(), 0, n));
    assert(out@ =~= v@.take(n as int));
    out
}

/// Whether two texts are the same up to the case of ASCII letters.
pub fn same_ignoring_case(a: &str, b: &str) -> (r: bool)
    ensures
        r == (lowered(a@) == lowered(b@)),
{
    same(&to_lower(a), &to_lower(b))
}

/// Whether every scalar value is an ASCII digit.
pub fn all_digits(v: &[char]) -> (r: bool)
    ensures
        r == forall|i: int| 0 <= i < v@.len() ==> digit(#[trigger] v@[i]),
{
    let mut i: usize = 0;
    while i < v.len()
        invariant
            i <= v@.len(),
            forall|j: int| 0 <= j < i ==> digit(#[trigger] v@[j]),
        decreases v@.len() - i,
    {
        if !('0' <= v[i] && v[i] <= '9') {
            assert(!digit(v@[i as int]));
            return false;
        }
        i += 1;
    }
    true
}

/// The parts of a text between the separators.
pub open spec fn split(s: Seq<char>, c: char) -> Seq<Seq<char>>
    decreases s.len(),
{
    if s.len() == 0 {
        seq![Seq::<char>::empty()]
    } else {
        let parts = split(s.drop_last(), c);
        if s.last() == c {
            parts.push(Seq::empty())
        } else {
            parts.drop_last().push(parts.last().push(s.last()))
        }
    }
}

/// Some part always remains.
pub proof fn lemma_split_len(s: Seq<char>, c: char)
    ensures
        split(s, c).len() >= 1,
    decreases s.len(),
{
    if s.len() > 0 {
        lemma_split_len(s.drop_last(), c);
    }
}

/// The parts of a text between the separators.
pub fn split_at_char(s: &str, c: char) -> (r: Vec<String>)
    ensures
        texts(r@) == split(s@, c),
        r@.len() >= 1,
{
    let v: Vec<char> = chars_of(s);
    let mut out: Vec<String> = Vec::new();
    let mut part: String = String::new();
    let mut i: usize = 0;
    assert(v@.take(0) =~= Seq::<char>::empty());
    assert(texts(out@).push(part@) =~= split(v@.take(0), c));
    while i < v.len()
        invariant
            i <= v@.len(),
            texts(out@).push(part@) == split(v@.take(i as int), c),
        decreases v@.len() - i,
    {
        let ghost before = texts(out@).push(part@);
        assert(v@.take(i + 1).drop_last() =~= v@.take(i as int));
        assert(before.drop_last() =~= texts(out@));
        if v[i] == c {
            let ghost done = texts(out@);
            let ghost last = part@;
            out.push(part);
            part = String::new();
            assert(texts(out@) =~= done.push(last));
            assert(texts(out@).push(part@) =~= split(v@.take(i + 1), c));
        } else {
            push_char(&mut part, v[i]);
            assert(texts(out@).push(part@) =~= split(v@.take(i + 1), c));
        }
        i += 1;
    }
    assert(v@.take(v@.len() as int) =~= v@);
    let ghost done = texts(out@);
    let ghost last = part@;
    out.push(part);
    assert(texts(out@) =~= done.push(last));
    out
}

/// Where a text first occurs in another.
pub open spec fn occurs_at(s: Seq<char>, part: Seq<char>, i: int) -> bool {
    &&& 0 <= i
    &&& i + part.len() <= s.len()
    &&& s.subrange(i, i + part.len()) == part
}

/// The first place where a text occurs in another.
pub open spec fn first_occurs(s: Seq<char>, part: Seq<char>, i: int) -> bool {
    occurs_at(s, part, i) && forall|j: int| 0 <= j < i ==> !#[trigger] occurs_at(s, part, j)
}

/// The text before and after the first place where another occurs; nothing
/// where it does not occur.
pub open spec fn cut(s: Seq<char>, part: Seq<char>) -> Option<(Seq<char>, Seq<char>)> {
    if exists|i: int| first_occurs(s, part, i) {
        let i = choose|i: int| first_occurs(s, part, i);
        Some((s.take(i), s.skip(i + part.len())))
    } else {
        None
    }
}

/// A text is cut at the first place where the other occurs.
pub proof fn lemma_cut(s: Seq<char>, part: Seq<char>, i: int)
    requires
        first_occurs(s, part, i),
    ensures
        cut(s, part) == Some((s.take(i), s.skip(i + part.len()))),
{
    let k = choose|k: int| first_occurs(s, part, k);
    assert(first_occurs(s, part, k));
    assert(k == i) by {
        if k < i {
            assert(!occurs_at(s, part, k));
        }
        if i < k {
            assert(!occurs_at(s, part, i));
        }
    }
}

fn occurs_here(v: &Vec<char>, part: &Vec<char>, i: usize) -> (r: bool)
    requires
        i + part@.len() <= v@.len(),
    ensures
        r == occurs_at(v@, part@, i as int),
{
    let n: usize = v.len();
    let mut k: usize = 0;
    while k < part.len()
        invariant
            k <= part@.len(),
            i + part@.len() <= v@.len(),
            n == v@.len(),
            forall|j: int| 0 <= j < k ==> v@[i + j] == #[trigger] part@[j],
        decreases part@.len() - k,
    {
        if v[i + k] != part[k] {
            assert(v@.subrange(i as int, i + part@.len())[k as int] != part@[k as int]);
            return false;
        }
        k += 1;
    }
    assert(v@.subrange(i as int, i + part@.len()) =~= part@);
    true
}

/// The text before and after the first place where another occurs.
pub fn cut_at(s: &str, part: &str) -> (r: Option<(String, String)>)
    ensures
        match r {
            Some((a, b)) => cut(s@, part@) == Some((a@, b@)),
            None => cut(s@, part@) is None,
        },
{
    let v: Vec<char> = chars_of(s);
    let p: Vec<char> = chars_of(part);
    if p.len() > v.len() {
        return None;
    }
    let n: usize = v.len();
    let last: usize = n - p.len();
    let mut i: usize = 0;
    let mut going: bool = true;
    while going
        invariant
            v@ == s@,
            p@ == part@,
            n == v@.len(),
            last == n - p@.len(),
            i <= last || !going,
            forall|j: int| 0 <= j < i ==> !#[trigger] occurs_at(s@, part@, j),
            !going ==> i == last + 1,
            last < usize::MAX || p@.len() == 0,
            i <= last + 1,
        decreases last + 2 - i,
    {
        if occurs_here(&v, &p, i) {
            let a: String = text_of(vstd::slice::slice_subrange(v.as_slice(), 0, i));
            let b: String = text_of(vstd::slice::slice_subrange(v.as_slice(), i + p.len(), n));
            proof {
                lemma_cut(s@, part@, i as int);
                assert(a@ =~= s@.take(i as int));
                assert(b@ =~= s@.skip(i + part@.len()));
            }
            return Some((a, b));
        }
        assert(p@.len() > 0) by {
            if p@.len() == 0 {
                assert(s@.subrange(i as int, i as int) =~= part@);
            }
        }
        i += 1;
        if i > last {
            going = false;
        }
    }
    assert(forall|j: int| !#[trigger] first_occurs(s@, part@, j)) by {
        assert forall|j: int| !#[trigger] first_occurs(s@, part@, j) by {
            if first_occurs(s@, part@, j) {
                assert(occurs_at(s@, part@, j));
            }
        }
    }
    None
}

/// The words of a text: what stands between white space.
pub open spec fn words(s: Seq<char>) -> Seq<Seq<char>>
    decreases s.len(),
{
    if s.len() == 0 {
        Seq::empty()
    } else {
        let before = words(s.drop_last());
        if white_space(s.last()) {
            before
        } else if s.len() == 1 || white_space(s[s.len() - 2]) {
            before.push(seq![s.last()])
        } else {
            before.drop_last().push(before.last().push(s.last()))
        }
    }
}

/// The words of a text: what stands between white space.
pub fn split_words(s: &str) -> (r: Vec<String>)
    ensures
        texts(r@) == words(s@),
{
    let v: Vec<char> = chars_of(s);
    let mut out: Vec<String> = Vec::new();
    let mut part: String = String::new();
    let mut within: bool = false;
    let mut i: usize = 0;
    assert(v@.take(0) =~= Seq::<char>::empty());
    assert(texts(out@) =~= words(v@.take(0)));
    while i < v.len()
        invariant
            i <= v@.len(),
            within <==> i > 0 && !white_space(v@[i - 1]),
            within ==> words(v@.take(i as int)) == texts(out@).push(part@),
            !within ==> words(v@.take(i as int)) == texts(out@) && part@ == Seq::<char>::empty(),
        decreases v@.len() - i,
    {
        let ghost before = words(v@.take(i as int));
        let ghost all = texts(out@);
        assert(v@.take(i + 1).drop_last() =~= v@.take(i as int));
        if is_white_space(v[i]) {
            if within {
                let ghost last = part@;
                out.push(part);
                part = String::new();
                assert(texts(out@) =~= all.push(last));
                within = false;
            }
        } else {
            push_char(&mut part, v[i]);
            if within {
                assert(before.drop_last() =~= all);
            } else {
                assert(part@ =~= seq![v@[i as int]]);
            }
            within = true;
            assert(words(v@.take(i + 1)) =~= texts(out@).push(part@));
        }
        i += 1;
    }
    assert(v@.take(v@.len() as int) =~= v@);
    if within {
        let ghost all = texts(out@);
        let ghost last = part@;
        out.push(part);
        assert(texts(out@) =~= all.push(last));
    }
    out
}

/// Splitting loses nothing: the parts, joined again, are the text, and no part
/// has the separator in it.
pub proof fn law_split_parts_make_up_the_text(s: Seq<char>, c: char, i: int)
    ensures
        split(s, c).len() >= 1,
        joined(split(s, c), seq![c]) == s,
        0 <= i < split(s, c).len() ==> !split(s, c)[i].contains(c),
    decreases s.len(),
{
    let parts = split(s, c);
    if s.len() == 0 {
        assert(joined(parts, seq![c]) =~= s);
        assert(!parts[0].contains(c));
    } else {
        let front = s.drop_last();
        let before = split(front, c);
        law_split_parts_make_up_the_text(front, c, i);
        law_split_parts_make_up_the_text(front, c, before.len() - 1);
        if s.last() == c {
            assert(parts.drop_last() =~= before);
            assert(joined(parts, seq![c]) =~= front + seq![c] + Seq::<char>::empty());
            assert(s =~= front + seq![c] + Seq::<char>::empty());
            if i == before.len() {
                assert(!parts[i].contains(c));
            } else if 0 <= i < before.len() {
                assert(parts[i] == before[i]);
            }
        } else {
            assert(parts.drop_last() =~= before.drop_last());
            let last = before.last().push(s.last());
            assert(parts.last() == last);
            if before.len() == 1 {
                assert(joined(parts, seq![c]) == last);
                assert(joined(before, seq![c]) == before[0]);
                assert(s =~= front.push(s.last()));
            } else {
                assert(joined(parts, seq![c]) == joined(before.drop_last(), seq![c]) + seq![c] + last);
                assert(joined(parts, seq![c]) =~= joined(before, seq![c]).push(s.last()));
                assert(s =~= front.push(s.last()));
            }
            if i == parts.len() - 1 {
                assert(!last.contains(c)) by {
                    if last.contains(c) {
                        let k = last.index_of(c);
                        if k < before.last().len() {
                            assert(before.last()[k] == c);
                            assert(before.last().contains(c));
                        }
                    }
                }
            } else if 0 <= i < parts.len() {
                assert(parts[i] == before[i]);
            }
        }
    }
}

/// Joining loses nothing: parts that have no separator in them are found again
/// by splitting what they were joined to.
pub proof fn law_joined_parts_are_split_again(parts: Seq<Seq<char>>, c: char)
    requires
        parts.len() > 0,
        forall|i: int| 0 <= i < parts.len() ==> !(#[trigger] parts[i]).contains(c),
    ensures
        split(joined(parts, seq![c]), c) == parts,
    decreases parts.len(),
{
    if parts.len() == 1 {
        lemma_split_behind(Seq::empty(), parts[0], c);
        assert(Seq::<char>::empty() + parts[0] =~= parts[0]);
        assert(split(parts[0], c) =~= parts);
    } else {
        let front = parts.drop_last();
        assert forall|i: int| 0 <= i < front.len() implies !(#[trigger] front[i]).contains(c) by {
            assert(front[i] == parts[i]);
        }
        law_joined_parts_are_split_again(front, c);
        let head = joined(front, seq![c]) + seq![c];
        assert(head.drop_last() =~= joined(front, seq![c]));
        assert(split(head, c) == front.push(Seq::empty()));
        assert(!parts[parts.len() - 1].contains(c));
        lemma_split_behind(head, parts.last(), c);
        assert(split(head + parts.last(), c) =~= parts);
    }
}

/// What has no separator in it lengthens the last part.
proof fn lemma_split_behind(a: Seq<char>, b: Seq<char>, c: char)
    requires
        !b.contains(c),
    ensures
        split(a + b, c) == split(a, c).drop_last().push(split(a, c).last() + b),
        split(a, c).len() >= 1,
    decreases b.len(),
{
    lemma_split_len(a, c);
    if b.len() == 0 {
        assert(a + b =~= a);
        assert(split(a, c).last() + b =~= split(a, c).last());
        assert(split(a, c).drop_last().push(split(a, c).last()) =~= split(a, c));
    } else {
        let front = b.drop_last();
        assert(!front.contains(c)) by {
            if front.contains(c) {
                assert(b[front.index_of(c)] == c);
            }
        }
        lemma_split_behind(a, front, c);
        assert((a + b).drop_last() =~= a + front);
        assert((a + b).last() == b.last());
        assert(b[b.len() - 1] == b.last());
        assert(b.last() != c);
        let q = split(a + front, c);
        assert(q.drop_last() =~= split(a, c).drop_last());
        assert((split(a, c).last() + front).push(b.last()) =~= split(a, c).last() + b);
    }
}

/// Trimming takes the white space at either end and nothing else.
pub proof fn law_trimming_takes_white_space_alone(s: Seq<char>)
    ensures
        exists|i: int, j: int|
            {
                &&& 0 <= i <= j <= s.len()
                &&& trimmed(s) == #[trigger] s.subrange(i, j)
                &&& forall|k: int| 0 <= k < i || j <= k < s.len() ==> white_space(#[trigger] s[k])
            },
        trimmed(s).len() > 0 ==> !white_space(trimmed(s)[0]) && !white_space(trimmed(s).last()),
{
    let i = lemma_trimmed_start(s);
    let t = trimmed_start(s);
    let j = lemma_trimmed_end(t);
    assert(trimmed(s) =~= s.subrange(i, i + j));
    assert forall|k: int| 0 <= k < i || i + j <= k < s.len() implies white_space(#[trigger] s[k]) by {
        if i + j <= k {
            assert(t[k - i] == s[k]);
        }
    }
    if trimmed(s).len() > 0 {
        assert(trimmed(s)[0] == t[0]);
    }
}

proof fn lemma_trimmed_start(s: Seq<char>) -> (i: int)
    ensures
        0 <= i <= s.len(),
        trimmed_start(s) == s.skip(i),
        forall|k: int| 0 <= k < i ==> white_space(#[trigger] s[k]),
        trimmed_start(s).len() > 0 ==> !white_space(trimmed_start(s)[0]),
    decreases s.len(),
{
    if s.len() > 0 && white_space(s[0]) {
        let i = lemma_trimmed_start(s.skip(1));
        assert(s.skip(1).skip(i) =~= s.skip(i + 1));
        assert forall|k: int| 0 <= k < i + 1 implies white_space(#[trigger] s[k]) by {
            if k > 0 {
                assert(s.skip(1)[k - 1] == s[k]);
            }
        }
        i + 1
    } else {
        assert(s.skip(0) =~= s);
        0
    }
}

proof fn lemma_trimmed_end(s: Seq<char>) -> (j: int)
    ensures
        0 <= j <= s.len(),
        trimmed_end(s) == s.take(j),
        forall|k: int| j <= k < s.len() ==> white_space(#[trigger] s[k]),
        trimmed_end(s).len() > 0 ==> !white_space(trimmed_end(s).last()),
    decreases s.len(),
{
    if s.len() > 0 && white_space(s.last()) {
        let front = s.drop_last();
        let j = lemma_trimmed_end(front);
        assert(front.take(j) =~= s.take(j));
        assert forall|k: int| j <= k < s.len() implies white_space(#[trigger] s[k]) by {
            if k < front.len() {
                assert(front[k] == s[k]);
            }
        }
        j
    } else {
        assert(s.take(s.len() as int) =~= s);
        s.len() as int
    }
}

/// Taking a scalar value off the end takes every trailing one and nothing else.
pub proof fn law_every_trailing_one_is_taken(s: Seq<char>, c: char)
    ensures
        end_trimmed(s, c).is_prefix_of(s),
        forall|k: int| end_trimmed(s, c).len() <= k < s.len() ==> #[trigger] s[k] == c,
        end_trimmed(s, c).len() > 0 ==> end_trimmed(s, c).last() != c,
    decreases s.len(),
{
    if s.len() > 0 && s.last() == c {
        let front = s.drop_last();
        law_every_trailing_one_is_taken(front, c);
        assert forall|k: int| end_trimmed(s, c).len() <= k < s.len() implies #[trigger] s[k] == c by {
            if k < front.len() {
                assert(front[k] == s[k]);
            }
        }
        assert(front.is_prefix_of(s));
    }
}

/// The number that decimal digits write.
pub open spec fn number(digits: Seq<char>) -> nat
    decreases digits.len(),
{
    if digits.len() == 0 {
        0
    } else {
        number(digits.drop_last()) * 10 + (digits.last() as nat - '0' as nat) as nat
    }
}

/// A number that was written in decimal is read back, and it is written without
/// leading zeros.
pub proof fn law_a_written_number_is_read_back(n: nat)
    ensures
        number(decimal(n)) == n,
        decimal(n).len() > 0,
        forall|i: int| 0 <= i < decimal(n).len() ==> digit(#[trigger] decimal(n)[i]),
        n > 0 ==> decimal(n)[0] != '0',
    decreases n,
{
    reveal_with_fuel(number, 2);
    let d = decimal(n);
    if n < 10 {
        let c = (48 + n) as u8 as char;
        assert(d == seq![c]);
        assert(d.drop_last() =~= Seq::<char>::empty());
        assert(c as nat == 48 + n);
    } else {
        law_a_written_number_is_read_back(n / 10);
        let c = (48 + n % 10) as u8 as char;
        assert(d.drop_last() =~= decimal(n / 10));
        assert(c as nat == 48 + n % 10);
        assert forall|i: int| 0 <= i < d.len() implies digit(#[trigger] d[i]) by {
            if i < d.len() - 1 {
                assert(d[i] == decimal(n / 10)[i]);
            }
        }
        assert(d[0] == decimal(n / 10)[0]);
    }
}

/// Lists that are joined one after the other have one more separator between
/// them.
pub proof fn law_joining_goes_part_by_part(a: Seq<Seq<char>>, b: Seq<Seq<char>>, sep: Seq<char>)
    requires
        a.len() > 0,
        b.len() > 0,
    ensures
        joined(a + b, sep) == joined(a, sep) + sep + joined(b, sep),
        joined(seq![a[0]], sep) == a[0],
    decreases b.len(),
{
    let all = a + b;
    assert(all.last() == b.last());
    if b.len() == 1 {
        assert(all.drop_last() =~= a);
    } else {
        let front = b.drop_last();
        assert(all.drop_last() =~= a + front);
        law_joining_goes_part_by_part(a, front, sep);
        assert(joined(all, sep) =~= joined(a, sep) + sep + joined(b, sep));
    }
}

/// A text is cut at the first place where the other occurs: what stands before
/// and after it, with it in between, is the text again, and it does not occur
/// sooner. Where it occurs nowhere, the text is not cut.
pub proof fn law_a_cut_text_is_whole(s: Seq<char>, part: Seq<char>)
    ensures
        match cut(s, part) {
            Some((a, b)) => s == a + part + b && forall|i: int|
                0 <= i < a.len() ==> !#[trigger] occurs_at(s, part, i),
            None => forall|i: int| !#[trigger] occurs_at(s, part, i),
        },
{
    if exists|i: int| first_occurs(s, part, i) {
        let i = choose|i: int| first_occurs(s, part, i);
        lemma_cut(s, part, i);
        assert(s =~= s.take(i) + part + s.skip(i + part.len())) by {
            assert forall|k: int| 0 <= k < part.len() implies s[i + k] == part[k] by {
                assert(s.subrange(i, i + part.len())[k] == s[i + k]);
            }
        }
    } else {
        assert forall|i: int| !#[trigger] occurs_at(s, part, i) by {
            if occurs_at(s, part, i) {
                lemma_occurs_first(s, part, i);
            }
        }
    }
}

proof fn lemma_occurs_first(s: Seq<char>, part: Seq<char>, i: int)
    requires
        occurs_at(s, part, i),
    ensures
        exists|k: int| first_occurs(s, part, k),
    decreases i,
{
    if exists|j: int| 0 <= j < i && #[trigger] occurs_at(s, part, j) {
        let j = choose|j: int| 0 <= j < i && #[trigger] occurs_at(s, part, j);
        lemma_occurs_first(s, part, j);
    } else {
        assert(first_occurs(s, part, i));
    }
}

/// White space parts words and does nothing else: the words of two texts with
/// white space in between are those of the one and those of the other, and a text
/// without white space is one word.
pub proof fn law_white_space_parts_words(a: Seq<char>, w: char, b: Seq<char>)
    requires
        white_space(w),
    ensures
        words(a.push(w) + b) == words(a) + words(b),
        b.len() > 0 && (forall|i: int| 0 <= i < b.len() ==> !white_space(#[trigger] b[i])) ==> words(b) == seq![
            b,
        ],
    decreases b.len(),
{
    let s = a.push(w) + b;
    if b.len() == 0 {
        assert(s =~= a.push(w));
        assert(s.drop_last() =~= a);
        assert(words(a) + words(b) =~= words(a));
    } else {
        let front = b.drop_last();
        let c = b.last();
        assert(s.last() == c);
        assert(s.drop_last() =~= a.push(w) + front);
        law_white_space_parts_words(a, w, front);
        if !white_space(c) {
            if b.len() == 1 {
                assert(front =~= Seq::<char>::empty());
                assert(s[s.len() - 2] == w);
                assert(words(front) =~= Seq::<Seq<char>>::empty());
                assert(words(b) =~= seq![seq![c]]);
                assert(b =~= seq![c]);
            } else {
                assert(s[s.len() - 2] == b[b.len() - 2]);
                assert(front.last() == b[b.len() - 2]);
                if !white_space(front.last()) {
                    lemma_some_word(front);
                    assert((words(a) + words(front)).drop_last() =~= words(a) + words(front).drop_last());
                    assert((words(a) + words(front)).last() == words(front).last());
                }
            }
            assert(words(s) =~= words(a) + words(b));
        }
        if forall|i: int| 0 <= i < b.len() ==> !white_space(#[trigger] b[i]) {
            assert forall|i: int| 0 <= i < front.len() implies !white_space(#[trigger] front[i]) by {
                assert(front[i] == b[i]);
            }
            assert(b[b.len() - 1] == c);
            if b.len() > 1 {
                assert(b[b.len() - 2] == front.last());
                assert(words(front) == seq![front]);
                assert(seq![front].drop_last() =~= Seq::<Seq<char>>::empty());
                assert(front.push(c) =~= b);
                assert(words(b) =~= seq![b]);
            }
        }
    }
}

proof fn lemma_some_word(s: Seq<char>)
    requires
        s.len() > 0,
        !white_space(s.last()),
    ensures
        words(s).len() > 0,
    decreases s.len(),
{
    if s.len() > 1 && !white_space(s[s.len() - 2]) {
        assert(s.drop_last().last() == s[s.len() - 2]);
        lemma_some_word(s.drop_last());
    }
}

/// Folding changes ASCII capitals alone, and folding twice is folding once.
pub proof fn law_folding_changes_capitals_alone(s: Seq<char>, i: int)
    requires
        0 <= i < s.len(),
    ensures
        lowered(s).len() == s.len(),
        'A' <= s[i] <= 'Z' ==> lowered(s)[i] as int == s[i] as int + 32,
        !('A' <= s[i] <= 'Z') ==> lowered(s)[i] == s[i],
        lowered(lowered(s)) == lowered(s),
{
    assert forall|k: int| 0 <= k < s.len() implies lower(lower(#[trigger] s[k])) == lower(s[k]) by {
        if 'A' <= s[k] <= 'Z' {
            assert(lower(s[k]) as int == s[k] as int + 32);
        }
    }
    assert(lowered(lowered(s)) =~= lowered(s));
}

/// Nothing of a list goes unseen, and a list shows
/// every item in its place.
pub proof fn law_nothing_goes_unseen(x: Seq<String>, i: int)
    ensures
        texts(x).len() == x.len(),
        0 <= i < x.len() ==> texts(x)[i] == x[i]@,
{
}

/// An optional text is seen whenever it is there, and only then.
pub proof fn law_an_optional_text_is_seen(a: Option<String>, b: Option<&str>)
    ensures
        opt_text(a) is Some <==> a is Some,
        a matches Some(t) ==> opt_text(a) == Some(t@),
        opt_str(b) is Some <==> b is Some,
        b matches Some(t) ==> opt_str(b) == Some(t@),
{
}

} // verus!
