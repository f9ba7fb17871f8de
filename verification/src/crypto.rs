//! Digests, random values and the encodings built on them.
use base64::Engine;
use sha2::Digest;
use subtle::ConstantTimeEq;
use vstd::prelude::*;
use vstd::utf8::*;

verus! {

/// What `sha2::Sha256` computes.
pub uninterp spec fn sha256_of(bytes: Seq<u8>) -> Seq<u8>;

/// `sha2::Sha256::digest`: the SHA-256 digest, 32 bytes.
#[verifier::external_body]
pub(crate) fn sha256_bytes(bytes: &[u8]) -> (r: Vec<u8>)
    ensures
        r@ == sha256_of(bytes@),
        r@.len() == 32,
{
    sha2::Sha256::digest(bytes).to_vec()
}

/// What `base64` writes with the URL-safe alphabet and no padding.
pub uninterp spec fn base64url_of(bytes: Seq<u8>) -> Seq<char>;

/// What `base64` reads with the URL-safe alphabet and no padding.
pub uninterp spec fn base64url_bytes(text: Seq<char>) -> Option<Seq<u8>>;

/// `base64::Engine::encode` of `URL_SAFE_NO_PAD`: the encoding of the bytes,
/// which decodes to the same bytes again. It is ASCII: four characters for
/// three bytes, and two or three for what is left over.
#[verifier::external_body]
pub(crate) fn base64url_encode(bytes: &[u8]) -> (r: String)
    ensures
        r@ == base64url_of(bytes@),
        base64url_bytes(r@) == Some(bytes@),
        r@.len() == (4 * bytes@.len() + 2) / 3,
        is_ascii_chars(r@),
{
    base64::engine::general_purpose::URL_SAFE_NO_PAD.encode(bytes)
}

/// `base64::Engine::decode` of `URL_SAFE_NO_PAD`: the bytes that a text
/// encodes, or nothing where it is no encoding.
#[verifier::external_body]
pub(crate) fn base64url_decode(text: &str) -> (r: Option<Vec<u8>>)
    ensures
        match r {
            Some(v) => base64url_bytes(text@) == Some(v@),
            None => base64url_bytes(text@) is None,
        },
{
    base64::engine::general_purpose::URL_SAFE_NO_PAD.decode(text.as_bytes()).ok()
}

/// `getrandom::fill` of 32 bytes. Nothing is known of the bytes; there are
/// none when the operating system has no random source.
#[verifier::external_body]
pub(crate) fn random_bytes() -> (r: Option<Vec<u8>>)
    ensures
        r matches Some(v) ==> v@.len() == 32,
{
    let mut buf = [0u8; 32];
    match getrandom::fill(&mut buf) {
        Ok(()) => Some(buf.to_vec()),
        Err(_) => None,
    }
}

/// `subtle::ConstantTimeEq::ct_eq` on the bytes of two texts: whether they are
/// equal.
#[verifier::external_body]
pub(crate) fn constant_time_eq(a: &str, b: &str) -> (r: bool)
    ensures
        r == (a@ == b@),
{
    a.as_bytes().ct_eq(b.as_bytes()).into()
}

/// `String::from_utf8`: the text that the bytes encode, if they are UTF-8.
#[verifier::external_body]
pub(crate) fn text_from_utf8(bytes: Vec<u8>) -> (r: Option<String>)
    ensures
        match r {
            Some(s) => encode_utf8(s@) == bytes@,
            None => !valid_utf8(bytes@),
        },
{
    String::from_utf8(bytes).ok()
}

/// One hexadecimal digit, in lower case.
pub open spec fn hex_digit(n: int) -> char {
    if n < 10 {
        (48 + n) as u8 as char
    } else {
        (87 + n) as u8 as char
    }
}

/// Bytes in lower-case hexadecimal.
pub open spec fn hex(bytes: Seq<u8>) -> Seq<char>
    decreases bytes.len(),
{
    if bytes.len() == 0 {
        Seq::empty()
    } else {
        hex(bytes.drop_last()).push(hex_digit(bytes.last() as int / 16)).push(
            hex_digit(bytes.last() as int % 16),
        )
    }
}

fn hex_char(n: u8) -> (r: char)
    requires
        n < 16,
    ensures
        r == hex_digit(n as int),
{
    if n < 10 {
        (48 + n) as char
    } else {
        (87 + n) as char
    }
}

fn hex_text(bytes: &Vec<u8>) -> (r: String)
    ensures
        r@ == hex(bytes@),
{
    let mut out: String = String::new();
    let mut i: usize = 0;
    assert(bytes@.take(0) =~= Seq::<u8>::empty());
    while i < bytes.len()
        invariant
            i <= bytes@.len(),
            out@ == hex(bytes@.take(i as int)),
        decreases bytes@.len() - i,
    {
        assert(bytes@.take(i + 1).drop_last() =~= bytes@.take(i as int));
        crate::text::push_char(&mut out, hex_char(bytes[i] / 16));
        crate::text::push_char(&mut out, hex_char(bytes[i] % 16));
        i += 1;
    }
    assert(bytes@.take(bytes@.len() as int) =~= bytes@);
    out
}

/// Hexadecimal has two digits for each byte, from `0` to `9` and `a` to `f`.
pub proof fn lemma_hex(bytes: Seq<u8>)
    ensures
        hex(bytes).len() == 2 * bytes.len(),
        forall|i: int|
            0 <= i < hex(bytes).len() ==> ('0' <= #[trigger] hex(bytes)[i] <= '9' || 'a' <= hex(
                bytes,
            )[i] <= 'f'),
    decreases bytes.len(),
{
    if bytes.len() > 0 {
        lemma_hex(bytes.drop_last());
    }
}

/// The digest of a token value: the store holds this, never the value.
pub open spec fn digest_of(token: Seq<char>) -> Seq<char> {
    hex(sha256_of(encode_utf8(token)))
}

/// Lower-case hexadecimal SHA-256 of a byte string.
pub fn sha256(bytes: &[u8]) -> (r: String)
    ensures
        r@ == hex(sha256_of(bytes@)),
        crate::service::is_fingerprint(r@),
{
    let d: Vec<u8> = sha256_bytes(bytes);
    proof {
        lemma_hex(d@);
    }
    hex_text(&d)
}

/// Lower-case hexadecimal SHA-256 of a token value.
pub fn digest(token: &str) -> (r: String)
    ensures
        r@ == digest_of(token@),
{
    sha256(token.as_bytes())
}

/// The text writes 32 bytes in base64url without padding.
pub open spec fn is_token(s: Seq<char>) -> bool {
    &&& base64url_bytes(s) matches Some(v) && v.len() == 32
    &&& s.len() == 43
    &&& is_ascii_chars(s)
}

/// The token that bytes make: base64url without padding.
pub fn token_of(bytes: &[u8]) -> (r: String)
    ensures
        r@ == base64url_of(bytes@),
        base64url_bytes(r@) == Some(bytes@),
        bytes@.len() == 32 ==> is_token(r@),
{
    base64url_encode(bytes)
}

/// 32 random bytes, base64url without padding; nothing when the operating
/// system has no random source.
pub fn new_token() -> (r: Option<String>)
    ensures
        r matches Some(s) ==> is_token(s@),
{
    match random_bytes() {
        Some(v) => Some(token_of(&v)),
        None => None,
    }
}

/// The S256 challenge of a verifier.
pub open spec fn challenge_of(verifier: Seq<char>) -> Seq<char> {
    base64url_of(sha256_of(encode_utf8(verifier)))
}

/// The S256 PKCE challenge for a verifier, base64url without padding.
pub fn s256_challenge(verifier: &str) -> (r: String)
    ensures
        r@ == challenge_of(verifier@),
{
    base64url_encode(&sha256_bytes(verifier.as_bytes()))
}

/// Constant-time comparison for a digest.
pub fn digest_eq(a: &str, b: &str) -> (r: bool)
    ensures
        r == (a@ == b@),
{
    constant_time_eq(a, b)
}

/// Where the first zero byte stands.
pub open spec fn first_zero(bytes: Seq<u8>, i: int) -> bool {
    0 <= i < bytes.len() && bytes[i] == 0 && forall|j: int| 0 <= j < i ==> bytes[j] != 0
}

/// The issuer and the subject that a decoded identifier joins: the bytes
/// before and after the first zero byte, both UTF-8 and the second not empty.
pub open spec fn split_principal(bytes: Seq<u8>) -> Option<(Seq<char>, Seq<char>)> {
    if exists|i: int| first_zero(bytes, i) {
        let i = choose|i: int| first_zero(bytes, i);
        let (iss, sub) = (bytes.take(i), bytes.skip(i + 1));
        if valid_utf8(iss) && valid_utf8(sub) && sub.len() > 0 {
            Some((decode_utf8(iss), decode_utf8(sub)))
        } else {
            None
        }
    } else {
        None
    }
}

/// What a principal identifier stands for.
pub open spec fn principal_of(id: Seq<char>) -> Option<(Seq<char>, Seq<char>)> {
    match base64url_bytes(id) {
        Some(bytes) => split_principal(bytes),
        None => None,
    }
}

/// The text that joins an issuer and a subject.
pub open spec fn joined_principal(iss: Seq<char>, sub: Seq<char>) -> Seq<char> {
    iss.push('\0') + sub
}

/// UTF-8 of a joined text is the UTF-8 of its parts.
pub proof fn lemma_utf8_concat(a: Seq<char>, b: Seq<char>)
    ensures
        encode_utf8(a + b) == encode_utf8(a) + encode_utf8(b),
    decreases a.len(),
{
    if a.len() == 0 {
        assert(a + b =~= b);
        assert(encode_utf8(a) + encode_utf8(b) =~= encode_utf8(b));
    } else {
        lemma_utf8_concat(a.drop_first(), b);
        assert((a + b).drop_first() =~= a.drop_first() + b);
        assert((a + b)[0] == a[0]);
        assert(encode_utf8(a + b) =~= encode_utf8(a) + encode_utf8(b));
    }
}

/// Only a NUL is encoded with a zero byte.
proof fn lemma_no_zero(s: Seq<char>)
    requires
        !s.contains('\0'),
    ensures
        forall|i: int| 0 <= i < encode_utf8(s).len() ==> #[trigger] encode_utf8(s)[i] != 0,
    decreases s.len(),
{
    if s.len() > 0 {
        let t = s.drop_first();
        assert forall|i: int| 0 <= i < t.len() implies #[trigger] t[i] != '\0' by {
            assert(s[i + 1] == t[i]);
        }
        lemma_no_zero(t);
        assert(s[0] != '\0');
        lemma_scalar_no_zero(s[0]);
        let h = encode_scalar(s[0] as u32);
        assert(encode_utf8(s) == h + encode_utf8(t));
        assert forall|i: int| 0 <= i < encode_utf8(s).len() implies #[trigger] encode_utf8(s)[i] != 0 by {
            if i < h.len() {
                assert(encode_utf8(s)[i] == h[i]);
            } else {
                assert(encode_utf8(s)[i] == encode_utf8(t)[i - h.len()]);
            }
        }
    }
}

proof fn lemma_scalar_no_zero(c: char)
    requires
        c != '\0',
    ensures
        forall|i: int|
            0 <= i < encode_scalar(c as u32).len() ==> #[trigger] encode_scalar(c as u32)[i] != 0,
{
    let v = c as u32;
    assert(forall|x: u8| #[trigger] (0x80u8 | x) != 0) by (bit_vector);
    assert(forall|x: u8| #[trigger] (0xC0u8 | x) != 0) by (bit_vector);
    assert(forall|x: u8| #[trigger] (0xE0u8 | x) != 0) by (bit_vector);
    assert(forall|x: u8| #[trigger] (0xF0u8 | x) != 0) by (bit_vector);
    if v <= 0x7F {
        assert((v & 0x7F) as u8 != 0) by (bit_vector)
            requires
                0 < v <= 0x7F,
        ;
    }
}

/// Decoding a joined identifier gives its parts back.
proof fn lemma_split_principal(iss: Seq<char>, sub: Seq<char>)
    requires
        !iss.contains('\0'),
    ensures
        split_principal(encode_utf8(joined_principal(iss, sub))) == (if sub.len() > 0 {
            Some((iss, sub))
        } else {
            None
        }),
{
    let bytes = encode_utf8(joined_principal(iss, sub));
    let (a, z, b) = (encode_utf8(iss), encode_utf8(seq!['\0']), encode_utf8(sub));
    let n = a.len() as int;
    assert(iss.push('\0') =~= iss + seq!['\0']);
    lemma_utf8_concat(iss, seq!['\0']);
    lemma_utf8_concat(iss.push('\0'), sub);
    assert(bytes == a + z + b);
    assert(z =~= seq![0u8]) by {
        assert((0u32 & 0x7F) as u8 == 0) by (bit_vector);
        assert(seq!['\0'].drop_first() =~= Seq::<char>::empty());
        assert(encode_utf8(Seq::<char>::empty()) =~= Seq::<u8>::empty());
        assert(encode_scalar(0) =~= seq![0u8]);
    }
    lemma_no_zero(iss);
    assert(first_zero(bytes, n)) by {
        assert(bytes[n] == z[0]);
        assert forall|j: int| 0 <= j < n implies bytes[j] != 0 by {
            assert(bytes[j] == a[j]);
        }
    }
    let i = choose|i: int| first_zero(bytes, i);
    assert(i == n);
    assert(bytes.take(n) =~= a);
    assert(bytes.skip(n + 1) =~= b);
    encode_utf8_valid_utf8(iss);
    encode_utf8_valid_utf8(sub);
    encode_utf8_decode_utf8(iss);
    encode_utf8_decode_utf8(sub);
    if sub.len() > 0 {
        char_is_scalar(sub[0]);
        assert(encode_scalar(sub[0] as u32).len() > 0);
    }
}

/// The identifier of a principal in the admin API: base64url of the issuer, a
/// NUL and the subject. One path segment, so that a route never needs to split
/// an issuer URL. [`parse_principal_id`] gives the two back, unless the issuer
/// holds a NUL.
pub fn principal_id(iss: &str, sub: &str) -> (r: String)
    ensures
        r@ == base64url_of(encode_utf8(joined_principal(iss@, sub@))),
        !iss@.contains('\0') && sub@.len() > 0 ==> principal_of(r@) == Some((iss@, sub@)),
        !iss@.contains('\0') && sub@.len() == 0 ==> principal_of(r@) is None,
{
    let mut text: String = iss.to_owned();
    crate::text::push_char(&mut text, '\0');
    text.append(sub);
    proof {
        if !iss@.contains('\0') {
            lemma_split_principal(iss@, sub@);
        }
    }
    base64url_encode(text.as_str().as_bytes())
}

/// Splits a [`principal_id`] back into issuer and subject; nothing for
/// anything this server did not issue.
pub fn parse_principal_id(id: &str) -> (r: Option<(String, String)>)
    ensures
        match r {
            Some((iss, sub)) => principal_of(id@) == Some((iss@, sub@)),
            None => principal_of(id@) is None,
        },
{
    let raw: Vec<u8> = match base64url_decode(id) {
        Some(v) => v,
        None => {
            return None;
        },
    };
    let mut i: usize = 0;
    while i < raw.len() && raw[i] != 0
        invariant
            i <= raw@.len(),
            forall|j: int| 0 <= j < i ==> raw@[j] != 0,
        decreases raw@.len() - i,
    {
        i += 1;
    }
    if i == raw.len() {
        return None;
    }
    proof {
        assert(first_zero(raw@, i as int));
        let k = choose|k: int| first_zero(raw@, k);
        assert(k == i);
    }
    let head: Vec<u8> = vstd::slice::slice_to_vec(vstd::slice::slice_subrange(raw.as_slice(), 0, i));
    let tail: Vec<u8> = vstd::slice::slice_to_vec(
        vstd::slice::slice_subrange(raw.as_slice(), i + 1, raw.len()),
    );
    assert(head@ =~= raw@.take(i as int));
    assert(tail@ =~= raw@.skip(i + 1));
    let empty: bool = tail.len() == 0;
    match (text_from_utf8(head), text_from_utf8(tail)) {
        (Some(iss), Some(sub)) => {
            proof {
                encode_utf8_valid_utf8(iss@);
                encode_utf8_valid_utf8(sub@);
                encode_utf8_decode_utf8(iss@);
                encode_utf8_decode_utf8(sub@);
            }
            if empty {
                None
            } else {
                Some((iss, sub))
            }
        },
        _ => None,
    }
}

/// The reserved client identifier of this server's own admin UI.
pub const ADMIN_CLIENT_ID: &'static str = "mcpmem-admin-ui";

/// The reserved client identifier of this server's own graph viewer.
pub const GRAPH_CLIENT_ID: &'static str = "mcpmem-graph-ui";

/// Bytes are written one behind the other, two digits for each, and different
/// bytes are written differently.
pub proof fn law_hexadecimal_tells_bytes_apart(a: Seq<u8>, b: Seq<u8>)
    ensures
        hex(a).len() == 2 * a.len(),
        hex(a + b) == hex(a) + hex(b),
        hex(a) == hex(b) ==> a == b,
    decreases b.len(), a.len(),
{
    if b.len() == 0 {
        assert(a + b =~= a);
        assert(hex(a) + hex(b) =~= hex(a));
        lemma_hex(a);
        if hex(a) == hex(b) {
            assert(a =~= b);
        }
    } else {
        let (x, y) = (a.drop_last(), b.drop_last());
        lemma_hex(a);
        lemma_hex(b);
        law_hexadecimal_tells_bytes_apart(a, y);
        assert((a + b).drop_last() =~= a + y);
        assert((a + b).last() == b.last());
        assert(hex(a + b) =~= hex(a) + hex(b));
        if hex(a) == hex(b) {
            assert(a.len() == b.len());
            law_hexadecimal_tells_bytes_apart(x, y);
            let (p, q) = (hex(a), hex(b));
            assert(p.take(p.len() - 2) =~= hex(x));
            assert(q.take(q.len() - 2) =~= hex(y));
            let (c, d) = (a.last() as int, b.last() as int);
            assert(p[p.len() - 2] == hex_digit(c / 16) && p[p.len() - 1] == hex_digit(c % 16));
            assert(q[q.len() - 2] == hex_digit(d / 16) && q[q.len() - 1] == hex_digit(d % 16));
            lemma_digits_differ(c / 16, d / 16);
            lemma_digits_differ(c % 16, d % 16);
            assert(x.push(a.last()) =~= a);
            assert(y.push(b.last()) =~= b);
        }
    }
}

proof fn lemma_digits_differ(m: int, n: int)
    requires
        0 <= m < 16,
        0 <= n < 16,
        hex_digit(m) == hex_digit(n),
    ensures
        m == n,
{
    let (c, d) = (hex_digit(m), hex_digit(n));
    assert(c as int == if m < 10 {
        48 + m
    } else {
        87 + m
    });
    assert(d as int == if n < 10 {
        48 + n
    } else {
        87 + n
    });
}

/// An identifier of a principal is cut at its first zero byte: what stands before
/// it is the issuer, and what stands behind it, if anything does, the subject.
pub proof fn law_an_identifier_is_cut_at_its_first_zero(iss: Seq<u8>, sub: Seq<u8>)
    requires
        !iss.contains(0),
        valid_utf8(iss) && valid_utf8(sub),
    ensures
        sub.len() > 0 ==> split_principal(iss.push(0) + sub) == Some((decode_utf8(iss), decode_utf8(sub))),
        sub.len() == 0 ==> split_principal(iss.push(0) + sub) is None,
        split_principal(iss) is None,
{
    let all = iss.push(0) + sub;
    let at = iss.len() as int;
    assert forall|j: int| 0 <= j < at implies all[j] != 0 by {
        assert(all[j] == iss[j]);
        assert(iss.contains(iss[j]));
    }
    assert(first_zero(all, at));
    let k = choose|k: int| first_zero(all, k);
    assert(k == at) by {
        if k < at {
            assert(all[k] != 0);
        }
        if at < k {
            assert(all[at] == 0);
        }
    }
    assert(all.take(at) =~= iss);
    assert(all.skip(at + 1) =~= sub);
    assert forall|j: int| !first_zero(iss, j) by {
        if first_zero(iss, j) {
            assert(iss.contains(iss[j]));
        }
    }
}

} // verus!
