//! The upstream OpenID Connect provider that authenticates the human.
//!
//! The program fetches documents and posts forms. What is sent, which key a
//! token is checked with, and what a token must say are decided here.
use vstd::prelude::*;

use crate::crypto::base64url_bytes;
use crate::text::{end_trimmed, opt_text, same, texts, trim_end_char};

verus! {

/// The largest document read from the provider, in bytes.
pub const MAX_DOCUMENT_BYTES: usize = 262144;

/// Why the provider could not vouch for a human.
#[derive(Debug)]
pub enum UpstreamError {
    Transport(String),
    Discovery(String),
    TokenEndpoint(String),
    Malformed(String),
    /// The identity token names a key the provider does not publish.
    UnknownKey,
    Signature,
    Audience,
    Issuer,
    Expired,
    /// The identity token answers another authorization request.
    Nonce,
}

/// What a verified identity token says about the human. `email` is display
/// text; the subject is `sub`.
#[derive(Debug)]
pub struct IdentityClaims {
    pub iss: String,
    pub sub: String,
    pub email: Option<String>,
    pub nonce: Option<String>,
}

/// What the provider publishes about itself.
#[derive(Debug)]
pub struct DiscoveryDocument {
    pub issuer: String,
    pub authorization_endpoint: String,
    pub token_endpoint: String,
    pub jwks_uri: String,
}

/// One published key.
#[derive(Debug)]
pub struct Jwk {
    pub kty: String,
    pub kid: Option<String>,
    pub alg: Option<String>,
    pub n: Option<String>,
    pub e: Option<String>,
    pub x: Option<String>,
    pub y: Option<String>,
}

/// A provider that was discovered. The endpoints are URLs in their normal
/// form.
#[derive(Debug)]
pub struct Provider {
    pub issuer: String,
    pub authorization_endpoint: String,
    pub token_endpoint: String,
    pub jwks_uri: String,
    pub keys: Vec<Jwk>,
}

// ---------------------------------------------------------------------------
// Discovery
// ---------------------------------------------------------------------------

/// The normal form that `url::Url` gives a URL.
pub uninterp spec fn normal_url(s: Seq<char>) -> Option<Seq<char>>;

/// `url::Url::parse`: the URL in its normal form, or the reason why the text
/// is none.
#[verifier::external_body]
pub(crate) fn parse_url(s: &str) -> (r: std::result::Result<String, String>)
    ensures
        match r {
            Ok(u) => normal_url(s@) == Some(u@),
            Err(_) => normal_url(s@) is None,
        },
{
    match url::Url::parse(s) {
        Ok(u) => Ok(u.into()),
        Err(e) => Err(e.to_string()),
    }
}

/// The URL that `url::Url` writes after the pairs are appended to the query of
/// a URL.
pub uninterp spec fn url_with_query(s: Seq<char>, pairs: Seq<(Seq<char>, Seq<char>)>) -> Option<
    Seq<char>,
>;

/// The texts of a list of pairs.
pub open spec fn pair_texts(v: Seq<(String, String)>) -> Seq<(Seq<char>, Seq<char>)> {
    v.map_values(|p: (String, String)| (p.0@, p.1@))
}

/// `url::Url::query_pairs_mut` and `extend_pairs`: the URL with the pairs
/// appended to its query; nothing where the text is no URL.
#[verifier::external_body]
pub(crate) fn append_query(s: &str, pairs: &Vec<(String, String)>) -> (r: Option<String>)
    ensures
        match r {
            Some(u) => url_with_query(s@, pair_texts(pairs@)) == Some(u@),
            None => url_with_query(s@, pair_texts(pairs@)) is None,
        },
{
    let mut u = url::Url::parse(s).ok()?;
    u.query_pairs_mut().extend_pairs(pairs);
    Some(u.into())
}

/// Where the provider publishes its discovery document.
pub fn discovery_url(issuer: &str) -> (r: String)
    ensures
        r@ == end_trimmed(issuer@, '/') + "/.well-known/openid-configuration"@,
{
    trim_end_char(issuer, '/').concat("/.well-known/openid-configuration")
}

/// The error says that an endpoint is no URL, and then why.
pub open spec fn not_a_url(e: UpstreamError, name: Seq<char>, value: Seq<char>) -> bool {
    e matches UpstreamError::Discovery(m) && (name + " is not a URL: "@ + value + ": "@).is_prefix_of(m@)
}

/// One endpoint of a discovery document.
fn endpoint(name: &str, value: &str) -> (r: std::result::Result<String, UpstreamError>)
    ensures
        match r {
            Ok(u) => normal_url(value@) == Some(u@),
            Err(e) => normal_url(value@) is None && not_a_url(e, name@, value@),
        },
{
    match parse_url(value) {
        Ok(u) => Ok(u),
        Err(e) => Err(
            UpstreamError::Discovery(
                name.to_owned().concat(" is not a URL: ").concat(value).concat(": ").concat(&e),
            ),
        ),
    }
}

/// The document is one of the issuer that was asked, with three URLs. A
/// trailing slash is the one difference of the issuer that is tolerated.
pub open spec fn usable(document: DiscoveryDocument, issuer: Seq<char>) -> bool {
    &&& end_trimmed(document.issuer@, '/') == end_trimmed(issuer, '/')
    &&& normal_url(document.authorization_endpoint@) is Some
    &&& normal_url(document.token_endpoint@) is Some
    &&& normal_url(document.jwks_uri@) is Some
}

impl Provider {
    /// The provider that a discovery document describes, without its keys.
    pub fn from_document(issuer: &str, document: DiscoveryDocument) -> (r: std::result::Result<
        Provider,
        UpstreamError,
    >)
        ensures
            match r {
                Ok(p) => {
                    &&& usable(document, issuer@)
                    &&& p.issuer@ == document.issuer@
                    &&& Some(p.authorization_endpoint@) == normal_url(document.authorization_endpoint@)
                    &&& Some(p.token_endpoint@) == normal_url(document.token_endpoint@)
                    &&& Some(p.jwks_uri@) == normal_url(document.jwks_uri@)
                    &&& p.keys@.len() == 0
                },
                Err(e) => if end_trimmed(document.issuer@, '/') != end_trimmed(issuer@, '/') {
                    e matches UpstreamError::Discovery(m) && m@ == "the document at "@ + (end_trimmed(
                        issuer@,
                        '/',
                    ) + "/.well-known/openid-configuration"@) + " names the issuer '"@ + document.issuer@
                        + "'"@
                } else if normal_url(document.authorization_endpoint@) is None {
                    not_a_url(e, "authorization_endpoint"@, document.authorization_endpoint@)
                } else if normal_url(document.token_endpoint@) is None {
                    not_a_url(e, "token_endpoint"@, document.token_endpoint@)
                } else {
                    normal_url(document.jwks_uri@) is None && not_a_url(
                        e,
                        "jwks_uri"@,
                        document.jwks_uri@,
                    )
                },
            },
    {
        if !same(&trim_end_char(&document.issuer, '/'), &trim_end_char(issuer, '/')) {
            return Err(
                UpstreamError::Discovery(
                    "the document at ".to_owned().concat(&discovery_url(issuer)).concat(
                        " names the issuer '",
                    ).concat(&document.issuer).concat("'"),
                ),
            );
        }
        let authorization_endpoint: String = match endpoint(
            "authorization_endpoint",
            &document.authorization_endpoint,
        ) {
            Ok(u) => u,
            Err(e) => {
                return Err(e);
            },
        };
        let token_endpoint: String = match endpoint("token_endpoint", &document.token_endpoint) {
            Ok(u) => u,
            Err(e) => {
                return Err(e);
            },
        };
        let jwks_uri: String = match endpoint("jwks_uri", &document.jwks_uri) {
            Ok(u) => u,
            Err(e) => {
                return Err(e);
            },
        };
        Ok(
            Provider {
                issuer: document.issuer,
                authorization_endpoint,
                token_endpoint,
                jwks_uri,
                keys: Vec::new(),
            },
        )
    }

    pub fn authorization_endpoint(&self) -> (r: &str)
        ensures
            r@ == self.authorization_endpoint@,
    {
        &self.authorization_endpoint
    }

    pub fn token_endpoint(&self) -> (r: &str)
        ensures
            r@ == self.token_endpoint@,
    {
        &self.token_endpoint
    }

    pub fn jwks_uri(&self) -> (r: &str)
        ensures
            r@ == self.jwks_uri@,
    {
        &self.jwks_uri
    }

    /// The issuer identifier this provider publishes, which is what an `iss`
    /// claim and a principal entry are matched against.
    pub fn issuer(&self) -> (r: &str)
        ensures
            r@ == self.issuer@,
    {
        &self.issuer
    }

    /// The URL to send the human to. `redirect_uri` is this server's own
    /// callback, never the client's. Nothing where the provider's endpoint is
    /// no URL.
    pub fn authorize_url(
        &self,
        client_id: &str,
        redirect_uri: &str,
        state: &str,
        nonce: &str,
        challenge: &str,
    ) -> (r: Option<String>)
        ensures
            crate::text::opt_text(r) == url_with_query(
                self.authorization_endpoint@,
                authorize_pairs(client_id@, redirect_uri@, state@, nonce@, challenge@),
            ),
    {
        let mut pairs: Vec<(String, String)> = Vec::new();
        pairs.push(("response_type".to_owned(), "code".to_owned()));
        pairs.push(("client_id".to_owned(), client_id.to_owned()));
        pairs.push(("redirect_uri".to_owned(), redirect_uri.to_owned()));
        pairs.push(("scope".to_owned(), "openid email".to_owned()));
        pairs.push(("state".to_owned(), state.to_owned()));
        pairs.push(("nonce".to_owned(), nonce.to_owned()));
        pairs.push(("code_challenge".to_owned(), challenge.to_owned()));
        pairs.push(("code_challenge_method".to_owned(), "S256".to_owned()));
        assert(pair_texts(pairs@) =~= authorize_pairs(
            client_id@,
            redirect_uri@,
            state@,
            nonce@,
            challenge@,
        ));
        append_query(&self.authorization_endpoint, &pairs)
    }
}

/// The query of an authorization request.
pub open spec fn authorize_pairs(
    client_id: Seq<char>,
    redirect_uri: Seq<char>,
    state: Seq<char>,
    nonce: Seq<char>,
    challenge: Seq<char>,
) -> Seq<(Seq<char>, Seq<char>)> {
    seq![
        ("response_type"@, "code"@),
        ("client_id"@, client_id),
        ("redirect_uri"@, redirect_uri),
        ("scope"@, "openid email"@),
        ("state"@, state),
        ("nonce"@, nonce),
        ("code_challenge"@, challenge),
        ("code_challenge_method"@, "S256"@),
    ]
}

/// The form of a code exchange.
pub open spec fn exchange_pairs(
    code: Seq<char>,
    verifier: Seq<char>,
    client_id: Seq<char>,
    client_secret: Option<Seq<char>>,
    redirect_uri: Seq<char>,
) -> Seq<(Seq<char>, Seq<char>)> {
    let form = seq![
        ("grant_type"@, "authorization_code"@),
        ("code"@, code),
        ("code_verifier"@, verifier),
        ("client_id"@, client_id),
        ("redirect_uri"@, redirect_uri),
    ];
    match client_secret {
        Some(secret) => form.push(("client_secret"@, secret)),
        None => form,
    }
}

/// The form to post to the token endpoint. `client_secret` is sent only when
/// the operator configured one.
pub fn exchange_form(
    code: &str,
    verifier: &str,
    client_id: &str,
    client_secret: Option<&str>,
    redirect_uri: &str,
) -> (r: Vec<(String, String)>)
    ensures
        pair_texts(r@) == exchange_pairs(
            code@,
            verifier@,
            client_id@,
            crate::text::opt_str(client_secret),
            redirect_uri@,
        ),
{
    let mut form: Vec<(String, String)> = Vec::new();
    form.push(("grant_type".to_owned(), "authorization_code".to_owned()));
    form.push(("code".to_owned(), code.to_owned()));
    form.push(("code_verifier".to_owned(), verifier.to_owned()));
    form.push(("client_id".to_owned(), client_id.to_owned()));
    form.push(("redirect_uri".to_owned(), redirect_uri.to_owned()));
    if let Some(secret) = client_secret {
        form.push(("client_secret".to_owned(), secret.to_owned()));
    }
    assert(pair_texts(form@) =~= exchange_pairs(
        code@,
        verifier@,
        client_id@,
        crate::text::opt_str(client_secret),
        redirect_uri@,
    ));
    form
}

/// Adds one chunk to a body that is being read, unless the body would grow
/// past [`MAX_DOCUMENT_BYTES`].
pub fn append_capped(body: &mut Vec<u8>, chunk: &[u8]) -> (r: std::result::Result<
    (),
    UpstreamError,
>)
    ensures
        match r {
            Ok(_) => old(body)@.len() + chunk@.len() <= MAX_DOCUMENT_BYTES && final(body)@ == old(body)@
                + chunk@,
            Err(e) => old(body)@.len() + chunk@.len() > MAX_DOCUMENT_BYTES && final(body)@ == old(body)@
                && (e matches UpstreamError::Transport(m) && m@
                == "the provider sent more than 262144 bytes"@),
        },
{
    if body.len() > MAX_DOCUMENT_BYTES || chunk.len() > MAX_DOCUMENT_BYTES - body.len() {
        return Err(
            UpstreamError::Transport("the provider sent more than 262144 bytes".to_owned()),
        );
    }
    let ghost start = body@;
    let mut i: usize = 0;
    while i < chunk.len()
        invariant
            i <= chunk@.len(),
            body@ == start + chunk@.take(i as int),
        decreases chunk@.len() - i,
    {
        body.push(chunk[i]);
        assert(body@ =~= start + chunk@.take(i + 1));
        i += 1;
    }
    assert(chunk@.take(chunk@.len() as int) =~= chunk@);
    Ok(())
}

// ---------------------------------------------------------------------------
// Keys
// ---------------------------------------------------------------------------

/// The key that a token header names stands at `i`: the first with that
/// identifier, or the only one where the header names none.
pub open spec fn key_at(keys: Seq<Jwk>, kid: Option<Seq<char>>, i: int) -> bool {
    &&& 0 <= i < keys.len()
    &&& match kid {
        Some(k) => opt_text(keys[i].kid) == Some(k) && (forall|j: int|
            0 <= j < i ==> opt_text((#[trigger] keys[j]).kid) != Some(k)),
        None => keys.len() == 1,
    }
}

/// The key that a token header names.
pub fn select_key<'a>(keys: &'a Vec<Jwk>, kid: &Option<String>) -> (r: Option<&'a Jwk>)
    ensures
        match r {
            Some(k) => exists|i: int| #[trigger] key_at(keys@, opt_text(*kid), i) && *k == keys@[i],
            None => forall|i: int| !#[trigger] key_at(keys@, opt_text(*kid), i),
        },
{
    match kid {
        None => if keys.len() == 1 {
            assert(key_at(keys@, opt_text(*kid), 0));
            Some(&keys[0])
        } else {
            None
        },
        Some(_) => {
            let mut i: usize = 0;
            while i < keys.len()
                invariant
                    i <= keys@.len(),
                    kid is Some,
                    forall|j: int| 0 <= j < i ==> opt_text((#[trigger] keys@[j]).kid) != opt_text(*kid),
                decreases keys@.len() - i,
            {
                if crate::text::same_opt(&keys[i].kid, kid) {
                    assert(key_at(keys@, opt_text(*kid), i as int));
                    return Some(&keys[i]);
                }
                i += 1;
            }
            None
        },
    }
}

/// How a token is signed.
#[derive(Clone, Copy, Debug, PartialEq, Eq, Structural)]
pub enum SignedBy {
    Rsa,
    Ec,
}

/// The signature algorithms that a key of a type verifies.
pub open spec fn verifies(kind: SignedBy, alg: Seq<char>) -> bool {
    match kind {
        SignedBy::Rsa => alg == "RS256"@ || alg == "RS384"@ || alg == "RS512"@ || alg == "PS256"@
            || alg == "PS384"@ || alg == "PS512"@,
        SignedBy::Ec => alg == "ES256"@ || alg == "ES384"@,
    }
}

fn is_rsa(alg: &str) -> (r: bool)
    ensures
        r == verifies(SignedBy::Rsa, alg@),
{
    same(alg, "RS256") || same(alg, "RS384") || same(alg, "RS512") || same(alg, "PS256") || same(
        alg,
        "PS384",
    ) || same(alg, "PS512")
}

fn is_ec(alg: &str) -> (r: bool)
    ensures
        r == verifies(SignedBy::Ec, alg@),
{
    same(alg, "ES256") || same(alg, "ES384")
}

/// What a token is checked with: the type of the key, its two components and
/// the algorithm.
#[derive(Debug)]
pub struct KeyPlan {
    pub kind: SignedBy,
    pub first: String,
    pub second: String,
    pub alg: String,
}

/// The algorithm that counts: the key's own where it names one.
pub open spec fn effective_algorithm(jwk: Jwk, header_alg: Seq<char>) -> Seq<char> {
    match jwk.alg {
        Some(a) => a@,
        None => header_alg,
    }
}

/// What the key checks a token with; nothing where the key is of another type,
/// lacks a component or cannot verify the algorithm.
pub open spec fn planned(jwk: Jwk, header_alg: Seq<char>) -> Option<
    (SignedBy, Seq<char>, Seq<char>, Seq<char>),
> {
    let alg = effective_algorithm(jwk, header_alg);
    if jwk.kty@ == "RSA"@ && verifies(SignedBy::Rsa, alg) && jwk.n is Some && jwk.e is Some {
        Some((SignedBy::Rsa, jwk.n->0@, jwk.e->0@, alg))
    } else if jwk.kty@ == "EC"@ && verifies(SignedBy::Ec, alg) && jwk.x is Some && jwk.y is Some {
        Some((SignedBy::Ec, jwk.x->0@, jwk.y->0@, alg))
    } else {
        None
    }
}

/// What is said of a key that lacks a member.
pub open spec fn lacks_member(jwk: Jwk, member: Seq<char>) -> Seq<char> {
    "a "@ + jwk.kty@ + " key carries no '"@ + member + "'"@
}

/// The algorithms that a key may name.
pub open spec fn named_algorithm(alg: Seq<char>) -> bool {
    verifies(SignedBy::Rsa, alg) || verifies(SignedBy::Ec, alg) || alg == "HS256"@ || alg == "HS384"@ || alg
        == "HS512"@ || alg == "EdDSA"@
}

/// What is wrong with a key that cannot be used.
pub open spec fn key_fault(jwk: Jwk, header_alg: Seq<char>) -> Seq<char> {
    let alg = effective_algorithm(jwk, header_alg);
    if jwk.alg is Some && !named_algorithm(alg) {
        "unsupported key algorithm "@ + alg
    } else if jwk.kty@ == "RSA"@ {
        if !verifies(SignedBy::Rsa, alg) {
            "an RSA key cannot verify "@ + alg
        } else if jwk.n is None {
            lacks_member(jwk, "n"@)
        } else {
            lacks_member(jwk, "e"@)
        }
    } else if jwk.kty@ == "EC"@ {
        if !verifies(SignedBy::Ec, alg) {
            "an EC key cannot verify "@ + alg
        } else if jwk.x is None {
            lacks_member(jwk, "x"@)
        } else {
            lacks_member(jwk, "y"@)
        }
    } else {
        "unsupported key type "@ + jwk.kty@
    }
}

fn missing(jwk: &Jwk, member: &str) -> (r: UpstreamError)
    ensures
        r matches UpstreamError::Discovery(m) && m@ == lacks_member(*jwk, member@),
{
    UpstreamError::Discovery(
        "a ".to_owned().concat(&jwk.kty).concat(" key carries no '").concat(member).concat("'"),
    )
}

/// Decides what a token is checked with. A key that states an algorithm is
/// used with that one alone, and never with one of another key type.
pub fn decoding_key(jwk: &Jwk, header_alg: &str) -> (r: std::result::Result<KeyPlan, UpstreamError>)
    ensures
        match r {
            Ok(p) => planned(*jwk, header_alg@) == Some((p.kind, p.first@, p.second@, p.alg@)),
            Err(e) => planned(*jwk, header_alg@) is None && (e matches UpstreamError::Discovery(m) && m@
                == key_fault(*jwk, header_alg@)),
        },
{
    proof {
        reveal_strlit("RSA");
        reveal_strlit("EC");
        assert("RSA"@.len() != "EC"@.len());
    }
    let alg: String = match &jwk.alg {
        Some(named) => {
            if !(is_rsa(named) || is_ec(named) || same(named, "HS256") || same(named, "HS384") || same(
                named,
                "HS512",
            ) || same(named, "EdDSA")) {
                return Err(
                    UpstreamError::Discovery(
                        "unsupported key algorithm ".to_owned().concat(named),
                    ),
                );
            }
            named.clone()
        },
        None => header_alg.to_owned(),
    };
    if same(&jwk.kty, "RSA") {
        if !is_rsa(&alg) {
            return Err(
                UpstreamError::Discovery("an RSA key cannot verify ".to_owned().concat(&alg)),
            );
        }
        match (&jwk.n, &jwk.e) {
            (Some(n), Some(e)) => Ok(
                KeyPlan { kind: SignedBy::Rsa, first: n.clone(), second: e.clone(), alg },
            ),
            (None, _) => Err(missing(jwk, "n")),
            _ => Err(missing(jwk, "e")),
        }
    } else if same(&jwk.kty, "EC") {
        if !is_ec(&alg) {
            return Err(
                UpstreamError::Discovery("an EC key cannot verify ".to_owned().concat(&alg)),
            );
        }
        match (&jwk.x, &jwk.y) {
            (Some(x), Some(y)) => Ok(
                KeyPlan { kind: SignedBy::Ec, first: x.clone(), second: y.clone(), alg },
            ),
            (None, _) => Err(missing(jwk, "x")),
            _ => Err(missing(jwk, "y")),
        }
    } else {
        Err(UpstreamError::Discovery("unsupported key type ".to_owned().concat(&jwk.kty)))
    }
}

/// No key is ever used with an algorithm of another key type, so a published
/// key cannot be turned into a shared secret.
pub proof fn law_key_is_used_with_its_own_algorithms(jwk: Jwk, header_alg: Seq<char>)
    ensures
        planned(jwk, header_alg) matches Some((kind, _, _, alg)) ==> verifies(kind, alg) && (jwk.alg
            matches Some(a) ==> alg == a@),
{
}

// ---------------------------------------------------------------------------
// Identity tokens
// ---------------------------------------------------------------------------

/// The key identifier and the name of the algorithm in the header of a token,
/// as `jsonwebtoken` reads it.
pub uninterp spec fn jwt_header_of(token: Seq<char>) -> Option<(Option<Seq<char>>, Seq<char>)>;

/// `jsonwebtoken::decode_header`: the key identifier and the algorithm that
/// the header of a token names, or the reason why it has no readable header.
#[verifier::external_body]
pub(crate) fn jwt_header(token: &str) -> (r: std::result::Result<(Option<String>, String), String>)
    ensures
        match r {
            Ok((kid, alg)) => jwt_header_of(token@) == Some((opt_text(kid), alg@)),
            Err(_) => jwt_header_of(token@) is None,
        },
{
    match jsonwebtoken::decode_header(token) {
        Ok(h) => Ok((h.kid, format!("{:?}", h.alg))),
        Err(e) => Err(e.to_string()),
    }
}

/// The member of a JSON text under a name, as `serde_json` reads it: `Ok` of a
/// text, and of nothing where the text is no object or the member is missing or
/// null; `Err` of a list of texts, and of nothing where the member is anything
/// else or the text is no JSON.
pub uninterp spec fn json_member(json: Seq<char>, name: Seq<char>) -> std::result::Result<
    Option<Seq<char>>,
    Option<Seq<Seq<char>>>,
>;

/// `serde_json::from_str`, `serde_json::Value::get` and `serde_json::from_value`
/// into a list of texts: one member of a JSON object.
#[verifier::external_body]
pub(crate) fn member(json: &str, name: &str) -> (r: std::result::Result<Option<String>, Option<Vec<String>>>)
    ensures
        match r {
            Ok(t) => json_member(json@, name@) == Ok::<Option<Seq<char>>, Option<Seq<Seq<char>>>>(
                opt_text(t),
            ),
            Err(Some(v)) => json_member(json@, name@) == Err::<Option<Seq<char>>, Option<Seq<Seq<char>>>>(
                Some(texts(v@)),
            ),
            Err(None) => json_member(json@, name@) == Err::<Option<Seq<char>>, Option<Seq<Seq<char>>>>(
                None,
            ),
        },
{
    match serde_json::from_str::<serde_json::Value>(json).map_err(|_| None)?.get(name) {
        None => Ok(None),
        Some(serde_json::Value::Null) => Ok(None),
        Some(serde_json::Value::String(s)) => Ok(Some(s.clone())),
        Some(v) => Err(serde_json::from_value(v.clone()).ok()),
    }
}

/// The member is the text, or a list that holds it.
pub open spec fn mentions(json: Seq<char>, name: Seq<char>, t: Seq<char>) -> bool {
    match json_member(json, name) {
        Ok(Some(x)) => x == t,
        Err(Some(list)) => list.contains(t),
        _ => false,
    }
}

/// The claims of a token, as `serde_json` writes them, that
/// `jsonwebtoken::decode` gives where it checks the signature alone, with the
/// RSA key of this modulus and exponent and the algorithm; nothing where it
/// fails.
pub uninterp spec fn rsa_claims(
    token: Seq<char>,
    n: Seq<char>,
    e: Seq<char>,
    alg: Seq<char>,
) -> Option<Seq<char>>;

/// The claims of a token, as `serde_json` writes them, that
/// `jsonwebtoken::decode` gives where it checks the signature alone, with the
/// elliptic-curve key of these coordinates and the algorithm; nothing where it
/// fails.
pub uninterp spec fn ec_claims(
    token: Seq<char>,
    x: Seq<char>,
    y: Seq<char>,
    alg: Seq<char>,
) -> Option<Seq<char>>;

/// What checked claims show, where the issuer is there as a text: they come from
/// the issuer, they hold every required claim, and a required audience is the
/// given one or a list that holds it. An expiry is no text.
pub open spec fn in_force(
    json: Seq<char>,
    issuer: Seq<char>,
    audience: Seq<char>,
    required: Seq<Seq<char>>,
) -> bool {
    (json_member(json, "iss"@) matches Ok(Some(_))) ==> {
        &&& mentions(json, "iss"@, issuer)
        &&& required.contains("exp"@) ==> json_member(json, "exp"@) == Err::<
            Option<Seq<char>>,
            Option<Seq<Seq<char>>>,
        >(None)
        &&& required.contains("sub"@) ==> (json_member(json, "sub"@) matches Ok(Some(_)))
        &&& required.contains("aud"@) ==> mentions(json, "aud"@, audience)
    }
}

/// What an outcome of `jsonwebtoken::decode` shows of the signed claims,
/// whatever the time: an error is the name of its kind and its message. Where the
/// claims were not checked, only the signature was.
pub open spec fn outcome_fits(
    claims: Option<Seq<char>>,
    checked: bool,
    issuer: Seq<char>,
    audience: Seq<char>,
    required: Seq<Seq<char>>,
    r: std::result::Result<String, (String, String)>,
) -> bool {
    match r {
        Ok(c) => {
            &&& claims == Some(c@)
            &&& checked ==> in_force(c@, issuer, audience, required)
        },
        Err((kind, _)) => {
            &&& !checked && required.len() == 0 ==> claims is None
            &&& kind@ == "InvalidSignature"@ ==> claims is None
            &&& kind@ == "ExpiredSignature"@ ==> claims is Some
            &&& kind@ == "InvalidIssuer"@ ==> claims is Some && checked && !mentions(
                claims->0,
                "iss"@,
                issuer,
            )
            &&& kind@ == "InvalidAudience"@ ==> claims is Some && !mentions(
                claims->0,
                "aud"@,
                audience,
            )
        },
    }
}

/// `jsonwebtoken::DecodingKey::from_rsa_components`, which fails only where a
/// component is no base64, and `jsonwebtoken::decode`: the claims of a token
/// once its signature is checked and, where they are to be checked, its expiry at
/// the present time, its audience and its issuer. Left unsaid is when the latter
/// succeeds, for it rests on the time. The call subtracts the leeway from the
/// time, so there is none.
#[verifier::external_body]
pub(crate) fn decode_rsa(
    token: &str,
    n: &str,
    e: &str,
    alg: &str,
    checked: bool,
    issuer: &str,
    audience: &str,
    leeway: u64,
    required: &Vec<String>,
) -> (r: std::result::Result<std::result::Result<String, (String, String)>, String>)
    requires
        verifies(SignedBy::Rsa, alg@),
        leeway == 0,
    ensures
        r is Err <==> base64url_bytes(n@) is None || base64url_bytes(e@) is None,
        r matches Ok(d) ==> outcome_fits(
            rsa_claims(token@, n@, e@, alg@),
            checked,
            issuer@,
            audience@,
            texts(required@),
            d,
        ),
{
    let key = jsonwebtoken::DecodingKey::from_rsa_components(n, e).map_err(|e| e.to_string())?;
    let mut v = jsonwebtoken::Validation::new(alg.parse().unwrap_or_default());
    v.validate_exp = checked;
    v.validate_aud = checked;
    v.iss = checked.then_some([issuer.to_owned()].into());
    v.set_audience(&[audience]);
    v.leeway = leeway;
    v.required_spec_claims = required.iter().cloned().collect();
    match jsonwebtoken::decode::<serde_json::Value>(token, &key, &v) {
        Ok(d) => Ok(Ok(d.claims.to_string())),
        Err(e) => Ok(Err((format!("{:?}", e.kind()), e.to_string()))),
    }
}

/// `jsonwebtoken::DecodingKey::from_ec_components`, which fails only where a
/// component is no base64, and `jsonwebtoken::decode`, as in `decode_rsa`.
#[verifier::external_body]
pub(crate) fn decode_ec(
    token: &str,
    x: &str,
    y: &str,
    alg: &str,
    checked: bool,
    issuer: &str,
    audience: &str,
    leeway: u64,
    required: &Vec<String>,
) -> (r: std::result::Result<std::result::Result<String, (String, String)>, String>)
    requires
        verifies(SignedBy::Ec, alg@),
        leeway == 0,
    ensures
        r is Err <==> base64url_bytes(x@) is None || base64url_bytes(y@) is None,
        r matches Ok(d) ==> outcome_fits(
            ec_claims(token@, x@, y@, alg@),
            checked,
            issuer@,
            audience@,
            texts(required@),
            d,
        ),
{
    let key = jsonwebtoken::DecodingKey::from_ec_components(x, y).map_err(|e| e.to_string())?;
    let mut v = jsonwebtoken::Validation::new(alg.parse().unwrap_or_default());
    v.validate_exp = checked;
    v.validate_aud = checked;
    v.iss = checked.then_some([issuer.to_owned()].into());
    v.set_audience(&[audience]);
    v.leeway = leeway;
    v.required_spec_claims = required.iter().cloned().collect();
    match jsonwebtoken::decode::<serde_json::Value>(token, &key, &v) {
        Ok(d) => Ok(Ok(d.claims.to_string())),
        Err(e) => Ok(Err((format!("{:?}", e.kind()), e.to_string()))),
    }
}

/// The claims that the key of a plan signed in a token.
pub open spec fn signed_claims(
    plan: (SignedBy, Seq<char>, Seq<char>, Seq<char>),
    token: Seq<char>,
) -> Option<Seq<char>> {
    match plan.0 {
        SignedBy::Rsa => rsa_claims(token, plan.1, plan.2, plan.3),
        SignedBy::Ec => ec_claims(token, plan.1, plan.2, plan.3),
    }
}

/// The components of a key can be read.
pub open spec fn readable_key(plan: (SignedBy, Seq<char>, Seq<char>, Seq<char>)) -> bool {
    base64url_bytes(plan.1) is Some && base64url_bytes(plan.2) is Some
}

/// Decodes a token with the key of a plan. Both ends of the login window are set
/// by this server, so no clock grace widens it.
fn decode_with(
    plan: &KeyPlan,
    token: &str,
    checked: bool,
    issuer: &str,
    audience: &str,
    required: &Vec<String>,
) -> (r: std::result::Result<std::result::Result<String, (String, String)>, String>)
    requires
        verifies(plan.kind, plan.alg@),
    ensures
        ({
            let p = (plan.kind, plan.first@, plan.second@, plan.alg@);
            &&& r is Err <==> !readable_key(p)
            &&& r matches Ok(d) ==> outcome_fits(
                signed_claims(p, token@),
                checked,
                issuer@,
                audience@,
                texts(required@),
                d,
            )
        }),
{
    match plan.kind {
        SignedBy::Rsa => decode_rsa(
            token,
            &plan.first,
            &plan.second,
            &plan.alg,
            checked,
            issuer,
            audience,
            0,
            required,
        ),
        SignedBy::Ec => decode_ec(
            token,
            &plan.first,
            &plan.second,
            &plan.alg,
            checked,
            issuer,
            audience,
            0,
            required,
        ),
    }
}

/// The refusal that a failed check leads to, from the name of its kind.
pub fn claim_error(kind: &str, message: String) -> (r: UpstreamError)
    ensures
        r == (if kind@ == "InvalidSignature"@ {
            UpstreamError::Signature
        } else if kind@ == "ExpiredSignature"@ {
            UpstreamError::Expired
        } else if kind@ == "InvalidAudience"@ {
            UpstreamError::Audience
        } else if kind@ == "InvalidIssuer"@ {
            UpstreamError::Issuer
        } else {
            UpstreamError::Malformed(message)
        }),
{
    if same(kind, "InvalidSignature") {
        UpstreamError::Signature
    } else if same(kind, "ExpiredSignature") {
        UpstreamError::Expired
    } else if same(kind, "InvalidAudience") {
        UpstreamError::Audience
    } else if same(kind, "InvalidIssuer") {
        UpstreamError::Issuer
    } else {
        UpstreamError::Malformed(message)
    }
}

/// The claims that an identity token must carry.
pub fn required_claims() -> (r: Vec<String>)
    ensures
        texts(r@) == seq!["exp"@, "iss"@, "aud"@, "sub"@],
{
    let mut v: Vec<String> = Vec::new();
    v.push("exp".to_owned());
    v.push("iss".to_owned());
    v.push("aud".to_owned());
    v.push("sub".to_owned());
    assert(texts(v@) =~= seq!["exp"@, "iss"@, "aud"@, "sub"@]);
    v
}

/// The claims are those of a human: an issuer and a subject, and an email and a
/// nonce that are texts where they are there.
pub open spec fn identifies(json: Seq<char>) -> bool {
    &&& json_member(json, "iss"@) matches Ok(Some(_))
    &&& json_member(json, "sub"@) matches Ok(Some(_))
    &&& json_member(json, "email"@) is Ok
    &&& json_member(json, "nonce"@) is Ok
}

/// The claims of a human are those of a JSON text.
pub open spec fn claims_are(json: Seq<char>, c: IdentityClaims) -> bool {
    &&& json_member(json, "iss"@)->Ok_0 == Some(c.iss@)
    &&& json_member(json, "sub"@)->Ok_0 == Some(c.sub@)
    &&& json_member(json, "email"@)->Ok_0 == opt_text(c.email)
    &&& json_member(json, "nonce"@)->Ok_0 == opt_text(c.nonce)
}

/// What is said of claims that are not those of a human.
pub const UNUSABLE: &'static str = "the identity claims are not usable";

/// Reads the claims of a human.
pub fn read_claims(json: &str) -> (r: std::result::Result<IdentityClaims, UpstreamError>)
    ensures
        match r {
            Ok(c) => identifies(json@) && claims_are(json@, c),
            Err(e) => !identifies(json@) && (e matches UpstreamError::Malformed(m) && m@ == UNUSABLE@),
        },
{
    let members: (
        std::result::Result<Option<String>, Option<Vec<String>>>,
        std::result::Result<Option<String>, Option<Vec<String>>>,
        std::result::Result<Option<String>, Option<Vec<String>>>,
        std::result::Result<Option<String>, Option<Vec<String>>>,
    ) = (member(json, "iss"), member(json, "sub"), member(json, "email"), member(json, "nonce"));
    match members {
        (Ok(Some(iss)), Ok(Some(sub)), Ok(email), Ok(nonce)) => Ok(
            IdentityClaims { iss, sub, email, nonce },
        ),
        _ => Err(UpstreamError::Malformed(UNUSABLE.to_owned())),
    }
}

/// Reads checked claims and holds their nonce against the one of the login:
/// it is what binds the token to this login.
pub fn accept_claims(json: &str, expected_nonce: &str) -> (r: std::result::Result<
    IdentityClaims,
    UpstreamError,
>)
    ensures
        match r {
            Ok(c) => identifies(json@) && claims_are(json@, c) && opt_text(c.nonce) == Some(
                expected_nonce@,
            ),
            Err(e) => if identifies(json@) {
                e is Nonce && json_member(json@, "nonce"@)->Ok_0 != Some(expected_nonce@)
            } else {
                e matches UpstreamError::Malformed(m) && m@ == UNUSABLE@
            },
        },
{
    let claims: IdentityClaims = match read_claims(json) {
        Ok(c) => c,
        Err(e) => {
            return Err(e);
        },
    };
    let bound: bool = match &claims.nonce {
        Some(n) => same(n, expected_nonce),
        None => false,
    };
    if bound {
        Ok(claims)
    } else {
        Err(UpstreamError::Nonce)
    }
}

/// The answer to a token that a key of the provider may have signed. A token
/// is taken only for the claims that the key signed, issued by this provider
/// for this client with an expiry, and made for this login. What is no claims of
/// a human is malformed, whatever else is wrong with it: the words are those of
/// the reader of the token's claims, where it refused them.
pub open spec fn answers(
    plan: (SignedBy, Seq<char>, Seq<char>, Seq<char>),
    token: Seq<char>,
    issuer: Seq<char>,
    client_id: Seq<char>,
    nonce: Seq<char>,
    refusal: Option<Seq<char>>,
    r: std::result::Result<Option<IdentityClaims>, UpstreamError>,
) -> bool {
    let claims = signed_claims(plan, token);
    if !readable_key(plan) {
        r matches Err(UpstreamError::Discovery(_))
    } else if claims is None {
        r matches Err(UpstreamError::Signature) || r matches Err(UpstreamError::Malformed(_))
    } else if refusal is Some {
        r matches Err(UpstreamError::Malformed(m)) && m@ == refusal->0
    } else if !identifies(claims->0) {
        r matches Err(UpstreamError::Malformed(m)) && m@ == UNUSABLE@
    } else {
        let json = claims->0;
        match r {
            Ok(None) => false,
            Ok(Some(c)) => {
                &&& claims_are(json, c)
                &&& opt_text(c.nonce) == Some(nonce)
                &&& c.iss@ == issuer
                &&& mentions(json, "aud"@, client_id)
                &&& json_member(json, "exp"@) == Err::<Option<Seq<char>>, Option<Seq<Seq<char>>>>(None)
            },
            Err(UpstreamError::Expired) => true,
            Err(UpstreamError::Malformed(_)) => true,
            Err(UpstreamError::Issuer) => !mentions(json, "iss"@, issuer),
            Err(UpstreamError::Audience) => !mentions(json, "aud"@, client_id),
            Err(UpstreamError::Nonce) => {
                &&& json_member(json, "nonce"@)->Ok_0 != Some(nonce)
                &&& mentions(json, "iss"@, issuer)
                &&& mentions(json, "aud"@, client_id)
            },
            Err(_) => false,
        }
    }
}

/// The answer of a provider that publishes these keys to a token. Nothing is
/// answered where no key is the one that the token names.
pub open spec fn verified(
    keys: Seq<Jwk>,
    issuer: Seq<char>,
    token: Seq<char>,
    client_id: Seq<char>,
    nonce: Seq<char>,
    refusal: Option<Seq<char>>,
    r: std::result::Result<Option<IdentityClaims>, UpstreamError>,
) -> bool {
    match jwt_header_of(token) {
        None => r matches Err(UpstreamError::Malformed(_)),
        Some((kid, alg)) => if forall|i: int| !#[trigger] key_at(keys, kid, i) {
            r == Ok::<Option<IdentityClaims>, UpstreamError>(None)
        } else {
            exists|i: int| #[trigger]
                key_at(keys, kid, i) && match planned(keys[i], alg) {
                    None => r matches Err(UpstreamError::Discovery(_)),
                    Some(plan) => answers(plan, token, issuer, client_id, nonce, refusal, r),
                }
        },
    }
}

impl Provider {
    /// Verifies one identity token against the provider's keys and this
    /// server's client identifier. `Ok(None)` means that no key here is the
    /// one the token names: the provider may have rotated its keys. Whether a
    /// signed token is still in force rests on the time. `refusal` is what the
    /// reader of the token's claims says where it refuses them; it counts once
    /// the signature holds.
    pub fn verify(
        &self,
        id_token: &str,
        client_id: &str,
        expected_nonce: &str,
        refusal: Option<String>,
    ) -> (r: std::result::Result<Option<IdentityClaims>, UpstreamError>)
        ensures
            verified(
                self.keys@,
                self.issuer@,
                id_token@,
                client_id@,
                expected_nonce@,
                opt_text(refusal),
                r,
            ),
    {
        let (kid, alg): (Option<String>, String) = match jwt_header(id_token) {
            Ok(h) => h,
            Err(e) => {
                return Err(UpstreamError::Malformed(e));
            },
        };
        let jwk: &Jwk = match select_key(&self.keys, &kid) {
            Some(k) => k,
            None => {
                return Ok(None);
            },
        };
        let plan: KeyPlan = match decoding_key(jwk, &alg) {
            Ok(p) => p,
            Err(e) => {
                return Err(e);
            },
        };
        let signed: String = match decode_with(
            &plan,
            id_token,
            false,
            &self.issuer,
            client_id,
            &Vec::new(),
        ) {
            Err(e) => {
                return Err(UpstreamError::Discovery(e));
            },
            Ok(Err((kind, message))) => {
                return Err(claim_error(&kind, message));
            },
            Ok(Ok(json)) => json,
        };
        if let Some(words) = refusal {
            return Err(UpstreamError::Malformed(words));
        }
        match read_claims(&signed) {
            Ok(_) => {},
            Err(e) => {
                return Err(e);
            },
        }
        let required: Vec<String> = required_claims();
        proof {
            let names = texts(required@);
            assert(names.contains(names[0]) && names.contains(names[2]));
        }
        match decode_with(&plan, id_token, true, &self.issuer, client_id, &required) {
            Err(e) => Err(UpstreamError::Discovery(e)),
            Ok(Err((kind, message))) => Err(claim_error(&kind, message)),
            Ok(Ok(json)) => match accept_claims(&json, expected_nonce) {
                Ok(c) => Ok(Some(c)),
                Err(e) => Err(e),
            },
        }
    }

    /// Verifies a token that named no key here, with the keys fetched again:
    /// the provider rotated, or the key never existed. The new keys stay, for
    /// every later token.
    pub fn verify_refreshed(
        &mut self,
        keys: Vec<Jwk>,
        id_token: &str,
        client_id: &str,
        expected_nonce: &str,
        refusal: Option<String>,
    ) -> (r: std::result::Result<IdentityClaims, UpstreamError>)
        ensures
            *final(self) == (Provider { keys, ..*old(self) }),
            match r {
                Ok(c) => verified(
                    keys@,
                    old(self).issuer@,
                    id_token@,
                    client_id@,
                    expected_nonce@,
                    opt_text(refusal),
                    Ok(Some(c)),
                ),
                Err(UpstreamError::UnknownKey) => verified(
                    keys@,
                    old(self).issuer@,
                    id_token@,
                    client_id@,
                    expected_nonce@,
                    opt_text(refusal),
                    Ok(None),
                ),
                Err(e) => verified(
                    keys@,
                    old(self).issuer@,
                    id_token@,
                    client_id@,
                    expected_nonce@,
                    opt_text(refusal),
                    Err(e),
                ),
            },
    {
        self.keys = keys;
        match self.verify(id_token, client_id, expected_nonce, refusal) {
            Ok(Some(c)) => Ok(c),
            Ok(None) => Err(UpstreamError::UnknownKey),
            Err(e) => Err(e),
        }
    }
}

/// Every published key is found by its identifier, wherever in the list it
/// stands: where no two keys share one, it is that key itself. A header that
/// names no key means the only one there is.
pub proof fn law_every_published_key_is_found(keys: Seq<Jwk>, k: int)
    requires
        0 <= k < keys.len(),
    ensures
        opt_text(keys[k].kid) is Some ==> exists|i: int|
            0 <= i <= k && #[trigger] key_at(keys, opt_text(keys[k].kid), i) && opt_text(keys[i].kid) == opt_text(
                keys[k].kid,
            ),
        opt_text(keys[k].kid) is Some && (forall|i: int|
            0 <= i < k ==> opt_text((#[trigger] keys[i]).kid) != opt_text(keys[k].kid)) ==> key_at(
            keys,
            opt_text(keys[k].kid),
            k,
        ),
        key_at(keys, None, k) <==> keys.len() == 1,
    decreases k,
{
    let kid = opt_text(keys[k].kid);
    if kid is Some {
        if exists|i: int| 0 <= i < k && opt_text((#[trigger] keys[i]).kid) == kid {
            let i = choose|i: int| 0 <= i < k && opt_text((#[trigger] keys[i]).kid) == kid;
            law_every_published_key_is_found(keys, i);
        } else {
            assert(key_at(keys, kid, k));
        }
    }
}

/// No key stands in for another: the key that is used has the identifier that the
/// token names, and there is only one such place.
pub proof fn law_no_key_stands_in_for_another(keys: Seq<Jwk>, kid: Option<Seq<char>>, i: int, j: int)
    requires
        key_at(keys, kid, i),
    ensures
        0 <= i < keys.len(),
        kid matches Some(k) ==> opt_text(keys[i].kid) == Some(k),
        key_at(keys, kid, j) ==> i == j,
{
    if key_at(keys, kid, j) {
        if i < j {
            assert(opt_text(keys[i].kid) != kid || kid is None);
        }
        if j < i {
            assert(opt_text(keys[j].kid) != kid || kid is None);
        }
    }
}

/// A whole key is used: an RSA key with every RSA algorithm, an elliptic-curve key
/// with every algorithm of its own, each with both of its components; with the
/// algorithm that the key states, and that of the token only where it states none.
pub proof fn law_a_whole_key_is_used(jwk: Jwk, header_alg: Seq<char>)
    ensures
        ({
            let alg = match jwk.alg {
                Some(a) => a@,
                None => header_alg,
            };
            &&& jwk.kty@ == "RSA"@ && jwk.n is Some && jwk.e is Some && (alg == "RS256"@ || alg == "RS384"@
                || alg == "RS512"@ || alg == "PS256"@ || alg == "PS384"@ || alg == "PS512"@) ==> planned(
                jwk,
                header_alg,
            ) == Some((SignedBy::Rsa, jwk.n->0@, jwk.e->0@, alg))
            &&& jwk.kty@ == "EC"@ && jwk.x is Some && jwk.y is Some && (alg == "ES256"@ || alg == "ES384"@)
                ==> planned(jwk, header_alg) == Some((SignedBy::Ec, jwk.x->0@, jwk.y->0@, alg))
            &&& jwk.kty@ != "RSA"@ && jwk.kty@ != "EC"@ ==> planned(jwk, header_alg) is None
            &&& alg == "HS256"@ ==> planned(jwk, header_alg) is None
        }),
{
    reveal_strlit("RSA");
    reveal_strlit("EC");
    reveal_strlit("HS256");
    reveal_strlit("RS256");
    reveal_strlit("RS384");
    reveal_strlit("RS512");
    reveal_strlit("PS256");
    reveal_strlit("PS384");
    reveal_strlit("PS512");
    reveal_strlit("ES256");
    reveal_strlit("ES384");
    assert("RSA"@.len() != "EC"@.len());
    assert("HS256"@[0] == 'H' && "RS256"@[0] == 'R' && "RS384"@[0] == 'R' && "RS512"@[0] == 'R');
    assert("PS256"@[0] == 'P' && "PS384"@[0] == 'P' && "PS512"@[0] == 'P');
    assert("ES256"@[0] == 'E' && "ES384"@[0] == 'E');
}

/// Whoever is taken for a human was vouched for: by the key that the token names
/// among the provider's, for this client, in the name of this provider and in
/// answer to this login.
pub proof fn law_a_human_is_vouched_for(
    keys: Seq<Jwk>,
    issuer: Seq<char>,
    token: Seq<char>,
    client_id: Seq<char>,
    nonce: Seq<char>,
    refusal: Option<Seq<char>>,
    c: IdentityClaims,
)
    requires
        verified(keys, issuer, token, client_id, nonce, refusal, Ok(Some(c))),
    ensures
        c.iss@ == issuer,
        opt_text(c.nonce) == Some(nonce),
        refusal is None,
        exists|i: int|
            {
                &&& 0 <= i < keys.len()
                &&& #[trigger] key_at(keys, (jwt_header_of(token)->0).0, i)
                &&& planned(keys[i], (jwt_header_of(token)->0).1) matches Some(plan) && (signed_claims(
                    plan,
                    token,
                ) matches Some(json) && mentions(json, "aud"@, client_id) && json_member(json, "sub"@) == Ok::<
                    Option<Seq<char>>,
                    Option<Seq<Seq<char>>>,
                >(Some(c.sub@)) && json_member(json, "iss"@) == Ok::<
                    Option<Seq<char>>,
                    Option<Seq<Seq<char>>>,
                >(Some(issuer)))
            },
{
}

/// An audience is met by the text itself and by every list that has it somewhere.
pub proof fn law_an_audience_may_be_one_of_many(json: Seq<char>, name: Seq<char>, t: Seq<char>)
    ensures
        json_member(json, name) == Ok::<Option<Seq<char>>, Option<Seq<Seq<char>>>>(Some(t)) ==> mentions(
            json,
            name,
            t,
        ),
        forall|list: Seq<Seq<char>>, k: int|
            0 <= k < list.len() && #[trigger] list[k] == t && json_member(json, name) == Err::<
                Option<Seq<char>>,
                Option<Seq<Seq<char>>>,
            >(Some(list)) ==> mentions(json, name, t),
        mentions(json, name, t) ==> {
            ||| json_member(json, name) == Ok::<Option<Seq<char>>, Option<Seq<Seq<char>>>>(Some(t))
            ||| json_member(json, name) matches Err(Some(list)) && exists|k: int|
                0 <= k < list.len() && #[trigger] list[k] == t
        },
{
}

/// The provider is asked for what the login needs: every value of the login goes
/// into the request, each under its own name.
pub proof fn law_the_provider_is_told_everything(
    client_id: Seq<char>,
    redirect_uri: Seq<char>,
    state: Seq<char>,
    nonce: Seq<char>,
    challenge: Seq<char>,
)
    ensures
        ({
            let asked = authorize_pairs(client_id, redirect_uri, state, nonce, challenge);
            &&& asked.contains(("client_id"@, client_id)) && asked.contains(("redirect_uri"@, redirect_uri))
            &&& asked.contains(("state"@, state)) && asked.contains(("nonce"@, nonce))
            &&& asked.contains(("code_challenge"@, challenge))
            &&& asked.contains(("code_challenge_method"@, "S256"@)) && asked.contains(
                ("response_type"@, "code"@),
            )
            &&& asked.contains(("scope"@, "openid email"@))
            &&& asked.len() == 8
        }),
{
    let asked = authorize_pairs(client_id, redirect_uri, state, nonce, challenge);
    assert(asked[0] == ("response_type"@, "code"@));
    assert(asked[1] == ("client_id"@, client_id));
    assert(asked[2] == ("redirect_uri"@, redirect_uri));
    assert(asked[3] == ("scope"@, "openid email"@));
    assert(asked[4] == ("state"@, state));
    assert(asked[5] == ("nonce"@, nonce));
    assert(asked[6] == ("code_challenge"@, challenge));
    assert(asked[7] == ("code_challenge_method"@, "S256"@));
}

/// A code is exchanged with its verifier, at the address it was sent to, and with
/// the secret exactly where there is one.
pub proof fn law_an_exchange_carries_everything(
    code: Seq<char>,
    verifier: Seq<char>,
    client_id: Seq<char>,
    secret: Option<Seq<char>>,
    redirect_uri: Seq<char>,
)
    ensures
        ({
            let form = exchange_pairs(code, verifier, client_id, secret, redirect_uri);
            &&& form.contains(("grant_type"@, "authorization_code"@)) && form.contains(("code"@, code))
            &&& form.contains(("code_verifier"@, verifier)) && form.contains(("client_id"@, client_id))
            &&& form.contains(("redirect_uri"@, redirect_uri))
            &&& secret matches Some(s) ==> form.contains(("client_secret"@, s)) && form.len() == 6
            &&& secret is None ==> form.len() == 5
        }),
{
    let form = exchange_pairs(code, verifier, client_id, secret, redirect_uri);
    assert(form[0] == ("grant_type"@, "authorization_code"@));
    assert(form[1] == ("code"@, code));
    assert(form[2] == ("code_verifier"@, verifier));
    assert(form[3] == ("client_id"@, client_id));
    assert(form[4] == ("redirect_uri"@, redirect_uri));
    if let Some(s) = secret {
        assert(form[5] == ("client_secret"@, s));
    }
}

/// A document of the issuer that was asked is usable where its three addresses
/// are, with or without a slash at the end of the issuer.
pub proof fn law_the_issuers_own_document_is_usable(document: DiscoveryDocument, issuer: Seq<char>)
    requires
        normal_url(document.authorization_endpoint@) is Some,
        normal_url(document.token_endpoint@) is Some,
        normal_url(document.jwks_uri@) is Some,
    ensures
        document.issuer@ == issuer ==> usable(document, issuer),
        document.issuer@ == issuer.push('/') ==> usable(document, issuer),
        document.issuer@.push('/') == issuer ==> usable(document, issuer),
        usable(document, issuer) && document.issuer@.len() > 0 && issuer.len() > 0 && document.issuer@.last() != '/'
            && issuer.last() != '/' ==> document.issuer@ == issuer,
{
    assert(issuer.push('/').drop_last() =~= issuer);
    assert(document.issuer@.push('/').drop_last() =~= document.issuer@);
}

} // verus!
