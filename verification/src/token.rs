//! Issuing, refreshing, revoking and validating this server's own tokens.
//!
//! Tokens are opaque strings. Nothing is encoded in them and nothing is
//! signed: the store holds a digest and the grant beside it, so a token is
//! worth exactly one row lookup.
//!
//! - **A token is bound to one resource.** Every grant carries the identifier
//!   of the resource the authorization request named, and [`validate`]
//!   compares it against the caller's own.
//! - **A refresh token is spent once and rotates.** A replay means two parties
//!   hold the token and this server cannot tell which one is the client, so
//!   the whole family dies.
//! - **Nothing here reads a clock.** `now_us` is a parameter.
use vstd::prelude::*;

use crate::crypto::{challenge_of, digest_eq, digest_of, is_token, new_token, s256_challenge};
use crate::store::{
    code_live, family_revoked, refresh_presented, token_live, token_row, CodeGrant, Grant,
    GrantData, RefreshOutcome, Store, StoreError, StoreModel, TokenKind,
};
use crate::text::{join, joined, same};

verus! {

/// How long an access token stays valid, in microseconds: one hour.
pub const ACCESS_TTL_US: i64 = 3_600_000_000;

/// How long a refresh token stays valid, in microseconds: thirty days.
pub const REFRESH_TTL_US: i64 = 2_592_000_000_000;

/// The success response of RFC 6749 section 5.1.
pub struct TokenResponse {
    pub access_token: String,
    /// RFC 6750. Always `Bearer`.
    pub token_type: &'static str,
    /// The access token's remaining life in **seconds**. Every other duration
    /// here is microseconds.
    pub expires_in: i64,
    pub refresh_token: String,
    /// The granted scopes, space-delimited. It is the set the human approved,
    /// never the set the client asked for.
    pub scope: String,
}

/// Why a token request was not honoured.
///
/// The payload of each variant is the reason, for the log. The client is told
/// the [`TokenError::code`].
#[derive(Debug)]
pub enum TokenError {
    /// The request is malformed: a parameter is missing, empty or repeated.
    InvalidRequest(&'static str),
    /// A grant type this server does not issue.
    UnsupportedGrantType,
    /// The presented grant is not redeemable. Unknown, expired, spent,
    /// revoked, or bound to another client, another redirect URI or another
    /// verifier: one answer for all of them.
    InvalidGrant(&'static str),
    Store(StoreError),
}

impl TokenError {
    /// The RFC 6749 section 5.2 error code.
    pub open spec fn code_text(&self) -> Seq<char> {
        match *self {
            TokenError::InvalidRequest(_) => "invalid_request"@,
            TokenError::UnsupportedGrantType => "unsupported_grant_type"@,
            TokenError::InvalidGrant(_) => "invalid_grant"@,
            TokenError::Store(_) => "server_error"@,
        }
    }

    /// The RFC 6749 section 5.2 error code this refusal reports.
    pub fn code(&self) -> (r: &'static str)
        ensures
            r@ == self.code_text(),
    {
        match self {
            TokenError::InvalidRequest(_) => "invalid_request",
            TokenError::UnsupportedGrantType => "unsupported_grant_type",
            TokenError::InvalidGrant(_) => "invalid_grant",
            TokenError::Store(_) => "server_error",
        }
    }
}

/// The refusal of a grant, for that reason.
pub open spec fn invalid_grant(e: TokenError, why: Seq<char>) -> bool {
    e matches TokenError::InvalidGrant(w) && w@ == why
}

/// What a client presents to redeem an authorization code.
pub struct CodeExchange<'a> {
    pub code: &'a str,
    pub code_verifier: &'a str,
    pub client_id: &'a str,
    pub redirect_uri: &'a str,
}

/// What a client presents to refresh a grant.
pub struct RefreshExchange<'a> {
    pub refresh_token: &'a str,
    pub client_id: &'a str,
}

/// What redeeming a code is worth: the grant behind it, if the code is live
/// and is presented with its verifier, by its client and with its redirect
/// URI; otherwise the reason why not.
pub open spec fn redeemed(m: StoreModel, p: CodeExchange, now: int) -> std::result::Result<
    GrantData,
    Option<Seq<char>>,
> {
    let row = m.codes[digest_of(p.code@)];
    if !code_live(m.codes, p.code@, now) {
        Err(Some("no live authorization code carries this value"@))
    } else {
        match row.grant.grant() {
            None => Err(None),
            Some(g) => if challenge_of(p.code_verifier@) != row.code_challenge@ {
                Err(Some("the code verifier does not match the stored challenge"@))
            } else if p.client_id@ != g.client_id {
                Err(Some("this code was issued to another client"@))
            } else if p.redirect_uri@ != row.redirect_uri@ {
                Err(Some("the redirect URI does not match the one the code was issued for"@))
            } else {
                Ok(g)
            },
        }
    }
}

/// The store after a code was presented: a live code is gone, whatever else
/// the presentation was worth.
pub open spec fn code_presented(m: StoreModel, code: Seq<char>, now: int) -> StoreModel {
    StoreModel {
        codes: if code_live(m.codes, code, now) {
            m.codes.remove(digest_of(code))
        } else {
            m.codes
        },
        ..m
    }
}

/// The error says why a grant was not given: for a reason of the grant, or
/// because the stored grant could not be read.
pub open spec fn says_why(e: TokenError, why: Option<Seq<char>>) -> bool {
    match why {
        Some(w) => invalid_grant(e, w),
        None => e matches TokenError::Store(StoreError::Json(_)),
    }
}

/// Takes a code and checks it against what the client presents.
///
/// The code is consumed by the read that fetches it, before any check: a code
/// presented with the wrong verifier has been presented by somebody.
pub fn redeem_code(store: &mut Store, params: &CodeExchange<'_>, now_us: i64) -> (r:
    std::result::Result<Grant, TokenError>)
    ensures
        final(store)@ == code_presented(old(store)@, params.code@, now_us as int),
        match r {
            Ok(g) => redeemed(old(store)@, *params, now_us as int) == Ok::<
                GrantData,
                Option<Seq<char>>,
            >(g@),
            Err(e) => (redeemed(old(store)@, *params, now_us as int) matches Err(why) && says_why(
                e,
                why,
            )),
        },
{
    let code: CodeGrant = match store.take_code(params.code, now_us) {
        Ok(Some(c)) => c,
        Ok(None) => {
            return Err(TokenError::InvalidGrant("no live authorization code carries this value"));
        },
        Err(e) => {
            return Err(TokenError::Store(e));
        },
    };
    if !digest_eq(&s256_challenge(params.code_verifier), &code.code_challenge) {
        return Err(
            TokenError::InvalidGrant("the code verifier does not match the stored challenge"),
        );
    }
    if !same(params.client_id, &code.grant.client_id) {
        return Err(TokenError::InvalidGrant("this code was issued to another client"));
    }
    if !same(params.redirect_uri, &code.redirect_uri) {
        return Err(
            TokenError::InvalidGrant(
                "the redirect URI does not match the one the code was issued for",
            ),
        );
    }
    Ok(code.grant)
}

/// What presenting a refresh token is worth.
pub open spec fn refreshed(m: StoreModel, p: RefreshExchange, now: int) -> std::result::Result<
    GrantData,
    Option<Seq<char>>,
> {
    let row = m.tokens[digest_of(p.refresh_token@)];
    if !token_live(m.tokens, p.refresh_token@, TokenKind::Refresh, now) {
        Err(Some("no live refresh token carries this value"@))
    } else {
        match row.grant.grant() {
            None => Err(None),
            Some(g) => if row.spent {
                Err(Some("this refresh token was already spent"@))
            } else if p.client_id@ != g.client_id {
                Err(Some("this refresh token was issued to another client"@))
            } else {
                Ok(g)
            },
        }
    }
}

/// The store after a refresh token was presented: it is spent, and its family
/// is dead if it had been spent before or was presented by another client.
pub open spec fn token_presented(m: StoreModel, p: RefreshExchange, now: int) -> StoreModel {
    let next = refresh_presented(m.tokens, p.refresh_token@, now);
    let row = m.tokens[digest_of(p.refresh_token@)];
    StoreModel {
        tokens: if token_live(m.tokens, p.refresh_token@, TokenKind::Refresh, now)
            && row.grant.grant() is Some && !row.spent && p.client_id@ != row.grant.client_id@ {
            family_revoked(next, row.grant.family@)
        } else {
            next
        },
        ..m
    }
}

/// Spends a refresh token and checks who presents it.
pub fn redeem_refresh(store: &mut Store, params: &RefreshExchange<'_>, now_us: i64) -> (r:
    std::result::Result<Grant, TokenError>)
    ensures
        final(store)@ == token_presented(old(store)@, *params, now_us as int),
        match r {
            Ok(g) => refreshed(old(store)@, *params, now_us as int) == Ok::<
                GrantData,
                Option<Seq<char>>,
            >(g@),
            Err(e) => (refreshed(old(store)@, *params, now_us as int) matches Err(why) && says_why(
                e,
                why,
            )),
        },
{
    match store.take_refresh(params.refresh_token, now_us) {
        Ok(RefreshOutcome::Unknown) => Err(
            TokenError::InvalidGrant("no live refresh token carries this value"),
        ),
        Ok(RefreshOutcome::Replayed) => Err(
            TokenError::InvalidGrant("this refresh token was already spent"),
        ),
        Ok(RefreshOutcome::Valid(grant)) => {
            if !same(params.client_id, &grant.client_id) {
                store.revoke_family(&grant.family);
                return Err(
                    TokenError::InvalidGrant("this refresh token was issued to another client"),
                );
            }
            Ok(grant)
        },
        Err(e) => Err(TokenError::Store(e)),
    }
}

/// The response carries these tokens for that grant.
pub open spec fn answers(
    t: TokenResponse,
    access_token: Seq<char>,
    refresh_token: Seq<char>,
    g: GrantData,
) -> bool {
    &&& t.access_token@ == access_token
    &&& t.refresh_token@ == refresh_token
    &&& t.token_type@ == "Bearer"@
    &&& t.expires_in == 3600
    &&& t.scope@ == joined(g.scopes, " "@)
}

/// The pair of tokens is stored for that grant, beside everything that was
/// there.
pub open spec fn issued(
    m: StoreModel,
    g: GrantData,
    access_token: Seq<char>,
    refresh_token: Seq<char>,
    now: i64,
    after: StoreModel,
) -> bool {
    let (a, b) = (digest_of(access_token), digest_of(refresh_token));
    &&& a != b && !m.tokens.contains_key(a) && !m.tokens.contains_key(b)
    &&& after == (StoreModel { tokens: after.tokens, ..m })
    &&& after.tokens == m.tokens.insert(a, after.tokens[a]).insert(b, after.tokens[b])
    &&& token_row(after.tokens[a], TokenKind::Access, g, now, (now + ACCESS_TTL_US) as i64)
    &&& token_row(after.tokens[b], TokenKind::Refresh, g, now, (now + REFRESH_TTL_US) as i64)
}

/// What storing a pair of tokens gives. It fails where the digest of either is
/// taken; the access token is stored first, and stays where only the refresh
/// token fails.
pub open spec fn pair_made(
    before: StoreModel,
    after: StoreModel,
    g: GrantData,
    access_token: Seq<char>,
    refresh_token: Seq<char>,
    now: i64,
    r: std::result::Result<TokenResponse, TokenError>,
) -> bool {
    let (a, b) = (digest_of(access_token), digest_of(refresh_token));
    match r {
        Ok(t) => issued(before, g, access_token, refresh_token, now, after) && answers(
            t,
            access_token,
            refresh_token,
            g,
        ),
        Err(e) => {
            &&& e matches TokenError::Store(StoreError::Database(m)) && m@
                == "UNIQUE constraint failed: oauth_token.token_digest"@
            &&& if before.tokens.contains_key(a) {
                after == before
            } else {
                &&& a == b || before.tokens.contains_key(b)
                &&& after == (StoreModel { tokens: before.tokens.insert(a, after.tokens[a]), ..before })
                &&& token_row(after.tokens[a], TokenKind::Access, g, now, (now + ACCESS_TTL_US) as i64)
            }
        },
    }
}

/// What minting a pair of tokens gives: two random tokens are stored for the
/// grant. Where none can be drawn, nothing happens.
pub open spec fn pair_minted(
    before: StoreModel,
    after: StoreModel,
    g: GrantData,
    now: i64,
    r: std::result::Result<TokenResponse, TokenError>,
) -> bool {
    ||| after == before && (r matches Err(TokenError::Store(StoreError::Random)))
    ||| exists|a: Seq<char>, b: Seq<char>|
        is_token(a) && is_token(b) && #[trigger] pair_made(before, after, g, a, b, now, r)
}

/// Stores one access token and one refresh token in the grant's family.
pub fn issue_pair(
    store: &mut Store,
    grant: &Grant,
    access_token: String,
    refresh_token: String,
    now_us: i64,
) -> (r: std::result::Result<TokenResponse, TokenError>)
    requires
        now_us <= i64::MAX - REFRESH_TTL_US,
    ensures
        pair_made(old(store)@, final(store)@, grant@, access_token@, refresh_token@, now_us, r),
{
    match store.put_token(
        &access_token,
        TokenKind::Access,
        grant,
        now_us,
        now_us + ACCESS_TTL_US,
    ) {
        Ok(_) => {},
        Err(e) => {
            return Err(TokenError::Store(e));
        },
    }
    let ghost first = store@;
    match store.put_token(
        &refresh_token,
        TokenKind::Refresh,
        grant,
        now_us,
        now_us + REFRESH_TTL_US,
    ) {
        Ok(_) => {},
        Err(e) => {
            assert(store@ == first);
            return Err(TokenError::Store(e));
        },
    }
    Ok(
        TokenResponse {
            access_token,
            token_type: "Bearer",
            expires_in: 3600,
            refresh_token,
            scope: join(&grant.scopes, " "),
        },
    )
}

/// Mints one access token and one refresh token in the grant's family. One
/// family per grant, so that every token descended from one consent decision
/// is revoked together.
pub fn issue(store: &mut Store, grant: &Grant, now_us: i64) -> (r: std::result::Result<
    TokenResponse,
    TokenError,
>)
    requires
        now_us <= i64::MAX - REFRESH_TTL_US,
    ensures
        pair_minted(old(store)@, final(store)@, grant@, now_us, r),
{
    match (new_token(), new_token()) {
        (Some(access_token), Some(refresh_token)) => {
            let ghost (a, b) = (access_token@, refresh_token@);
            let r: std::result::Result<TokenResponse, TokenError> = issue_pair(
                store,
                grant,
                access_token,
                refresh_token,
                now_us,
            );
            assert(pair_made(old(store)@, store@, grant@, a, b, now_us, r));
            r
        },
        _ => Err(TokenError::Store(StoreError::Random)),
    }
}

/// What comes of redeeming a code: the code is gone, and a pair of tokens is
/// stored where it was worth its grant.
pub open spec fn code_granted(
    before: StoreModel,
    after: StoreModel,
    p: CodeExchange,
    now: i64,
    r: std::result::Result<TokenResponse, TokenError>,
) -> bool {
    let middle = code_presented(before, p.code@, now as int);
    match redeemed(before, p, now as int) {
        Ok(g) => pair_minted(middle, after, g, now, r),
        Err(why) => after == middle && (r matches Err(e) && says_why(e, why)),
    }
}

/// Redeems an authorization code for a token pair.
pub fn grant_authorization_code(store: &mut Store, params: &CodeExchange<'_>, now_us: i64) -> (r:
    std::result::Result<TokenResponse, TokenError>)
    requires
        redeemed(old(store)@, *params, now_us as int) is Ok ==> now_us <= i64::MAX - REFRESH_TTL_US,
    ensures
        code_granted(old(store)@, final(store)@, *params, now_us, r),
{
    match redeem_code(store, params, now_us) {
        Ok(grant) => issue(store, &grant, now_us),
        Err(e) => Err(e),
    }
}

/// What comes of presenting a refresh token: it is spent, and the next pair is
/// stored where it was worth its grant.
pub open spec fn refresh_granted(
    before: StoreModel,
    after: StoreModel,
    p: RefreshExchange,
    now: i64,
    r: std::result::Result<TokenResponse, TokenError>,
) -> bool {
    let middle = token_presented(before, p, now as int);
    match refreshed(before, p, now as int) {
        Ok(g) => pair_minted(middle, after, g, now, r),
        Err(why) => after == middle && (r matches Err(e) && says_why(e, why)),
    }
}

/// Spends a refresh token and issues the next pair in its family. The grant
/// is carried forward exactly as the store returned it: re-deriving the scopes
/// could widen them, and the human who approved them is no longer there.
pub fn grant_refresh(store: &mut Store, params: &RefreshExchange<'_>, now_us: i64) -> (r:
    std::result::Result<TokenResponse, TokenError>)
    requires
        refreshed(old(store)@, *params, now_us as int) is Ok ==> now_us <= i64::MAX - REFRESH_TTL_US,
    ensures
        refresh_granted(old(store)@, final(store)@, *params, now_us, r),
{
    match redeem_refresh(store, params, now_us) {
        Ok(grant) => issue(store, &grant, now_us),
        Err(e) => Err(e),
    }
}

/// The store after a token was handed in for revocation.
pub open spec fn revoked(m: StoreModel, token: Seq<char>, now: int) -> StoreModel {
    let d = digest_of(token);
    if m.tokens.contains_key(d) && m.tokens[d].expires_us > now {
        StoreModel { tokens: family_revoked(m.tokens, m.tokens[d].grant.family@), ..m }
    } else {
        m
    }
}

/// Revokes the family the presented token belongs to. Either kind of token
/// names the family, and both halves die. It is idempotent, and a token this
/// server does not recognise is not an error.
pub fn revoke(store: &mut Store, token: &str, now_us: i64)
    ensures
        final(store)@ == revoked(old(store)@, token@, now_us as int),
{
    if let Some(family) = store.family_of(token, now_us) {
        store.revoke_family(&family);
    }
}

/// The grant that a bearer token is worth at a resource.
pub open spec fn worth(m: StoreModel, token: Seq<char>, resource: Seq<char>, now: int) -> Option<GrantData> {
    if token_live(m.tokens, token, TokenKind::Access, now) {
        match m.tokens[digest_of(token)].grant.grant() {
            Some(g) => if g.resource == resource {
                Some(g)
            } else {
                None
            },
            None => None,
        }
    } else {
        None
    }
}

/// The grant behind a bearer token presented at `resource`, or nothing.
///
/// Nothing covers every reason a token is worthless: the digest is unknown,
/// the row has expired, the family was revoked, the value is a refresh token,
/// the grant names a different resource, or the stored grant cannot be read.
pub fn validate(store: &Store, token: &str, resource: &str, now_us: i64) -> (r: Option<Grant>)
    ensures
        match r {
            Some(g) => worth(store@, token@, resource@, now_us as int) == Some(g@),
            None => worth(store@, token@, resource@, now_us as int) is None,
        },
{
    match store.find_access(token, now_us) {
        Ok(Some(grant)) => if same(&grant.resource, resource) {
            Some(grant)
        } else {
            None
        },
        _ => None,
    }
}

/// A code yields a grant only to the client it was issued to, at the address it
/// was sent to, and for the verifier behind its challenge.
pub proof fn law_a_code_is_bound_to_its_request(m: StoreModel, p: CodeExchange, now: int)
    requires
        redeemed(m, p, now) is Ok,
    ensures
        code_live(m.codes, p.code@, now),
        m.codes[digest_of(p.code@)].grant.grant() == Some(redeemed(m, p, now)->Ok_0),
        redeemed(m, p, now)->Ok_0.client_id == p.client_id@,
        m.codes[digest_of(p.code@)].redirect_uri@ == p.redirect_uri@,
        challenge_of(p.code_verifier@) == m.codes[digest_of(p.code@)].code_challenge@,
{
}

/// Until it expires, a bearer token that was issued is worth its grant at its
/// resource and nothing at any other. The refresh token that came with it is
/// worth nothing at any.
pub proof fn law_issued_token_is_bound_to_its_resource(
    m: StoreModel,
    g: GrantData,
    access_token: Seq<char>,
    refresh_token: Seq<char>,
    now: i64,
    after: StoreModel,
    later: int,
    resource: Seq<char>,
)
    requires
        issued(m, g, access_token, refresh_token, now, after),
        now <= later < now + ACCESS_TTL_US,
        now <= i64::MAX - REFRESH_TTL_US,
    ensures
        worth(after, access_token, resource, later) == (if resource == g.resource {
            Some(g)
        } else {
            None
        }),
        worth(after, refresh_token, resource, later) is None,
        token_live(after.tokens, refresh_token, TokenKind::Refresh, later),
{
}

/// A code that was presented is worthless from then on, even if the
/// presentation was refused.
pub proof fn law_presented_code_is_worthless(m: StoreModel, p: CodeExchange, q: CodeExchange, now: int, later: int)
    requires
        code_live(m.codes, p.code@, now),
        q.code@ == p.code@,
    ensures
        redeemed(code_presented(m, p.code@, now), q, later) == Err::<GrantData, Option<Seq<char>>>(
            Some("no live authorization code carries this value"@),
        ),
{
}

/// A refresh token that was presented while it was live never yields a grant
/// again.
pub proof fn law_refresh_token_yields_one_grant(
    m: StoreModel,
    p: RefreshExchange,
    q: RefreshExchange,
    now: int,
    later: int,
)
    requires
        token_live(m.tokens, p.refresh_token@, TokenKind::Refresh, now),
        m.tokens[digest_of(p.refresh_token@)].grant.grant() is Some,
        q.refresh_token@ == p.refresh_token@,
    ensures
        refreshed(token_presented(m, p, now), q, later) is Err,
{
}

/// A refresh token that was exchanged and is presented again before it expires is
/// refused, and its whole family is dead: the access token of the exchange is
/// worth nothing at any resource, and its refresh token is refused. Tokens of
/// other families are as they were.
pub proof fn law_a_reused_refresh_token_kills_its_family(
    m: StoreModel,
    p: RefreshExchange,
    t1: i64,
    first: TokenResponse,
    a: StoreModel,
    t2: i64,
    second: std::result::Result<TokenResponse, TokenError>,
    b: StoreModel,
    q: RefreshExchange,
    third: std::result::Result<TokenResponse, TokenError>,
    c: StoreModel,
    resource: Seq<char>,
    other: Seq<char>,
)
    requires
        refresh_granted(m, a, p, t1, Ok(first)),
        m.tokens[digest_of(p.refresh_token@)].expires_us > t2,
        refresh_granted(a, b, p, t2, second),
        q.refresh_token@ == first.refresh_token@,
        refresh_granted(b, c, q, t2, third),
    ensures
        second matches Err(TokenError::InvalidGrant(_)),
        worth(b, first.access_token@, resource, t2 as int) is None,
        third matches Err(TokenError::InvalidGrant(_)),
        a.tokens.contains_key(other) && a.tokens[other].grant.family@ != m.tokens[digest_of(
            p.refresh_token@,
        )].grant.family@ ==> b.tokens.contains_key(other) && b.tokens[other] == a.tokens[other],
{
    let d = digest_of(p.refresh_token@);
    let family = m.tokens[d].grant.family@;
    let middle = token_presented(m, p, t1 as int);
    let g = refreshed(m, p, t1 as int)->Ok_0;
    assert(pair_minted(middle, a, g, t1, Ok(first)));
    let (x, y) = choose|x: Seq<char>, y: Seq<char>|
        is_token(x) && is_token(y) && #[trigger] pair_made(middle, a, g, x, y, t1, Ok(first));
    assert(middle.tokens.contains_key(d) && middle.tokens[d].spent);
    assert(a.tokens.contains_key(d) && a.tokens[d] == middle.tokens[d]);
    assert(b.tokens == family_revoked(a.tokens, family));
    assert(a.tokens[digest_of(first.access_token@)].grant.family@ == family);
    assert(a.tokens[digest_of(first.refresh_token@)].grant.family@ == family);
}

/// After a token was handed in for revocation, no token of its family is
/// worth anything or can be refreshed, and handing it in again changes
/// nothing.
pub proof fn law_revocation_is_idempotent(
    m: StoreModel,
    token: Seq<char>,
    now: int,
    other: Seq<char>,
    resource: Seq<char>,
    later: int,
)
    ensures
        revoked(revoked(m, token, now), token, now) == revoked(m, token, now),
        m.tokens.contains_key(digest_of(token)) && m.tokens[digest_of(token)].expires_us > now
            && m.tokens.contains_key(digest_of(other)) && m.tokens[digest_of(other)].grant.family@
            == m.tokens[digest_of(token)].grant.family@ ==> {
            &&& worth(revoked(m, token, now), other, resource, later) is None
            &&& !token_live(revoked(m, token, now).tokens, other, TokenKind::Refresh, later)
        },
{
    let a = revoked(m, token, now);
    let b = revoked(a, token, now);
    assert(b.tokens =~= a.tokens);
}

/// A pair of tokens works as soon as it is issued: the access token is worth its
/// grant at the grant's resource, and nowhere else, for an hour; the refresh
/// token is worth the same grant to the grant's client for thirty days. The hour
/// is what the client is told. No token that was there is touched.
pub proof fn law_an_issued_pair_works(
    before: StoreModel,
    after: StoreModel,
    g: GrantData,
    a: Seq<char>,
    b: Seq<char>,
    now: i64,
    t: TokenResponse,
    p: RefreshExchange,
    resource: Seq<char>,
    later: int,
    other: Seq<char>,
    kind: TokenKind,
)
    requires
        now <= i64::MAX - 2_592_000_000_000,
        pair_made(before, after, g, a, b, now, Ok(t)),
        p.refresh_token@ == t.refresh_token@,
    ensures
        later < now + 3_600_000_000 ==> worth(after, t.access_token@, g.resource, later) == Some(g),
        later >= now + 3_600_000_000 ==> worth(after, t.access_token@, resource, later) is None,
        resource != g.resource ==> worth(after, t.access_token@, resource, later) is None,
        later < now + 2_592_000_000_000 && p.client_id@ == g.client_id ==> refreshed(after, p, later) == Ok::<
            GrantData,
            Option<Seq<char>>,
        >(g),
        later >= now + 2_592_000_000_000 || p.client_id@ != g.client_id ==> refreshed(after, p, later) is Err,
        worth(after, t.refresh_token@, resource, later) is None,
        t.expires_in * 1_000_000 == 3_600_000_000,
        t.scope@ == joined(g.scopes, " "@),
        t.token_type@ == "Bearer"@,
        digest_of(other) != digest_of(a) && digest_of(other) != digest_of(b) ==> (token_live(
            after.tokens,
            other,
            kind,
            later,
        ) <==> token_live(before.tokens, other, kind, later)),
{
}

/// A live code yields its grant: to its own client, at the address it was sent
/// to, for the verifier behind its challenge. Presenting it takes it away, and
/// nothing else.
pub proof fn law_a_live_code_yields_its_grant(m: StoreModel, p: CodeExchange, now: int, g: GrantData, other: Seq<char>)
    requires
        m.codes.contains_key(digest_of(p.code@)),
        m.codes[digest_of(p.code@)].expires_us > now,
        m.codes[digest_of(p.code@)].grant.grant() == Some(g),
        m.codes[digest_of(p.code@)].code_challenge@ == challenge_of(p.code_verifier@),
        m.codes[digest_of(p.code@)].redirect_uri@ == p.redirect_uri@,
        p.client_id@ == g.client_id,
    ensures
        redeemed(m, p, now) == Ok::<GrantData, Option<Seq<char>>>(g),
        !code_presented(m, p.code@, now).codes.contains_key(digest_of(p.code@)),
        other != digest_of(p.code@) && m.codes.contains_key(other) ==> code_presented(m, p.code@, now).codes.contains_key(
            other,
        ) && code_presented(m, p.code@, now).codes[other] == m.codes[other],
        code_presented(m, p.code@, now).tokens == m.tokens && code_presented(m, p.code@, now).clients == m.clients
            && code_presented(m, p.code@, now).logins == m.logins,
{
}

/// A live refresh token yields its grant to its own client: the grant as it was
/// stored, whatever happened since. One that another client presents takes its
/// family with it.
pub proof fn law_a_live_refresh_token_yields_its_grant(
    m: StoreModel,
    p: RefreshExchange,
    now: int,
    g: GrantData,
    other: Seq<char>,
    kind: TokenKind,
    later: int,
)
    requires
        token_live(m.tokens, p.refresh_token@, TokenKind::Refresh, now),
        !m.tokens[digest_of(p.refresh_token@)].spent,
        m.tokens[digest_of(p.refresh_token@)].grant.grant() == Some(g),
    ensures
        p.client_id@ == g.client_id ==> refreshed(m, p, now) == Ok::<GrantData, Option<Seq<char>>>(g),
        p.client_id@ == g.client_id && digest_of(other) != digest_of(p.refresh_token@) ==> (token_live(
            token_presented(m, p, now).tokens,
            other,
            kind,
            later,
        ) <==> token_live(m.tokens, other, kind, later)),
        p.client_id@ != g.client_id ==> refreshed(m, p, now) is Err,
        p.client_id@ != g.client_id && m.tokens.contains_key(digest_of(other)) && m.tokens[digest_of(other)].grant.family@
            == g.family ==> !token_live(token_presented(m, p, now).tokens, other, kind, later),
        p.client_id@ != g.client_id && m.tokens.contains_key(digest_of(other)) && m.tokens[digest_of(other)].grant.family@
            != g.family ==> (token_live(token_presented(m, p, now).tokens, other, kind, later) <==> token_live(
            m.tokens,
            other,
            kind,
            later,
        )),
{
    let next = token_presented(m, p, now).tokens;
    let d = digest_of(other);
    if m.tokens.contains_key(d) {
        assert(next.contains_key(d));
    }
    if next.contains_key(d) {
        assert(m.tokens.contains_key(d));
    }
}

/// Handing a token in ends its whole family, of either kind, and no other token.
/// An expired or unknown one ends nothing.
pub proof fn law_revoking_ends_the_family(
    m: StoreModel,
    token: Seq<char>,
    now: int,
    other: Seq<char>,
    kind: TokenKind,
    later: int,
)
    ensures
        ({
            let d = digest_of(token);
            let known = m.tokens.contains_key(d) && m.tokens[d].expires_us > now;
            let o = digest_of(other);
            let after = revoked(m, token, now);
            &&& known && m.tokens.contains_key(o) && m.tokens[o].grant.family@ == m.tokens[d].grant.family@
                ==> !token_live(after.tokens, other, kind, later)
            &&& !known || (m.tokens.contains_key(o) && m.tokens[o].grant.family@ != m.tokens[d].grant.family@) ==> (
            token_live(after.tokens, other, kind, later) <==> token_live(m.tokens, other, kind, later))
            &&& known ==> !token_live(after.tokens, token, kind, later)
            &&& after.clients == m.clients && after.codes == m.codes && after.logins == m.logins
        }),
{
}

} // verus!
