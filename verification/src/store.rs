//! Storage for OAuth clients, logins, authorization codes and tokens.
//!
//! No token or authorization code value is stored. [`Store::put_token`] and
//! [`Store::put_code`] take the value, hash it with [`crate::crypto::digest`],
//! and store the digest alone. A read hashes the presented value and matches
//! on the digest, so a stolen copy yields no usable token.
//!
//! A login is the exception, and it is deliberate: it holds the upstream
//! verifier, the nonce and the CSRF value in the clear, because the callback
//! must replay all three. Those three fields are secret-equivalent.
use vstd::prelude::*;

use crate::crypto::{digest, digest_of};
use crate::json::{json_list, json_texts, parse_json_list};
use crate::table::{keys_distinct, lemma_map_of, map_of, Table};
use crate::text::{copy_texts, opt_text, same, texts};

verus! {

/// Everything that can go wrong in the store.
#[derive(Debug)]
pub enum StoreError {
    Database(String),
    Json(String),
    /// The operating system has no random source.
    Random,
}

impl StoreError {
    /// The error in words.
    pub open spec fn says(self) -> Seq<char> {
        match self {
            StoreError::Database(m) => "database: "@ + m@,
            StoreError::Json(m) => "stored json: "@ + m@,
            StoreError::Random => "operating system random source"@,
        }
    }

    /// The error in words.
    pub fn message(&self) -> (r: String)
        ensures
            r@ == self.says(),
    {
        match self {
            StoreError::Database(m) => "database: ".to_owned().concat(m),
            StoreError::Json(m) => "stored json: ".to_owned().concat(m),
            StoreError::Random => "operating system random source".to_owned(),
        }
    }
}

/// Everything an issued credential carries, apart from the credential itself.
/// The credential is never stored: only its digest is.
#[derive(Debug, PartialEq, Eq)]
pub struct Grant {
    pub client_id: String,
    pub principal: String,
    pub scopes: Vec<String>,
    pub resource: String,
    pub family: String,
}

/// What a [`Grant`] holds.
#[verifier::ext_equal]
pub struct GrantData {
    pub client_id: Seq<char>,
    pub principal: Seq<char>,
    pub scopes: Seq<Seq<char>>,
    pub resource: Seq<char>,
    pub family: Seq<char>,
}

impl View for Grant {
    type V = GrantData;

    open spec fn view(&self) -> GrantData {
        GrantData {
            client_id: self.client_id@,
            principal: self.principal@,
            scopes: texts(self.scopes@),
            resource: self.resource@,
            family: self.family@,
        }
    }
}

impl Clone for Grant {
    fn clone(&self) -> (r: Self)
        ensures
            r@ == self@,
    {
        Grant {
            client_id: self.client_id.clone(),
            principal: self.principal.clone(),
            scopes: copy_texts(&self.scopes),
            resource: self.resource.clone(),
            family: self.family.clone(),
        }
    }
}

/// Which credential a stored digest belongs to.
#[derive(Clone, Copy, Debug, PartialEq, Eq, Structural)]
pub enum TokenKind {
    Access,
    Refresh,
}

impl TokenKind {
    /// The number that stands for the kind in a row.
    pub fn code(self) -> (r: i64)
        ensures
            r == (match self {
                TokenKind::Access => 0int,
                TokenKind::Refresh => 1,
            }),
    {
        match self {
            TokenKind::Access => 0,
            TokenKind::Refresh => 1,
        }
    }
}

/// A code grant adds the two values that bind the code to one client exchange.
#[derive(Debug, PartialEq, Eq)]
pub struct CodeGrant {
    pub grant: Grant,
    pub redirect_uri: String,
    pub code_challenge: String,
}

/// What one refresh-token presentation means.
#[derive(Debug, PartialEq, Eq)]
pub enum RefreshOutcome {
    /// The token was live. Here is its grant, and the token is now spent.
    Valid(Grant),
    /// The token was already spent. The store has revoked the family.
    Replayed,
    /// Unknown, expired or revoked.
    Unknown,
}

/// A registered client. `source` is `dcr` for dynamic registration, or `cimd`
/// for a client identifier metadata document.
#[derive(Debug, PartialEq, Eq)]
pub struct ClientRecord {
    pub client_id: String,
    pub client_name: String,
    pub redirect_uris: Vec<String>,
    pub source: String,
    pub created_us: i64,
    pub last_used_us: i64,
}

impl Clone for ClientRecord {
    fn clone(&self) -> (r: Self)
        ensures
            r.client_id@ == self.client_id@,
            r.client_name@ == self.client_name@,
            texts(r.redirect_uris@) == texts(self.redirect_uris@),
            r.source@ == self.source@,
            r.created_us == self.created_us,
            r.last_used_us == self.last_used_us,
    {
        ClientRecord {
            client_id: self.client_id.clone(),
            client_name: self.client_name.clone(),
            redirect_uris: copy_texts(&self.redirect_uris),
            source: self.source.clone(),
            created_us: self.created_us,
            last_used_us: self.last_used_us,
        }
    }
}

/// The `source` of a client this server registered dynamically.
pub const DCR: &'static str = "dcr";

/// The `source` of a client whose metadata this server fetched from the https
/// URL the client presents as its identifier.
pub const CIMD: &'static str = "cimd";

/// The `source` of a client that belongs to this server.
pub const RESERVED: &'static str = "reserved";

/// One authorization request in flight, keyed by the state this server sent
/// upstream. `client_state` is the state the client sent to this server, which
/// is opaque here and returned unchanged.
#[derive(PartialEq, Eq)]
pub struct LoginRecord {
    pub state: String,
    pub client_id: String,
    pub redirect_uri: String,
    pub client_state: Option<String>,
    pub code_challenge: String,
    pub resource: String,
    pub scopes: Vec<String>,
    pub upstream_verifier: String,
    pub nonce: String,
    pub csrf: String,
    pub principal: Option<String>,
    pub created_us: i64,
    pub expires_us: i64,
}

/// What a [`LoginRecord`] holds.
#[verifier::ext_equal]
pub struct LoginData {
    pub state: Seq<char>,
    pub client_id: Seq<char>,
    pub redirect_uri: Seq<char>,
    pub client_state: Option<Seq<char>>,
    pub code_challenge: Seq<char>,
    pub resource: Seq<char>,
    pub scopes: Seq<Seq<char>>,
    pub upstream_verifier: Seq<char>,
    pub nonce: Seq<char>,
    pub csrf: Seq<char>,
    pub principal: Option<Seq<char>>,
    pub created_us: int,
    pub expires_us: int,
}

impl View for LoginRecord {
    type V = LoginData;

    open spec fn view(&self) -> LoginData {
        LoginData {
            state: self.state@,
            client_id: self.client_id@,
            redirect_uri: self.redirect_uri@,
            client_state: opt_text(self.client_state),
            code_challenge: self.code_challenge@,
            resource: self.resource@,
            scopes: texts(self.scopes@),
            upstream_verifier: self.upstream_verifier@,
            nonce: self.nonce@,
            csrf: self.csrf@,
            principal: opt_text(self.principal),
            created_us: self.created_us as int,
            expires_us: self.expires_us as int,
        }
    }
}

/// The text of an optional string, copied.
pub fn copy_opt(s: &Option<String>) -> (r: Option<String>)
    ensures
        opt_text(r) == opt_text(*s),
{
    match s {
        Some(t) => Some(t.clone()),
        None => None,
    }
}

impl Clone for LoginRecord {
    fn clone(&self) -> (r: Self)
        ensures
            r@ == self@,
    {
        LoginRecord {
            state: self.state.clone(),
            client_id: self.client_id.clone(),
            redirect_uri: self.redirect_uri.clone(),
            client_state: copy_opt(&self.client_state),
            code_challenge: self.code_challenge.clone(),
            resource: self.resource.clone(),
            scopes: copy_texts(&self.scopes),
            upstream_verifier: self.upstream_verifier.clone(),
            nonce: self.nonce.clone(),
            csrf: self.csrf.clone(),
            principal: copy_opt(&self.principal),
            created_us: self.created_us,
            expires_us: self.expires_us,
        }
    }
}

// ---------------------------------------------------------------------------
// Rows
// ---------------------------------------------------------------------------

/// A client row. The redirect URIs are a JSON list.
#[derive(Debug)]
pub struct ClientRow {
    pub client_name: String,
    pub redirect_uris: String,
    pub source: String,
    pub created_us: i64,
    pub last_used_us: i64,
}

/// A login row. The scopes are a JSON list.
pub struct LoginRow {
    pub client_id: String,
    pub redirect_uri: String,
    pub client_state: Option<String>,
    pub code_challenge: String,
    pub resource: String,
    pub scopes: String,
    pub upstream_verifier: String,
    pub nonce: String,
    pub csrf: String,
    pub principal: Option<String>,
    pub created_us: i64,
    pub expires_us: i64,
}

/// The columns a grant occupies. The scopes are a JSON list.
#[derive(Debug)]
pub struct GrantColumns {
    pub client_id: String,
    pub principal: String,
    pub scopes: String,
    pub resource: String,
    pub family: String,
}

/// An authorization code row, under the digest of the code.
#[derive(Debug)]
pub struct CodeRow {
    pub grant: GrantColumns,
    pub redirect_uri: String,
    pub code_challenge: String,
    pub created_us: i64,
    pub expires_us: i64,
}

/// A token row, under the digest of the token.
#[derive(Debug)]
pub struct TokenRow {
    pub kind: i64,
    pub grant: GrantColumns,
    pub spent: bool,
    pub revoked: bool,
    pub created_us: i64,
    pub expires_us: i64,
}

impl Clone for GrantColumns {
    fn clone(&self) -> (r: Self)
        ensures
            r == *self,
    {
        GrantColumns {
            client_id: self.client_id.clone(),
            principal: self.principal.clone(),
            scopes: self.scopes.clone(),
            resource: self.resource.clone(),
            family: self.family.clone(),
        }
    }
}

impl Clone for TokenRow {
    fn clone(&self) -> (r: Self)
        ensures
            r == *self,
    {
        TokenRow {
            kind: self.kind,
            grant: self.grant.clone(),
            spent: self.spent,
            revoked: self.revoked,
            created_us: self.created_us,
            expires_us: self.expires_us,
        }
    }
}

impl GrantColumns {
    /// The grant that the columns hold, if their scopes are a list.
    pub open spec fn grant(self) -> Option<GrantData> {
        match json_texts(self.scopes@) {
            Some(scopes) => Some(
                GrantData {
                    client_id: self.client_id@,
                    principal: self.principal@,
                    scopes,
                    resource: self.resource@,
                    family: self.family@,
                },
            ),
            None => None,
        }
    }
}

/// The grant that the columns hold.
pub fn grant_from_columns(columns: &GrantColumns) -> (r: std::result::Result<Grant, StoreError>)
    ensures
        match r {
            Ok(g) => columns.grant() == Some(g@),
            Err(e) => columns.grant() is None && e is Json,
        },
{
    match parse_json_list(&columns.scopes) {
        Ok(scopes) => Ok(
            Grant {
                client_id: columns.client_id.clone(),
                principal: columns.principal.clone(),
                scopes,
                resource: columns.resource.clone(),
                family: columns.family.clone(),
            },
        ),
        Err(e) => Err(StoreError::Json(e)),
    }
}

/// The columns that hold a grant.
pub fn columns_of(g: &Grant) -> (r: GrantColumns)
    ensures
        r.grant() == Some(g@),
        r.client_id@ == g.client_id@,
        r.principal@ == g.principal@,
        r.resource@ == g.resource@,
        r.family@ == g.family@,
{
    GrantColumns {
        client_id: g.client_id.clone(),
        principal: g.principal.clone(),
        scopes: json_list(&g.scopes),
        resource: g.resource.clone(),
        family: g.family.clone(),
    }
}

/// The OAuth tables.
pub struct Store {
    pub clients: Table<ClientRow>,
    pub logins: Table<LoginRow>,
    pub codes: Table<CodeRow>,
    pub tokens: Table<TokenRow>,
}

/// What a [`Store`] holds, table by table.
pub struct StoreModel {
    pub clients: Map<Seq<char>, ClientRow>,
    pub logins: Map<Seq<char>, LoginRow>,
    pub codes: Map<Seq<char>, CodeRow>,
    pub tokens: Map<Seq<char>, TokenRow>,
}

impl View for Store {
    type V = StoreModel;

    open spec fn view(&self) -> StoreModel {
        StoreModel {
            clients: self.clients@,
            logins: self.logins@,
            codes: self.codes@,
            tokens: self.tokens@,
        }
    }
}

/// The row holds the record, registered at that time.
pub open spec fn client_row(row: ClientRow, c: ClientRecord, created_us: i64) -> bool {
    &&& row.client_name@ == c.client_name@
    &&& json_texts(row.redirect_uris@) == Some(texts(c.redirect_uris@))
    &&& row.source@ == c.source@
    &&& row.created_us == created_us
    &&& row.last_used_us == c.last_used_us
}

/// The record tells what the row under that identifier holds.
pub open spec fn client_record(c: ClientRecord, id: Seq<char>, row: ClientRow) -> bool {
    &&& c.client_id@ == id
    &&& c.client_name@ == row.client_name@
    &&& json_texts(row.redirect_uris@) == Some(texts(c.redirect_uris@))
    &&& c.source@ == row.source@
    &&& c.created_us == row.created_us
    &&& c.last_used_us == row.last_used_us
}

impl LoginRow {
    /// The login that the row under that state holds, if its scopes are a
    /// list.
    pub open spec fn login(self, state: Seq<char>) -> Option<LoginData> {
        match json_texts(self.scopes@) {
            Some(scopes) => Some(
                LoginData {
                    state,
                    client_id: self.client_id@,
                    redirect_uri: self.redirect_uri@,
                    client_state: opt_text(self.client_state),
                    code_challenge: self.code_challenge@,
                    resource: self.resource@,
                    scopes,
                    upstream_verifier: self.upstream_verifier@,
                    nonce: self.nonce@,
                    csrf: self.csrf@,
                    principal: opt_text(self.principal),
                    created_us: self.created_us as int,
                    expires_us: self.expires_us as int,
                },
            ),
            None => None,
        }
    }
}

/// A login is in flight under that state.
pub open spec fn login_live(logins: Map<Seq<char>, LoginRow>, state: Seq<char>, now: int) -> bool {
    logins.contains_key(state) && logins[state].expires_us > now
}

/// A code can still be redeemed.
pub open spec fn code_live(codes: Map<Seq<char>, CodeRow>, code: Seq<char>, now: int) -> bool {
    codes.contains_key(digest_of(code)) && codes[digest_of(code)].expires_us > now
}

/// A token of that kind is stored, neither revoked nor expired.
pub open spec fn token_live(
    tokens: Map<Seq<char>, TokenRow>,
    token: Seq<char>,
    kind: TokenKind,
    now: int,
) -> bool {
    let d = digest_of(token);
    &&& tokens.contains_key(d)
    &&& tokens[d].kind == (match kind {
        TokenKind::Access => 0int,
        TokenKind::Refresh => 1,
    })
    &&& !tokens[d].revoked
    &&& tokens[d].expires_us > now
}

/// The tokens with every one of a family revoked.
pub open spec fn family_revoked(
    tokens: Map<Seq<char>, TokenRow>,
    family: Seq<char>,
) -> Map<Seq<char>, TokenRow> {
    tokens.map_values(
        |row: TokenRow|
            if row.grant.family@ == family {
                TokenRow { revoked: true, ..row }
            } else {
                row
            },
    )
}

/// The tokens with every one of a principal revoked.
pub open spec fn principal_revoked(
    tokens: Map<Seq<char>, TokenRow>,
    principal: Seq<char>,
) -> Map<Seq<char>, TokenRow> {
    tokens.map_values(
        |row: TokenRow|
            if row.grant.principal@ == principal {
                TokenRow { revoked: true, ..row }
            } else {
                row
            },
    )
}

/// A family of the principal with a token that is not revoked.
pub open spec fn family_of_principal(
    tokens: Map<Seq<char>, TokenRow>,
    principal: Seq<char>,
    family: Seq<char>,
) -> bool {
    exists|d: Seq<char>|
        {
            &&& #[trigger] tokens.contains_key(d)
            &&& tokens[d].grant.principal@ == principal
            &&& !tokens[d].revoked
            &&& tokens[d].grant.family@ == family
        }
}

/// What a presentation of a refresh token does to the tokens: a live one is
/// spent, a spent one takes its family with it.
pub open spec fn refresh_presented(
    tokens: Map<Seq<char>, TokenRow>,
    token: Seq<char>,
    now: int,
) -> Map<Seq<char>, TokenRow> {
    let d = digest_of(token);
    if !token_live(tokens, token, TokenKind::Refresh, now) || tokens[d].grant.grant() is None {
        tokens
    } else if tokens[d].spent {
        family_revoked(tokens, tokens[d].grant.family@)
    } else {
        tokens.insert(d, TokenRow { spent: true, ..tokens[d] })
    }
}

impl Store {
    /// The store without rows.
    pub fn new() -> (r: Self)
        ensures
            r@.clients == Map::<Seq<char>, ClientRow>::empty(),
            r@.logins == Map::<Seq<char>, LoginRow>::empty(),
            r@.codes == Map::<Seq<char>, CodeRow>::empty(),
            r@.tokens == Map::<Seq<char>, TokenRow>::empty(),
    {
        Store {
            clients: Table::new(),
            logins: Table::new(),
            codes: Table::new(),
            tokens: Table::new(),
        }
    }

    /// Inserts the client, or refreshes the metadata of one already
    /// registered. A repeat registration never rewrites `created_us`.
    pub fn put_client(&mut self, c: &ClientRecord)
        ensures
            final(self)@ == (StoreModel { clients: final(self)@.clients, ..old(self)@ }),
            final(self)@.clients.dom() == old(self)@.clients.dom().insert(c.client_id@),
            forall|k: Seq<char>|
                k != c.client_id@ && #[trigger] old(self)@.clients.contains_key(k)
                    ==> final(self)@.clients[k] == old(self)@.clients[k],
            client_row(
                final(self)@.clients[c.client_id@],
                *c,
                if old(self)@.clients.contains_key(c.client_id@) {
                    old(self)@.clients[c.client_id@].created_us
                } else {
                    c.created_us
                },
            ),
    {
        let created_us: i64 = match self.clients.get(&c.client_id) {
            Some(row) => row.created_us,
            None => c.created_us,
        };
        self.clients.insert(
            &c.client_id,
            ClientRow {
                client_name: c.client_name.clone(),
                redirect_uris: json_list(&c.redirect_uris),
                source: c.source.clone(),
                created_us,
                last_used_us: c.last_used_us,
            },
        );
    }

    /// The registered client, or nothing when the identifier is unknown.
    pub fn get_client(&self, client_id: &str) -> (r: std::result::Result<
        Option<ClientRecord>,
        StoreError,
    >)
        ensures
            match r {
                Ok(Some(c)) => self@.clients.contains_key(client_id@) && client_record(
                    c,
                    client_id@,
                    self@.clients[client_id@],
                ),
                Ok(None) => !self@.clients.contains_key(client_id@),
                Err(e) => self@.clients.contains_key(client_id@) && json_texts(
                    self@.clients[client_id@].redirect_uris@,
                ) is None && e is Json,
            },
    {
        match self.clients.get(client_id) {
            None => Ok(None),
            Some(row) => match parse_json_list(&row.redirect_uris) {
                Ok(redirect_uris) => Ok(
                    Some(
                        ClientRecord {
                            client_id: client_id.to_owned(),
                            client_name: row.client_name.clone(),
                            redirect_uris,
                            source: row.source.clone(),
                            created_us: row.created_us,
                            last_used_us: row.last_used_us,
                        },
                    ),
                ),
                Err(e) => Err(StoreError::Json(e)),
            },
        }
    }

    /// Records that the client presented itself. An unknown client is left
    /// unknown.
    pub fn touch_client(&mut self, client_id: &str, now_us: i64)
        ensures
            final(self)@ == (StoreModel {
                clients: if old(self)@.clients.contains_key(client_id@) {
                    old(self)@.clients.insert(
                        client_id@,
                        ClientRow { last_used_us: now_us, ..old(self)@.clients[client_id@] },
                    )
                } else {
                    old(self)@.clients
                },
                ..old(self)@
            }),
    {
        if let Some(i) = self.clients.position(client_id) {
            let row: &ClientRow = self.clients.row_at(i);
            let row: ClientRow = ClientRow {
                client_name: row.client_name.clone(),
                redirect_uris: row.redirect_uris.clone(),
                source: row.source.clone(),
                created_us: row.created_us,
                last_used_us: now_us,
            };
            self.clients.set_at(i, row);
        }
    }

    /// Stores one authorization request before the upstream redirect. A state
    /// is never used twice.
    pub fn put_login(&mut self, l: &LoginRecord) -> (r: std::result::Result<(), StoreError>)
        ensures
            match r {
                Ok(_) => {
                    &&& !old(self)@.logins.contains_key(l.state@)
                    &&& final(self)@ == (StoreModel { logins: final(self)@.logins, ..old(self)@ })
                    &&& final(self)@.logins == old(self)@.logins.insert(
                        l.state@,
                        final(self)@.logins[l.state@],
                    )
                    &&& final(self)@.logins[l.state@].login(l.state@) == Some(l@)
                },
                Err(e) => old(self)@.logins.contains_key(l.state@) && final(self)@ == old(self)@ && (e
                    matches StoreError::Database(m) && m@ == "UNIQUE constraint failed: oauth_login.state"@),
            },
    {
        if self.logins.get(&l.state).is_some() {
            return Err(
                StoreError::Database("UNIQUE constraint failed: oauth_login.state".to_owned()),
            );
        }
        self.logins.insert(
            &l.state,
            LoginRow {
                client_id: l.client_id.clone(),
                redirect_uri: l.redirect_uri.clone(),
                client_state: copy_opt(&l.client_state),
                code_challenge: l.code_challenge.clone(),
                resource: l.resource.clone(),
                scopes: json_list(&l.scopes),
                upstream_verifier: l.upstream_verifier.clone(),
                nonce: l.nonce.clone(),
                csrf: l.csrf.clone(),
                principal: copy_opt(&l.principal),
                created_us: l.created_us,
                expires_us: l.expires_us,
            },
        );
        Ok(())
    }

    /// Consumes the login: a second upstream callback with the same state
    /// finds nothing. An expired login is never returned; the sweep removes
    /// its row later.
    pub fn take_login(&mut self, state: &str, now_us: i64) -> (r: std::result::Result<
        Option<LoginRecord>,
        StoreError,
    >)
        ensures
            final(self)@ == (StoreModel {
                logins: if login_live(old(self)@.logins, state@, now_us as int) {
                    old(self)@.logins.remove(state@)
                } else {
                    old(self)@.logins
                },
                ..old(self)@
            }),
            match r {
                Ok(Some(l)) => login_live(old(self)@.logins, state@, now_us as int)
                    && old(self)@.logins[state@].login(state@) == Some(l@),
                Ok(None) => !login_live(old(self)@.logins, state@, now_us as int),
                Err(e) => login_live(old(self)@.logins, state@, now_us as int)
                    && old(self)@.logins[state@].login(state@) is None && e is Json,
            },
    {
        match self.logins.get(state) {
            Some(row) => {
                if row.expires_us <= now_us {
                    return Ok(None);
                }
            },
            None => {
                return Ok(None);
            },
        }
        match self.logins.remove(state) {
            Some(row) => match parse_json_list(&row.scopes) {
                Ok(scopes) => Ok(
                    Some(
                        LoginRecord {
                            state: state.to_owned(),
                            client_id: row.client_id,
                            redirect_uri: row.redirect_uri,
                            client_state: row.client_state,
                            code_challenge: row.code_challenge,
                            resource: row.resource,
                            scopes,
                            upstream_verifier: row.upstream_verifier,
                            nonce: row.nonce,
                            csrf: row.csrf,
                            principal: row.principal,
                            created_us: row.created_us,
                            expires_us: row.expires_us,
                        },
                    ),
                ),
                Err(e) => Err(StoreError::Json(e)),
            },
            None => Ok(None),
        }
    }

    /// Stores the digest of an authorization code. The value stays with the
    /// caller, which sends it to the client and then forgets it.
    pub fn put_code(&mut self, code: &str, g: &CodeGrant, created_us: i64, expires_us: i64) -> (r:
        std::result::Result<(), StoreError>)
        ensures
            match r {
                Ok(_) => {
                    let d = digest_of(code@);
                    let row = final(self)@.codes[d];
                    &&& !old(self)@.codes.contains_key(d)
                    &&& final(self)@ == (StoreModel { codes: final(self)@.codes, ..old(self)@ })
                    &&& final(self)@.codes == old(self)@.codes.insert(d, row)
                    &&& row.grant.grant() == Some(g.grant@)
                    &&& row.redirect_uri@ == g.redirect_uri@
                    &&& row.code_challenge@ == g.code_challenge@
                    &&& row.created_us == created_us
                    &&& row.expires_us == expires_us
                },
                Err(e) => old(self)@.codes.contains_key(digest_of(code@)) && final(self)@ == old(self)@ && (e
                    matches StoreError::Database(m) && m@
                    == "UNIQUE constraint failed: oauth_code.code_digest"@),
            },
    {
        let key: String = digest(code);
        if self.codes.get(&key).is_some() {
            return Err(
                StoreError::Database("UNIQUE constraint failed: oauth_code.code_digest".to_owned()),
            );
        }
        self.codes.insert(
            &key,
            CodeRow {
                grant: columns_of(&g.grant),
                redirect_uri: g.redirect_uri.clone(),
                code_challenge: g.code_challenge.clone(),
                created_us,
                expires_us,
            },
        );
        Ok(())
    }

    /// Redeems an authorization code. The row is gone once it is read, so a
    /// replay finds nothing. An expired code is never returned.
    pub fn take_code(&mut self, code: &str, now_us: i64) -> (r: std::result::Result<
        Option<CodeGrant>,
        StoreError,
    >)
        ensures
            final(self)@ == (StoreModel {
                codes: if code_live(old(self)@.codes, code@, now_us as int) {
                    old(self)@.codes.remove(digest_of(code@))
                } else {
                    old(self)@.codes
                },
                ..old(self)@
            }),
            match r {
                Ok(Some(g)) => {
                    let row = old(self)@.codes[digest_of(code@)];
                    &&& code_live(old(self)@.codes, code@, now_us as int)
                    &&& row.grant.grant() == Some(g.grant@)
                    &&& g.redirect_uri@ == row.redirect_uri@
                    &&& g.code_challenge@ == row.code_challenge@
                },
                Ok(None) => !code_live(old(self)@.codes, code@, now_us as int),
                Err(e) => code_live(old(self)@.codes, code@, now_us as int)
                    && old(self)@.codes[digest_of(code@)].grant.grant() is None && e is Json,
            },
    {
        let key: String = digest(code);
        match self.codes.get(&key) {
            Some(row) => {
                if row.expires_us <= now_us {
                    return Ok(None);
                }
            },
            None => {
                return Ok(None);
            },
        }
        match self.codes.remove(&key) {
            Some(row) => match grant_from_columns(&row.grant) {
                Ok(grant) => Ok(
                    Some(
                        CodeGrant {
                            grant,
                            redirect_uri: row.redirect_uri,
                            code_challenge: row.code_challenge,
                        },
                    ),
                ),
                Err(e) => Err(e),
            },
            None => Ok(None),
        }
    }

    /// Stores the digest of an issued token. The value is not stored.
    pub fn put_token(
        &mut self,
        token: &str,
        kind: TokenKind,
        g: &Grant,
        created_us: i64,
        expires_us: i64,
    ) -> (r: std::result::Result<(), StoreError>)
        ensures
            match r {
                Ok(_) => {
                    let d = digest_of(token@);
                    let row = final(self)@.tokens[d];
                    &&& !old(self)@.tokens.contains_key(d)
                    &&& final(self)@ == (StoreModel { tokens: final(self)@.tokens, ..old(self)@ })
                    &&& final(self)@.tokens == old(self)@.tokens.insert(d, row)
                    &&& token_row(row, kind, g@, created_us, expires_us)
                },
                Err(e) => old(self)@.tokens.contains_key(digest_of(token@)) && final(self)@ == old(self)@ && (e
                    matches StoreError::Database(m) && m@
                    == "UNIQUE constraint failed: oauth_token.token_digest"@),
            },
    {
        let key: String = digest(token);
        if self.tokens.get(&key).is_some() {
            return Err(
                StoreError::Database("UNIQUE constraint failed: oauth_token.token_digest".to_owned()),
            );
        }
        self.tokens.insert(
            &key,
            TokenRow {
                kind: kind.code(),
                grant: columns_of(g),
                spent: false,
                revoked: false,
                created_us,
                expires_us,
            },
        );
        Ok(())
    }

    /// The grant behind a bearer token, or nothing when the digest is unknown,
    /// the token has expired, its family was revoked, or it is a refresh
    /// token.
    pub fn find_access(&self, token: &str, now_us: i64) -> (r: std::result::Result<
        Option<Grant>,
        StoreError,
    >)
        ensures
            match r {
                Ok(Some(g)) => token_live(self@.tokens, token@, TokenKind::Access, now_us as int)
                    && self@.tokens[digest_of(token@)].grant.grant() == Some(g@),
                Ok(None) => !token_live(self@.tokens, token@, TokenKind::Access, now_us as int),
                Err(e) => token_live(self@.tokens, token@, TokenKind::Access, now_us as int)
                    && self@.tokens[digest_of(token@)].grant.grant() is None && e is Json,
            },
    {
        match self.tokens.get(&digest(token)) {
            Some(row) => if row.kind == TokenKind::Access.code() && !row.revoked && row.expires_us
                > now_us {
                match grant_from_columns(&row.grant) {
                    Ok(g) => Ok(Some(g)),
                    Err(e) => Err(e),
                }
            } else {
                Ok(None)
            },
            None => Ok(None),
        }
    }

    /// Spends a refresh token, once. A token already spent is a replay: the
    /// whole family dies, which ends both the stolen and the legitimate
    /// branch, as RFC 9700 requires.
    pub fn take_refresh(&mut self, token: &str, now_us: i64) -> (r: std::result::Result<
        RefreshOutcome,
        StoreError,
    >)
        ensures
            final(self)@ == (StoreModel {
                tokens: refresh_presented(old(self)@.tokens, token@, now_us as int),
                ..old(self)@
            }),
            ({
                let live = token_live(old(self)@.tokens, token@, TokenKind::Refresh, now_us as int);
                let row = old(self)@.tokens[digest_of(token@)];
                match r {
                    Ok(RefreshOutcome::Valid(g)) => live && !row.spent && row.grant.grant() == Some(g@),
                    Ok(RefreshOutcome::Replayed) => live && row.spent && row.grant.grant() is Some,
                    Ok(RefreshOutcome::Unknown) => !live,
                    Err(e) => live && row.grant.grant() is None && e is Json,
                }
            }),
    {
        let key: String = digest(token);
        let i: usize = match self.tokens.position(&key) {
            Some(i) => i,
            None => {
                return Ok(RefreshOutcome::Unknown);
            },
        };
        let row: TokenRow = self.tokens.row_at(i).clone();
        if row.kind != TokenKind::Refresh.code() || row.revoked || row.expires_us <= now_us {
            return Ok(RefreshOutcome::Unknown);
        }
        let grant: Grant = match grant_from_columns(&row.grant) {
            Ok(g) => g,
            Err(e) => {
                return Err(e);
            },
        };
        if row.spent {
            self.revoke_family(&row.grant.family);
            return Ok(RefreshOutcome::Replayed);
        }
        self.tokens.set_at(
            i,
            TokenRow {
                kind: row.kind,
                grant: row.grant,
                spent: true,
                revoked: row.revoked,
                created_us: row.created_us,
                expires_us: row.expires_us,
            },
        );
        Ok(RefreshOutcome::Valid(grant))
    }

    /// Revokes every token in a family.
    pub fn revoke_family(&mut self, family: &str)
        ensures
            final(self)@ == (StoreModel {
                tokens: family_revoked(old(self)@.tokens, family@),
                ..old(self)@
            }),
    {
        let n: usize = self.tokens.len();
        let ghost start = self.tokens.entries();
        let ghost f = |row: TokenRow|
            if row.grant.family@ == family@ {
                TokenRow { revoked: true, ..row }
            } else {
                row
            };
        let mut i: usize = 0;
        while i < n
            invariant
                i <= n,
                n == start.len(),
                keys_distinct(start),
                f == (|row: TokenRow|
                    if row.grant.family@ == family@ {
                        TokenRow { revoked: true, ..row }
                    } else {
                        row
                    }),
                self.tokens.entries().len() == n,
                self@ == (StoreModel { tokens: self@.tokens, ..old(self)@ }),
                forall|j: int|
                    0 <= j < n ==> (#[trigger] self.tokens.entries()[j]).0 == start[j].0,
                forall|j: int| 0 <= j < i ==> (#[trigger] self.tokens.entries()[j]).1 == f(start[j].1),
                forall|j: int| i <= j < n ==> (#[trigger] self.tokens.entries()[j]).1 == start[j].1,
            decreases n - i,
        {
            let row: TokenRow = self.tokens.row_at(i).clone();
            assert(self.tokens.entries()[i as int].1 == start[i as int].1);
            if same(&row.grant.family, family) {
                let ghost prior = self.tokens.entries();
                self.tokens.set_at(
                    i,
                    TokenRow {
                        kind: row.kind,
                        grant: row.grant,
                        spent: row.spent,
                        revoked: true,
                        created_us: row.created_us,
                        expires_us: row.expires_us,
                    },
                );
                assert forall|j: int| 0 <= j < n && j != i implies #[trigger] self.tokens.entries()[j]
                    == prior[j] by {}
            }
            i += 1;
        }
        let _ = self.tokens.len();
        proof {
            lemma_map_values(start, self.tokens.entries(), f);
        }
    }

    /// The family of a live token, whatever else its state.
    ///
    /// Spent and revoked rows still answer, because the revocation endpoint
    /// must find the family of a token it has already spent, and revocation
    /// must stay idempotent. An expired token answers nothing: letting it name
    /// a family would let its holder revoke the live family of the same
    /// principal.
    pub fn family_of(&self, token: &str, now_us: i64) -> (r: Option<String>)
        ensures
            match r {
                Some(f) => self@.tokens.contains_key(digest_of(token@)) && self@.tokens[digest_of(
                    token@,
                )].expires_us > now_us && f@ == self@.tokens[digest_of(token@)].grant.family@,
                None => !(self@.tokens.contains_key(digest_of(token@)) && self@.tokens[digest_of(
                    token@,
                )].expires_us > now_us),
            },
    {
        match self.tokens.get(&digest(token)) {
            Some(row) => if row.expires_us > now_us {
                Some(row.grant.family.clone())
            } else {
                None
            },
            None => None,
        }
    }
}

/// The row holds a fresh token of that kind.
pub open spec fn token_row(
    row: TokenRow,
    kind: TokenKind,
    g: GrantData,
    created_us: i64,
    expires_us: i64,
) -> bool {
    &&& row.kind == (match kind {
        TokenKind::Access => 0int,
        TokenKind::Refresh => 1,
    })
    &&& row.grant.grant() == Some(g)
    &&& row.grant.principal@ == g.principal
    &&& row.grant.family@ == g.family
    &&& !row.spent
    &&& !row.revoked
    &&& row.created_us == created_us
    &&& row.expires_us == expires_us
}

/// Changing every row of a list changes every value of its map.
pub proof fn lemma_map_values<R>(s: Seq<(Seq<char>, R)>, t: Seq<(Seq<char>, R)>, f: spec_fn(R) -> R)
    requires
        keys_distinct(s),
        s.len() == t.len(),
        forall|j: int| 0 <= j < s.len() ==> (#[trigger] t[j]).0 == s[j].0,
        forall|j: int| 0 <= j < s.len() ==> (#[trigger] t[j]).1 == f(s[j].1),
    ensures
        map_of(t) == map_of(s).map_values(f),
{
    assert(keys_distinct(t)) by {
        assert forall|i: int, j: int| 0 <= i < j < t.len() implies (#[trigger] t[i]).0 != (
        #[trigger] t[j]).0 by {
            assert(s[i].0 != s[j].0);
        }
    }
    lemma_map_of(s);
    lemma_map_of(t);
    let (a, b) = (map_of(t), map_of(s).map_values(f));
    assert forall|k: Seq<char>| a.contains_key(k) == b.contains_key(k) by {
        if a.contains_key(k) {
            let j = choose|j: int| 0 <= j < t.len() && (#[trigger] t[j]).0 == k;
            assert(s[j].0 == k);
        }
        if map_of(s).contains_key(k) {
            let j = choose|j: int| 0 <= j < s.len() && (#[trigger] s[j]).0 == k;
            assert(t[j].0 == k);
        }
    }
    assert forall|k: Seq<char>| a.contains_key(k) implies a[k] == b[k] by {
        let j = choose|j: int| 0 <= j < t.len() && (#[trigger] t[j]).0 == k;
        assert(s[j].0 == k);
        assert(t[j].1 == f(s[j].1));
    }
    assert(a =~= b);
}

// ---------------------------------------------------------------------------
// Revoking a principal and maintenance
// ---------------------------------------------------------------------------

/// A row that is worth nothing after a time.
pub trait Expiring {
    /// The time.
    spec fn expiry(&self) -> int;

    /// The time.
    fn expires(&self) -> (r: i64)
        ensures
            r == self.expiry(),
    ;
}

impl Expiring for LoginRow {
    open spec fn expiry(&self) -> int {
        self.expires_us as int
    }

    fn expires(&self) -> i64 {
        self.expires_us
    }
}

impl Expiring for CodeRow {
    open spec fn expiry(&self) -> int {
        self.expires_us as int
    }

    fn expires(&self) -> i64 {
        self.expires_us
    }
}

impl Expiring for TokenRow {
    open spec fn expiry(&self) -> int {
        self.expires_us as int
    }

    fn expires(&self) -> i64 {
        self.expires_us
    }
}

/// The keys of the rows that have expired.
pub open spec fn expired<R: Expiring>(rows: Map<Seq<char>, R>, now: int) -> Set<Seq<char>> {
    Set::new(|k: Seq<char>| rows.contains_key(k) && rows[k].expiry() <= now)
}

/// The rows without those under some keys, and the number of those keys.
fn remove_all<R>(t: &mut Table<R>, keys: &Vec<String>)
    ensures
        final(t)@ == old(t)@.remove_keys(texts(keys@).to_set()),
{
    let ghost all = texts(keys@);
    let mut i: usize = 0;
    assert(t@.remove_keys(all.take(0).to_set()) =~= t@);
    while i < keys.len()
        invariant
            i <= keys@.len(),
            all == texts(keys@),
            t@ == old(t)@.remove_keys(all.take(i as int).to_set()),
        decreases keys@.len() - i,
    {
        let _ = t.remove(&keys[i]);
        proof {
            assert(all.take(i + 1) =~= all.take(i as int).push(all[i as int]));
            crate::mutation::lemma_push_to_set(all.take(i as int), all[i as int]);
            assert(t@ =~= old(t)@.remove_keys(all.take(i + 1).to_set()));
        }
        i += 1;
    }
    assert(all.take(keys@.len() as int) =~= all);
}

/// The keys of the rows that have expired, each once.
fn expired_keys<R: Expiring>(t: &Table<R>, now_us: i64) -> (r: Vec<String>)
    ensures
        texts(r@).to_set() == expired(t@, now_us as int),
        expired(t@, now_us as int).len() == r@.len(),
{
    let n: usize = t.len();
    let ghost s = t.entries();
    proof {
        lemma_map_of(s);
    }
    let mut out: Vec<String> = Vec::new();
    let mut i: usize = 0;
    while i < n
        invariant
            i <= n,
            n == s.len(),
            s == t.entries(),
            keys_distinct(s),
            texts(out@).no_duplicates(),
            forall|k: Seq<char>| #[trigger]
                texts(out@).contains(k) <==> exists|j: int|
                    0 <= j < i && (#[trigger] s[j]).0 == k && s[j].1.expiry() <= now_us,
        decreases n - i,
    {
        let ghost prior = texts(out@);
        if t.row_at(i).expires() <= now_us {
            let key: String = t.key_at(i).clone();
            out.push(key);
            proof {
                assert(texts(out@) =~= prior.push(key@));
                assert(!prior.contains(key@)) by {
                    if prior.contains(key@) {
                        let j = choose|j: int|
                            0 <= j < i && (#[trigger] s[j]).0 == key@ && s[j].1.expiry() <= now_us;
                        assert(s[j].0 != s[i as int].0);
                    }
                }
            }
        }
        i += 1;
        proof {
            let now = texts(out@);
            assert forall|k: Seq<char>| #[trigger] now.contains(k) <==> exists|j: int|
                0 <= j < i && (#[trigger] s[j]).0 == k && s[j].1.expiry() <= now_us by {
                assert(prior.contains(k) <==> exists|j: int|
                    0 <= j < i - 1 && (#[trigger] s[j]).0 == k && s[j].1.expiry() <= now_us);
                if prior.contains(k) {
                    assert(now[prior.index_of(k)] == k);
                }
                if now.contains(k) && !prior.contains(k) {
                    assert(now[prior.len() as int] == k);
                    assert(s[i - 1].0 == k);
                }
                if s[i - 1].0 == k && s[i - 1].1.expiry() <= now_us {
                    assert(now[prior.len() as int] == k);
                }
            }
        }
    }
    proof {
        let all = texts(out@);
        assert forall|k: Seq<char>| all.to_set().contains(k) <==> expired(t@, now_us as int).contains(k) by {
            if all.contains(k) {
                let j = choose|j: int|
                    0 <= j < s.len() && (#[trigger] s[j]).0 == k && s[j].1.expiry() <= now_us;
                assert(map_of(s).contains_key(s[j].0));
            }
            if t@.contains_key(k) {
                let j = choose|j: int| 0 <= j < s.len() && (#[trigger] s[j]).0 == k;
                assert(map_of(s)[s[j].0] == s[j].1);
            }
        }
        assert(all.to_set() =~= expired(t@, now_us as int));
        all.unique_seq_to_set();
    }
    out
}

/// A client that has not been used for longer than `max_idle_us`, is not the
/// server's own and holds no token.
pub open spec fn idle_client(m: StoreModel, id: Seq<char>, now: int, max_idle: int) -> bool {
    &&& m.clients.contains_key(id)
    &&& m.clients[id].last_used_us < now - max_idle
    &&& m.clients[id].source@ != RESERVED@
    &&& forall|d: Seq<char>| #[trigger]
        m.tokens.contains_key(d) ==> m.tokens[d].grant.client_id@ != id
}

impl Store {
    /// Revokes every token of a principal and returns how many families had
    /// one that was not revoked.
    pub fn revoke_principal(&mut self, principal: &str) -> (r: u64)
        ensures
            final(self)@ == (StoreModel {
                tokens: principal_revoked(old(self)@.tokens, principal@),
                ..old(self)@
            }),
            r == Set::new(
                |f: Seq<char>| family_of_principal(old(self)@.tokens, principal@, f),
            ).len(),
    {
        let n: usize = self.tokens.len();
        let ghost start = self.tokens.entries();
        let ghost f = |row: TokenRow|
            if row.grant.principal@ == principal@ {
                TokenRow { revoked: true, ..row }
            } else {
                row
            };
        let mut families: Vec<String> = Vec::new();
        let mut i: usize = 0;
        while i < n
            invariant
                i <= n,
                n == start.len(),
                keys_distinct(start),
                f == (|row: TokenRow|
                    if row.grant.principal@ == principal@ {
                        TokenRow { revoked: true, ..row }
                    } else {
                        row
                    }),
                self.tokens.entries().len() == n,
                self@ == (StoreModel { tokens: self@.tokens, ..old(self)@ }),
                forall|j: int|
                    0 <= j < n ==> (#[trigger] self.tokens.entries()[j]).0 == start[j].0,
                forall|j: int| 0 <= j < i ==> (#[trigger] self.tokens.entries()[j]).1 == f(start[j].1),
                forall|j: int| i <= j < n ==> (#[trigger] self.tokens.entries()[j]).1 == start[j].1,
                texts(families@).no_duplicates(),
                forall|x: Seq<char>| #[trigger]
                    texts(families@).contains(x) <==> exists|j: int|
                        0 <= j < i && counts_for(#[trigger] start[j].1, principal@, x),
            decreases n - i,
        {
            let row: TokenRow = self.tokens.row_at(i).clone();
            assert(self.tokens.entries()[i as int].1 == start[i as int].1);
            let ghost seen = texts(families@);
            if same(&row.grant.principal, principal) {
                if !row.revoked && !crate::text::holds_text(&families, &row.grant.family) {
                    families.push(row.grant.family.clone());
                    assert(texts(families@) =~= seen.push(row.grant.family@));
                }
                let ghost prior = self.tokens.entries();
                self.tokens.set_at(
                    i,
                    TokenRow {
                        kind: row.kind,
                        grant: row.grant,
                        spent: row.spent,
                        revoked: true,
                        created_us: row.created_us,
                        expires_us: row.expires_us,
                    },
                );
                assert forall|j: int| 0 <= j < n && j != i implies #[trigger] self.tokens.entries()[j]
                    == prior[j] by {}
            }
            i += 1;
            proof {
                let now = texts(families@);
                assert forall|x: Seq<char>| #[trigger] now.contains(x) <==> exists|j: int|
                    0 <= j < i && counts_for(#[trigger] start[j].1, principal@, x) by {
                    assert(seen.contains(x) <==> exists|j: int|
                        0 <= j < i - 1 && counts_for(#[trigger] start[j].1, principal@, x));
                    if seen.contains(x) {
                        assert(now[seen.index_of(x)] == x);
                    }
                    if now.contains(x) && !seen.contains(x) {
                        assert(now[seen.len() as int] == x);
                        assert(counts_for(start[i - 1].1, principal@, x));
                    }
                    if counts_for(start[i - 1].1, principal@, x) && !seen.contains(x) {
                        assert(now[seen.len() as int] == x);
                    }
                }
            }
        }
        let _ = self.tokens.len();
        proof {
            lemma_map_values(start, self.tokens.entries(), f);
            lemma_map_of(start);
            let all = texts(families@);
            let want = Set::new(
                |x: Seq<char>| family_of_principal(old(self)@.tokens, principal@, x),
            );
            assert forall|x: Seq<char>| all.to_set().contains(x) <==> want.contains(x) by {
                if all.contains(x) {
                    let j = choose|j: int|
                        0 <= j < n && counts_for(#[trigger] start[j].1, principal@, x);
                    assert(old(self)@.tokens.contains_key(start[j].0));
                }
                if want.contains(x) {
                    let d = choose|d: Seq<char>|
                        {
                            &&& #[trigger] old(self)@.tokens.contains_key(d)
                            &&& old(self)@.tokens[d].grant.principal@ == principal@
                            &&& !old(self)@.tokens[d].revoked
                            &&& old(self)@.tokens[d].grant.family@ == x
                        };
                    let j = choose|j: int| 0 <= j < start.len() && (#[trigger] start[j]).0 == d;
                    assert(counts_for(start[j].1, principal@, x));
                }
            }
            assert(all.to_set() =~= want);
            all.unique_seq_to_set();
        }
        families.len() as u64
    }

    /// Deletes expired logins, codes and tokens, and returns how many rows
    /// went. A client has no expiry.
    pub fn sweep(&mut self, now_us: i64) -> (r: u64)
        ensures
            final(self)@.clients == old(self)@.clients,
            final(self)@.logins == old(self)@.logins.remove_keys(
                expired(old(self)@.logins, now_us as int),
            ),
            final(self)@.codes == old(self)@.codes.remove_keys(
                expired(old(self)@.codes, now_us as int),
            ),
            final(self)@.tokens == old(self)@.tokens.remove_keys(
                expired(old(self)@.tokens, now_us as int),
            ),
            ({
                let n = expired(old(self)@.logins, now_us as int).len() + expired(
                    old(self)@.codes,
                    now_us as int,
                ).len() + expired(old(self)@.tokens, now_us as int).len();
                r == if n <= u64::MAX {
                    n as int
                } else {
                    u64::MAX as int
                }
            }),
    {
        let logins: Vec<String> = expired_keys(&self.logins, now_us);
        let codes: Vec<String> = expired_keys(&self.codes, now_us);
        let tokens: Vec<String> = expired_keys(&self.tokens, now_us);
        remove_all(&mut self.logins, &logins);
        remove_all(&mut self.codes, &codes);
        remove_all(&mut self.tokens, &tokens);
        let n: u128 = logins.len() as u128 + codes.len() as u128 + tokens.len() as u128;
        if n <= u64::MAX as u128 {
            n as u64
        } else {
            u64::MAX
        }
    }

    /// Whether a client holds a token.
    fn holds_token(&self, client_id: &str) -> (r: bool)
        ensures
            r == exists|d: Seq<char>| #[trigger]
                self@.tokens.contains_key(d) && self@.tokens[d].grant.client_id@ == client_id@,
    {
        let n: usize = self.tokens.len();
        let ghost s = self.tokens.entries();
        proof {
            lemma_map_of(s);
        }
        let mut i: usize = 0;
        while i < n
            invariant
                i <= n,
                n == s.len(),
                s == self.tokens.entries(),
                forall|j: int|
                    0 <= j < s.len() ==> self@.tokens.contains_key((#[trigger] s[j]).0)
                        && self@.tokens[s[j].0] == s[j].1,
                forall|k: Seq<char>| #[trigger]
                    self@.tokens.contains_key(k) ==> exists|j: int|
                        0 <= j < s.len() && (#[trigger] s[j]).0 == k,
                forall|j: int| 0 <= j < i ==> (#[trigger] s[j]).1.grant.client_id@ != client_id@,
            decreases n - i,
        {
            if same(&self.tokens.row_at(i).grant.client_id, client_id) {
                assert(self@.tokens.contains_key(s[i as int].0));
                return true;
            }
            i += 1;
        }
        false
    }

    /// Deletes the registrations that have been idle for too long and hold no
    /// token, and returns how many went. It runs before [`Store::sweep`], so
    /// that a client is judged by the tokens it held when the pass began.
    pub fn evict_clients(&mut self, now_us: i64, max_idle_us: i64) -> (r: u64)
        ensures
            final(self)@ == (StoreModel { clients: final(self)@.clients, ..old(self)@ }),
            ({
                let gone = Set::new(
                    |id: Seq<char>| idle_client(old(self)@, id, now_us as int, max_idle_us as int),
                );
                final(self)@.clients == old(self)@.clients.remove_keys(gone) && r == gone.len()
            }),
    {
        let n: usize = self.clients.len();
        let ghost s = self.clients.entries();
        proof {
            lemma_map_of(s);
        }
        let ghost m = self@;
        let mut out: Vec<String> = Vec::new();
        let mut i: usize = 0;
        while i < n
            invariant
                i <= n,
                n == s.len(),
                s == self.clients.entries(),
                m == self@,
                self@ == old(self)@,
                keys_distinct(s),
                forall|j: int|
                    0 <= j < s.len() ==> m.clients.contains_key((#[trigger] s[j]).0)
                        && m.clients[s[j].0] == s[j].1,
                texts(out@).no_duplicates(),
                forall|k: Seq<char>| #[trigger]
                    texts(out@).contains(k) <==> exists|j: int|
                        0 <= j < i && (#[trigger] s[j]).0 == k && idle_client(
                            m,
                            k,
                            now_us as int,
                            max_idle_us as int,
                        ),
            decreases n - i,
        {
            let ghost prior = texts(out@);
            let key: String = self.clients.key_at(i).clone();
            let row: &ClientRow = self.clients.row_at(i);
            assert(m.clients[s[i as int].0] == s[i as int].1);
            let idle: bool = (row.last_used_us as i128) < now_us as i128 - max_idle_us as i128 && !same(
                &row.source,
                RESERVED,
            ) && !self.holds_token(&key);
            assert(idle == idle_client(m, key@, now_us as int, max_idle_us as int));
            if idle {
                out.push(key.clone());
                proof {
                    assert(texts(out@) =~= prior.push(key@));
                    if prior.contains(key@) {
                        let j = choose|j: int|
                            0 <= j < i && (#[trigger] s[j]).0 == key@ && idle_client(
                                m,
                                key@,
                                now_us as int,
                                max_idle_us as int,
                            );
                        assert(s[j].0 != s[i as int].0);
                    }
                }
            }
            i += 1;
            proof {
                let now = texts(out@);
                assert forall|k: Seq<char>| #[trigger] now.contains(k) <==> exists|j: int|
                    0 <= j < i && (#[trigger] s[j]).0 == k && idle_client(
                        m,
                        k,
                        now_us as int,
                        max_idle_us as int,
                    ) by {
                    assert(prior.contains(k) <==> exists|j: int|
                        0 <= j < i - 1 && (#[trigger] s[j]).0 == k && idle_client(
                            m,
                            k,
                            now_us as int,
                            max_idle_us as int,
                        ));
                    if prior.contains(k) {
                        assert(now[prior.index_of(k)] == k);
                    }
                    if now.contains(k) && !prior.contains(k) {
                        assert(now[prior.len() as int] == k);
                        assert(s[i - 1].0 == k);
                    }
                    if s[i - 1].0 == k && idle {
                        assert(now[prior.len() as int] == k);
                    }
                }
            }
        }
        proof {
            let all = texts(out@);
            let gone = Set::new(
                |id: Seq<char>| idle_client(m, id, now_us as int, max_idle_us as int),
            );
            assert forall|k: Seq<char>| all.to_set().contains(k) <==> gone.contains(k) by {
                if gone.contains(k) {
                    assert(map_of(s).contains_key(k));
                    let j = choose|j: int| 0 <= j < s.len() && (#[trigger] s[j]).0 == k;
                    assert(s[j].0 == k);
                }
            }
            assert(all.to_set() =~= gone);
            all.unique_seq_to_set();
        }
        remove_all(&mut self.clients, &out);
        out.len() as u64
    }
}

/// A token that keeps a family of the principal alive.
pub open spec fn counts_for(row: TokenRow, principal: Seq<char>, family: Seq<char>) -> bool {
    row.grant.principal@ == principal && !row.revoked && row.grant.family@ == family
}

// ---------------------------------------------------------------------------
// What the tables promise
// ---------------------------------------------------------------------------

/// A login is answered once: taking it leaves none under its state.
pub proof fn law_login_is_taken_once(
    logins: Map<Seq<char>, LoginRow>,
    state: Seq<char>,
    now: int,
    later: int,
)
    requires
        login_live(logins, state, now),
    ensures
        !login_live(logins.remove(state), state, later),
{
}

/// A code is redeemed once: redeeming it leaves none behind.
pub proof fn law_code_is_redeemed_once(
    codes: Map<Seq<char>, CodeRow>,
    code: Seq<char>,
    now: int,
    later: int,
)
    requires
        code_live(codes, code, now),
    ensures
        !code_live(codes.remove(digest_of(code)), code, later),
{
}

/// A refresh token that was presented while live is either spent by that or
/// dead after it: no later presentation finds it live and unspent.
pub proof fn law_refresh_token_is_spent_once(
    tokens: Map<Seq<char>, TokenRow>,
    token: Seq<char>,
    now: int,
    later: int,
)
    requires
        token_live(tokens, token, TokenKind::Refresh, now),
        tokens[digest_of(token)].grant.grant() is Some,
    ensures
        ({
            let after = refresh_presented(tokens, token, now);
            !(token_live(after, token, TokenKind::Refresh, later) && !after[digest_of(token)].spent)
        }),
{
}

/// The replay of a spent refresh token kills every token of its family, of
/// either kind.
pub proof fn law_replay_kills_the_family(
    tokens: Map<Seq<char>, TokenRow>,
    token: Seq<char>,
    other: Seq<char>,
    kind: TokenKind,
    now: int,
    later: int,
)
    requires
        token_live(tokens, token, TokenKind::Refresh, now),
        tokens[digest_of(token)].spent,
        tokens[digest_of(token)].grant.grant() is Some,
        tokens.contains_key(digest_of(other)),
        tokens[digest_of(other)].grant.family@ == tokens[digest_of(token)].grant.family@,
    ensures
        !token_live(refresh_presented(tokens, token, now), other, kind, later),
{
}

/// Revoking a family kills its tokens and no other.
pub proof fn law_revocation_kills_exactly_the_family(
    tokens: Map<Seq<char>, TokenRow>,
    family: Seq<char>,
    token: Seq<char>,
    kind: TokenKind,
    now: int,
)
    ensures
        token_live(family_revoked(tokens, family), token, kind, now) <==> token_live(
            tokens,
            token,
            kind,
            now,
        ) && tokens[digest_of(token)].grant.family@ != family,
{
}

/// Revoking a principal kills its tokens and no other, and a second
/// revocation finds no family left to count.
pub proof fn law_revoking_a_principal_kills_exactly_its_tokens(
    tokens: Map<Seq<char>, TokenRow>,
    principal: Seq<char>,
    token: Seq<char>,
    family: Seq<char>,
    kind: TokenKind,
    now: int,
)
    ensures
        token_live(principal_revoked(tokens, principal), token, kind, now) <==> token_live(
            tokens,
            token,
            kind,
            now,
        ) && tokens[digest_of(token)].grant.principal@ != principal,
        !family_of_principal(principal_revoked(tokens, principal), principal, family),
{
}

/// A revoked token stays revoked: neither a presentation nor a revocation
/// brings one back.
pub proof fn law_revocation_is_final(
    tokens: Map<Seq<char>, TokenRow>,
    token: Seq<char>,
    other: Seq<char>,
    family: Seq<char>,
    kind: TokenKind,
    now: int,
    later: int,
)
    requires
        tokens.contains_key(digest_of(token)),
        tokens[digest_of(token)].revoked,
    ensures
        !token_live(refresh_presented(tokens, other, now), token, kind, later),
        !token_live(family_revoked(tokens, family), token, kind, later),
{
}

/// The sweep removes nothing that is still live.
pub proof fn law_sweep_keeps_what_is_live(
    tokens: Map<Seq<char>, TokenRow>,
    codes: Map<Seq<char>, CodeRow>,
    logins: Map<Seq<char>, LoginRow>,
    value: Seq<char>,
    kind: TokenKind,
    now: int,
)
    ensures
        token_live(tokens.remove_keys(expired(tokens, now)), value, kind, now) == token_live(
            tokens,
            value,
            kind,
            now,
        ),
        code_live(codes.remove_keys(expired(codes, now)), value, now) == code_live(codes, value, now),
        login_live(logins.remove_keys(expired(logins, now)), value, now) == login_live(
            logins,
            value,
            now,
        ),
{
}

/// What is stored lives until its time is up, and not a moment longer: a login,
/// a code, and a token that nobody revoked. A token answers only as what it is.
pub proof fn law_rows_live_until_their_time_is_up(
    m: StoreModel,
    state: Seq<char>,
    l: LoginData,
    code: Seq<char>,
    token: Seq<char>,
    kind: TokenKind,
    g: GrantData,
    created: i64,
    expires: i64,
    now: int,
)
    ensures
        m.logins.contains_key(state) && m.logins[state].login(state) == Some(l) ==> (login_live(m.logins, state, now)
            <==> now < l.expires_us),
        m.codes.contains_key(digest_of(code)) ==> (code_live(m.codes, code, now) <==> now < m.codes[digest_of(
            code,
        )].expires_us),
        m.tokens.contains_key(digest_of(token)) && token_row(
            m.tokens[digest_of(token)],
            kind,
            g,
            created,
            expires,
        ) ==> (token_live(m.tokens, token, kind, now) <==> now < expires) && !token_live(
            m.tokens,
            token,
            if kind == TokenKind::Access {
                TokenKind::Refresh
            } else {
                TokenKind::Access
            },
            now,
        ),
        !m.logins.contains_key(state) ==> !login_live(m.logins, state, now),
        !m.codes.contains_key(digest_of(code)) ==> !code_live(m.codes, code, now),
        !m.tokens.contains_key(digest_of(token)) ==> !token_live(m.tokens, token, kind, now),
{
}

/// A stored login, grant or client says what its columns say.
pub proof fn law_rows_say_what_was_stored(row: LoginRow, state: Seq<char>, columns: GrantColumns)
    ensures
        row.login(state) matches Some(l) ==> {
            &&& l.state == state && l.client_id == row.client_id@ && l.redirect_uri == row.redirect_uri@
            &&& l.client_state == opt_text(row.client_state) && l.code_challenge == row.code_challenge@
            &&& l.resource == row.resource@ && Some(l.scopes) == json_texts(row.scopes@)
            &&& l.upstream_verifier == row.upstream_verifier@ && l.nonce == row.nonce@ && l.csrf == row.csrf@
            &&& l.principal == opt_text(row.principal)
            &&& l.created_us == row.created_us && l.expires_us == row.expires_us
        },
        row.login(state) is None <==> json_texts(row.scopes@) is None,
        columns.grant() matches Some(g) ==> {
            &&& g.client_id == columns.client_id@ && g.principal == columns.principal@
            &&& g.resource == columns.resource@ && g.family == columns.family@
            &&& Some(g.scopes) == json_texts(columns.scopes@)
        },
        columns.grant() is None <==> json_texts(columns.scopes@) is None,
{
}

/// The sweep leaves nothing behind whose time is up, and loses nothing whose time
/// is not.
pub proof fn law_sweep_leaves_nothing_expired(tokens: Map<Seq<char>, TokenRow>, d: Seq<char>, now: int)
    ensures
        tokens.contains_key(d) && tokens[d].expires_us <= now ==> !tokens.remove_keys(expired(tokens, now)).contains_key(
            d,
        ),
        tokens.contains_key(d) && tokens[d].expires_us > now ==> tokens.remove_keys(expired(tokens, now)).contains_key(d)
            && tokens.remove_keys(expired(tokens, now))[d] == tokens[d],
        !tokens.contains_key(d) ==> !tokens.remove_keys(expired(tokens, now)).contains_key(d),
{
}

/// A registration goes exactly where it has lain idle for longer than it may, is
/// not the server's own and holds no token: one that was used in time stays, and
/// so does one with a token, however old.
pub proof fn law_only_idle_registrations_go(m: StoreModel, id: Seq<char>, now: int, max_idle: int, d: Seq<char>)
    ensures
        m.clients.contains_key(id) && m.clients[id].last_used_us >= now - max_idle ==> !idle_client(
            m,
            id,
            now,
            max_idle,
        ),
        m.tokens.contains_key(d) && m.tokens[d].grant.client_id@ == id ==> !idle_client(m, id, now, max_idle),
        m.clients.contains_key(id) && m.clients[id].source@ == RESERVED@ ==> !idle_client(m, id, now, max_idle),
        m.clients.contains_key(id) && m.clients[id].last_used_us < now - max_idle && m.clients[id].source@ != RESERVED@
            && (forall|t: Seq<char>| #[trigger] m.tokens.contains_key(t) ==> m.tokens[t].grant.client_id@ != id)
            ==> idle_client(m, id, now, max_idle),
{
}

/// A refresh token that is presented in time and was not spent is spent by that;
/// no other row is touched, and its own keeps its grant and its time.
pub proof fn law_presenting_touches_one_row(
    tokens: Map<Seq<char>, TokenRow>,
    token: Seq<char>,
    now: int,
    d: Seq<char>,
)
    requires
        token_live(tokens, token, TokenKind::Refresh, now),
        tokens[digest_of(token)].grant.grant() is Some,
        !tokens[digest_of(token)].spent,
    ensures
        ({
            let after = refresh_presented(tokens, token, now);
            let own = digest_of(token);
            &&& after.dom() == tokens.dom()
            &&& d != own && tokens.contains_key(d) ==> after[d] == tokens[d]
            &&& after[own].spent && !after[own].revoked
            &&& after[own].grant == tokens[own].grant && after[own].expires_us == tokens[own].expires_us
        }),
{
    assert(refresh_presented(tokens, token, now).dom() =~= tokens.dom());
}

/// A client is read back as it was stored, under its identifier.
pub proof fn law_a_client_is_read_back(row: ClientRow, c: ClientRecord, d: ClientRecord, created_us: i64)
    requires
        client_row(row, c, created_us),
        client_record(d, c.client_id@, row),
    ensures
        d.client_id@ == c.client_id@,
        d.client_name@ == c.client_name@,
        texts(d.redirect_uris@) == texts(c.redirect_uris@),
        d.source@ == c.source@,
        d.last_used_us == c.last_used_us,
        d.created_us == created_us,
{
}

/// Revoking a principal ends every token of theirs, of either kind and of every
/// family, and nobody else's.
pub proof fn law_revoking_a_principal_ends_their_tokens(
    tokens: Map<Seq<char>, TokenRow>,
    principal: Seq<char>,
    token: Seq<char>,
    kind: TokenKind,
    now: int,
)
    requires
        tokens.contains_key(digest_of(token)),
    ensures
        tokens[digest_of(token)].grant.principal@ == principal ==> !token_live(
            principal_revoked(tokens, principal),
            token,
            kind,
            now,
        ),
        tokens[digest_of(token)].grant.principal@ != principal ==> (token_live(
            principal_revoked(tokens, principal),
            token,
            kind,
            now,
        ) <==> token_live(tokens, token, kind, now)),
        principal_revoked(tokens, principal).dom() == tokens.dom(),
{
    assert(principal_revoked(tokens, principal).dom() =~= tokens.dom());
}

/// Nothing of a grant, of a login or of the store goes unseen.
pub proof fn law_nothing_goes_unseen(a: Grant, b: LoginRecord, c: Store)
    ensures
        a@.client_id == a.client_id@,
        a@.principal == a.principal@,
        a@.scopes == texts(a.scopes@),
        a@.resource == a.resource@,
        a@.family == a.family@,
        b@.state == b.state@,
        b@.client_id == b.client_id@,
        b@.redirect_uri == b.redirect_uri@,
        b@.client_state == opt_text(b.client_state),
        b@.code_challenge == b.code_challenge@,
        b@.resource == b.resource@,
        b@.scopes == texts(b.scopes@),
        b@.upstream_verifier == b.upstream_verifier@,
        b@.nonce == b.nonce@,
        b@.csrf == b.csrf@,
        b@.principal == opt_text(b.principal),
        b@.created_us == b.created_us,
        b@.expires_us == b.expires_us,
        c@.clients == c.clients@,
        c@.logins == c.logins@,
        c@.codes == c.codes@,
        c@.tokens == c.tokens@,
{
}

} // verus!
