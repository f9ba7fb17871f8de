//! The endpoints of the authorization server: what each of them answers.
//!
//! Nothing here speaks HTTP, reads a clock or waits. A request arrives as the
//! plain values it carries, and the answer is one plain value too.
use vstd::prelude::*;

use crate::config::OAuthConfig;
use crate::consent;
use crate::consent::{client_label, deny, offered, page, ConsentError};
use crate::crypto::{is_token, new_token, s256_challenge, ADMIN_CLIENT_ID};
use crate::limits::Limits;
use crate::metadata::{
    authorization_server, protected_resource, AuthorizationServer, ProtectedResource,
};
use crate::principals;
use crate::principals::ADMIN_SCOPE;
use crate::registration;
use crate::registration::{register, Registered, RegistrationError, RegistrationRequest};
use crate::store;
use crate::store::{ClientRecord, Grant, LoginRecord, Store, StoreModel, RESERVED};
use crate::text;
use crate::text::{holds_char, holds_text, same, split_at_char, split_words, starts_with, trim};
use crate::token;
use crate::token::{
    grant_authorization_code, grant_refresh, revoke, validate, CodeExchange, RefreshExchange,
    TokenError, TokenResponse,
};
use crate::tools::ToolCategory;
use crate::upstream;
use crate::upstream::{IdentityClaims, Provider};

verus! {

/// How long a login may stay in flight, in microseconds: ten minutes.
pub const LOGIN_TTL_US: i64 = 600_000_000;

/// The most scopes one authorization request may name.
pub const MAX_REQUESTED_SCOPES: usize = 16;

/// The most scopes one consent form may carry.
pub const MAX_APPROVED_SCOPES: usize = 16;

/// How long a client registration survives without being used, in
/// microseconds: thirty days, the life of a refresh token.
pub const CLIENT_MAX_IDLE_US: i64 = 2_592_000_000_000;

/// What a request whose address cannot be established is counted under.
pub const UNKNOWN_PEER: &'static str = "unknown";

// ---------------------------------------------------------------------------
// Reading requests
// ---------------------------------------------------------------------------

/// The pairs that `url::form_urlencoded::parse` reads from a body.
pub uninterp spec fn form_pairs(body: Seq<u8>) -> Seq<(Seq<char>, Seq<char>)>;

/// `url::form_urlencoded::parse`: the pairs of a form, in their order.
#[verifier::external_body]
pub(crate) fn parse_form(body: &[u8]) -> (r: Vec<(String, String)>)
    ensures
        upstream::pair_texts(r@) == form_pairs(body@),
{
    url::form_urlencoded::parse(body).into_owned().collect()
}

/// The text that `url::form_urlencoded::Serializer` writes for pairs.
pub uninterp spec fn form_text(pairs: Seq<(Seq<char>, Seq<char>)>) -> Seq<char>;

/// `url::form_urlencoded::Serializer`: the pairs as one encoded text.
#[verifier::external_body]
pub(crate) fn write_form(pairs: &Vec<(String, String)>) -> (r: String)
    ensures
        r@ == form_text(upstream::pair_texts(pairs@)),
{
    url::form_urlencoded::Serializer::new(String::new()).extend_pairs(pairs).finish()
}

/// The last value that a form gives for a key.
pub open spec fn last_value(pairs: Seq<(Seq<char>, Seq<char>)>, key: Seq<char>) -> Option<Seq<char>>
    decreases pairs.len(),
{
    if pairs.len() == 0 {
        None
    } else if pairs.last().0 == key {
        Some(pairs.last().1)
    } else {
        last_value(pairs.drop_last(), key)
    }
}

/// The values that a form gives for a key, in their order.
pub open spec fn all_values(pairs: Seq<(Seq<char>, Seq<char>)>, key: Seq<char>) -> Seq<Seq<char>>
    decreases pairs.len(),
{
    if pairs.len() == 0 {
        Seq::empty()
    } else if pairs.last().0 == key {
        all_values(pairs.drop_last(), key).push(pairs.last().1)
    } else {
        all_values(pairs.drop_last(), key)
    }
}

/// What a consent form carries.
#[derive(Debug)]
pub struct ConsentForm {
    pub csrf: Option<String>,
    pub state: Option<String>,
    pub scopes: Vec<String>,
    pub deny: bool,
    /// The form carried more scopes than are read.
    pub too_many_scopes: bool,
}

impl ConsentForm {
    /// The form is what the pairs say.
    pub open spec fn reads(self, pairs: Seq<(Seq<char>, Seq<char>)>) -> bool {
        let scopes = all_values(pairs, "scope"@);
        &&& text::opt_text(self.csrf) == last_value(pairs, "csrf"@)
        &&& text::opt_text(self.state) == last_value(pairs, "state"@)
        &&& text::texts(self.scopes@) == (if scopes.len() <= MAX_APPROVED_SCOPES {
            scopes
        } else {
            scopes.take(MAX_APPROVED_SCOPES as int)
        })
        &&& self.deny == (last_value(pairs, "deny"@) is Some)
        &&& self.too_many_scopes == (scopes.len() > MAX_APPROVED_SCOPES)
    }
}

/// Reads the pairs of a consent form.
pub fn read_consent_form(pairs: &Vec<(String, String)>) -> (r: ConsentForm)
    ensures
        r.reads(upstream::pair_texts(pairs@)),
{
    let ghost all = upstream::pair_texts(pairs@);
    let mut form: ConsentForm = ConsentForm {
        csrf: None,
        state: None,
        scopes: Vec::new(),
        deny: false,
        too_many_scopes: false,
    };
    proof {
        reveal_strlit("csrf");
        reveal_strlit("state");
        reveal_strlit("scope");
        reveal_strlit("deny");
        assert("csrf"@[0] == 'c' && "state"@[0] == 's' && "scope"@[0] == 's' && "deny"@[0] == 'd');
        assert("state"@[1] == 't' && "scope"@[1] == 'c');
        assert(text::texts(form.scopes@) =~= Seq::<Seq<char>>::empty());
        assert(all.take(0) =~= Seq::<(Seq<char>, Seq<char>)>::empty());
    }
    let mut i: usize = 0;
    while i < pairs.len()
        invariant
            i <= pairs@.len(),
            all == upstream::pair_texts(pairs@),
            form.reads(all.take(i as int)),
            "csrf"@ != "state"@ && "csrf"@ != "scope"@ && "csrf"@ != "deny"@ && "state"@ != "scope"@
                && "state"@ != "deny"@ && "scope"@ != "deny"@,
        decreases pairs@.len() - i,
    {
        let ghost before = all.take(i as int);
        let ghost after = all.take(i + 1);
        let ghost scopes = text::texts(form.scopes@);
        assert(after.drop_last() =~= before);
        assert(after.last() == (pairs@[i as int].0@, pairs@[i as int].1@));
        let key: &String = &pairs[i].0;
        if same(key, "csrf") {
            form.csrf = Some(pairs[i].1.clone());
        } else if same(key, "state") {
            form.state = Some(pairs[i].1.clone());
        } else if same(key, "scope") {
            assert(form.scopes@.len() == scopes.len());
            if form.scopes.len() < MAX_APPROVED_SCOPES {
                form.scopes.push(pairs[i].1.clone());
                assert(text::texts(form.scopes@) =~= scopes.push(pairs@[i as int].1@));
            } else {
                form.too_many_scopes = true;
                assert(all_values(after, "scope"@).take(MAX_APPROVED_SCOPES as int) =~= scopes);
            }
        } else if same(key, "deny") {
            form.deny = true;
        }
        i += 1;
    }
    assert(all.take(all.len() as int) =~= all);
    form
}

/// Reads the body of a consent form.
pub fn parse_consent_form(body: &[u8]) -> (r: ConsentForm)
    ensures
        r.reads(form_pairs(body@)),
{
    read_consent_form(&parse_form(body))
}

/// What a token or revocation request carries.
#[derive(Debug)]
pub struct TokenForm {
    pub grant_type: Option<String>,
    pub code: Option<String>,
    pub code_verifier: Option<String>,
    pub client_id: Option<String>,
    pub redirect_uri: Option<String>,
    pub refresh_token: Option<String>,
    pub token: Option<String>,
    /// A parameter arrived more than once.
    pub repeated: bool,
}

/// The parameter is one that a token request is read for.
pub open spec fn is_parameter(key: Seq<char>) -> bool {
    ||| key == "grant_type"@
    ||| key == "code"@
    ||| key == "code_verifier"@
    ||| key == "client_id"@
    ||| key == "redirect_uri"@
    ||| key == "refresh_token"@
    ||| key == "token"@
}

/// A parameter that is read arrives more than once.
pub open spec fn repeats(pairs: Seq<(Seq<char>, Seq<char>)>) -> bool
    decreases pairs.len(),
{
    pairs.len() > 0 && (repeats(pairs.drop_last()) || is_parameter(pairs.last().0) && last_value(
        pairs.drop_last(),
        pairs.last().0,
    ) is Some)
}

impl TokenForm {
    /// The form is what the pairs say.
    pub open spec fn reads(self, pairs: Seq<(Seq<char>, Seq<char>)>) -> bool {
        &&& text::opt_text(self.grant_type) == last_value(pairs, "grant_type"@)
        &&& text::opt_text(self.code) == last_value(pairs, "code"@)
        &&& text::opt_text(self.code_verifier) == last_value(pairs, "code_verifier"@)
        &&& text::opt_text(self.client_id) == last_value(pairs, "client_id"@)
        &&& text::opt_text(self.redirect_uri) == last_value(pairs, "redirect_uri"@)
        &&& text::opt_text(self.refresh_token) == last_value(pairs, "refresh_token"@)
        &&& text::opt_text(self.token) == last_value(pairs, "token"@)
        &&& self.repeated == repeats(pairs)
    }
}

/// The names of the parameters are all different.
proof fn lemma_parameters_differ()
    ensures
        "grant_type"@ != "code"@ && "grant_type"@ != "code_verifier"@ && "grant_type"@ != "client_id"@
            && "grant_type"@ != "redirect_uri"@ && "grant_type"@ != "refresh_token"@ && "grant_type"@
            != "token"@,
        "code"@ != "code_verifier"@ && "code"@ != "client_id"@ && "code"@ != "redirect_uri"@ && "code"@
            != "refresh_token"@ && "code"@ != "token"@,
        "code_verifier"@ != "client_id"@ && "code_verifier"@ != "redirect_uri"@ && "code_verifier"@
            != "refresh_token"@ && "code_verifier"@ != "token"@,
        "client_id"@ != "redirect_uri"@ && "client_id"@ != "refresh_token"@ && "client_id"@ != "token"@,
        "redirect_uri"@ != "refresh_token"@ && "redirect_uri"@ != "token"@,
        "refresh_token"@ != "token"@,
{
    reveal_strlit("grant_type");
    reveal_strlit("code");
    reveal_strlit("code_verifier");
    reveal_strlit("client_id");
    reveal_strlit("redirect_uri");
    reveal_strlit("refresh_token");
    reveal_strlit("token");
    assert("grant_type"@.len() == 10 && "code"@.len() == 4 && "code_verifier"@.len() == 13
        && "client_id"@.len() == 9 && "redirect_uri"@.len() == 12 && "refresh_token"@.len() == 13
        && "token"@.len() == 5);
    assert("code_verifier"@[0] != "refresh_token"@[0]);
}

fn put_once(slot: &mut Option<String>, repeated: &mut bool, value: &String)
    ensures
        *final(slot) == Some(*value),
        *final(repeated) == (*old(repeated) || *old(slot) is Some),
{
    if slot.is_some() {
        *repeated = true;
    }
    *slot = Some(value.clone());
}

/// Reads the pairs of a token or revocation request. What is not a parameter
/// of either is ignored.
pub fn read_token_form(pairs: &Vec<(String, String)>) -> (r: TokenForm)
    ensures
        r.reads(upstream::pair_texts(pairs@)),
{
    let ghost all = upstream::pair_texts(pairs@);
    let mut form: TokenForm = TokenForm {
        grant_type: None,
        code: None,
        code_verifier: None,
        client_id: None,
        redirect_uri: None,
        refresh_token: None,
        token: None,
        repeated: false,
    };
    proof {
        lemma_parameters_differ();
        assert(all.take(0) =~= Seq::<(Seq<char>, Seq<char>)>::empty());
    }
    let mut i: usize = 0;
    while i < pairs.len()
        invariant
            i <= pairs@.len(),
            all == upstream::pair_texts(pairs@),
            form.reads(all.take(i as int)),
        decreases pairs@.len() - i,
    {
        let ghost before = all.take(i as int);
        let ghost after = all.take(i + 1);
        assert(after.drop_last() =~= before);
        assert(after.last() == (pairs@[i as int].0@, pairs@[i as int].1@));
        proof {
            lemma_parameters_differ();
        }
        let key: &String = &pairs[i].0;
        let value: &String = &pairs[i].1;
        if same(key, "grant_type") {
            put_once(&mut form.grant_type, &mut form.repeated, value);
        } else if same(key, "code") {
            put_once(&mut form.code, &mut form.repeated, value);
        } else if same(key, "code_verifier") {
            put_once(&mut form.code_verifier, &mut form.repeated, value);
        } else if same(key, "client_id") {
            put_once(&mut form.client_id, &mut form.repeated, value);
        } else if same(key, "redirect_uri") {
            put_once(&mut form.redirect_uri, &mut form.repeated, value);
        } else if same(key, "refresh_token") {
            put_once(&mut form.refresh_token, &mut form.repeated, value);
        } else if same(key, "token") {
            put_once(&mut form.token, &mut form.repeated, value);
        }
        i += 1;
    }
    assert(all.take(all.len() as int) =~= all);
    form
}

/// Reads the body of a token or revocation request.
pub fn parse_token_form(body: &[u8]) -> (r: TokenForm)
    ensures
        r.reads(form_pairs(body@)),
{
    read_token_form(&parse_form(body))
}

/// A parameter that must be there and not be empty.
pub open spec fn given(value: Option<String>) -> Option<Seq<char>> {
    match value {
        Some(v) => if v@.len() == 0 {
            None
        } else {
            Some(v@)
        },
        None => None,
    }
}

/// The value of a required parameter. An empty value is a missing one.
pub fn required<'a>(value: &'a Option<String>, missing: &'static str) -> (r: std::result::Result<
    &'a str,
    TokenError,
>)
    ensures
        match given(*value) {
            Some(v) => r matches Ok(s) && s@ == v,
            None => r == Err::<&'a str, TokenError>(TokenError::InvalidRequest(missing)),
        },
{
    match value {
        Some(v) => if v.as_str().is_empty() {
            Err(TokenError::InvalidRequest(missing))
        } else {
            Ok(v.as_str())
        },
        None => Err(TokenError::InvalidRequest(missing)),
    }
}

/// The scopes that an authorization request names.
pub fn requested_scopes(scope: &Option<String>) -> (r: Vec<String>)
    ensures
        text::texts(r@) == (match *scope {
            Some(s) => text::words(s@),
            None => Seq::empty(),
        }),
{
    match scope {
        Some(s) => split_words(s),
        None => {
            let v: Vec<String> = Vec::new();
            assert(text::texts(v@) =~= Seq::<Seq<char>>::empty());
            v
        },
    }
}

/// The client that the outermost proxy saw: the first entry of the forwarding
/// header, without white space and without the brackets of an address that is
/// written in them.
pub open spec fn first_forwarded(header: Seq<char>) -> Seq<char> {
    let first = text::trimmed(text::split(header, ',')[0]);
    if first.len() >= 2 && first[0] == '[' && first.last() == ']' {
        first.subrange(1, first.len() - 1)
    } else {
        first
    }
}

/// The text that names the client in the forwarding header. It is text that
/// the caller chose, and is used only where it is an address.
pub fn forwarded_for(header: &str) -> (r: String)
    ensures
        r@ == first_forwarded(header@),
{
    let parts: Vec<String> = split_at_char(header, ',');
    assert(text::texts(parts@)[0] == parts@[0]@);
    let first: String = trim(&parts[0]);
    let v: Vec<char> = text::chars_of(&first);
    if v.len() >= 2 && v[0] == '[' && v[v.len() - 1] == ']' {
        let out: String = text::text_of(
            vstd::slice::slice_subrange(v.as_slice(), 1, v.len() - 1),
        );
        assert(out@ =~= first@.subrange(1, first@.len() - 1));
        out
    } else {
        first
    }
}

/// What a request is counted under: the address that a trusted proxy forwards,
/// else that of the connection, else one name for all. Both addresses are
/// given in their one spelling; a forwarded text that is no address is not
/// given at all.
pub fn peer(trust_forwarded: bool, forwarded: Option<String>, connection: Option<String>) -> (r: String)
    ensures
        r@ == (if trust_forwarded && forwarded is Some {
            forwarded->0@
        } else if connection is Some {
            connection->0@
        } else {
            UNKNOWN_PEER@
        }),
{
    if trust_forwarded {
        if let Some(f) = forwarded {
            return f;
        }
    }
    match connection {
        Some(c) => c,
        None => UNKNOWN_PEER.to_owned(),
    }
}

// ---------------------------------------------------------------------------
// Answers
// ---------------------------------------------------------------------------

/// What an answer carries.
pub enum Body {
    Empty,
    Text(String),
    Html(String),
    /// An error object with its code and, for some, a description.
    Fault { code: String, description: Option<String> },
    Client(Registered),
    Tokens(TokenResponse),
    Resource(ProtectedResource),
    Server(AuthorizationServer),
}

/// An answer: its status, where it sends the caller, when the caller may come
/// back, whether it may be kept, and what it carries.
pub struct Answer {
    pub status: u16,
    pub location: Option<String>,
    pub retry_after: Option<i64>,
    pub no_store: bool,
    pub body: Body,
}

impl Answer {
    /// The answer has that status, sends nobody anywhere and names no time.
    pub open spec fn stays(self, status: int, no_store: bool) -> bool {
        &&& self.status == status
        &&& self.location is None
        &&& self.retry_after is None
        &&& self.no_store == no_store
    }

    /// The answer is a plain text with that status.
    pub open spec fn says(self, status: int, words: Seq<char>) -> bool {
        self.stays(status, false) && (self.body matches Body::Text(t) && t@ == words)
    }

    /// The answer is an error object.
    pub open spec fn faults(
        self,
        status: int,
        no_store: bool,
        code: Seq<char>,
        description: Option<Seq<char>>,
    ) -> bool {
        self.stays(status, no_store) && (self.body matches Body::Fault { code: c, description: d } && c@
            == code && text::opt_text(d) == description)
    }

    /// The answer sends the caller to the place.
    pub open spec fn leads(self, location: Seq<char>) -> bool {
        &&& self.status == 302
        &&& self.location matches Some(l) && l@ == location
        &&& self.retry_after is None
        &&& !self.no_store
        &&& self.body is Empty
    }
}

/// A refused request: plain, and sent nowhere.
pub open spec fn is_refused(a: Answer, reason: Seq<char>) -> bool {
    a.says(400, reason)
}

/// A failure of this server.
pub open spec fn is_server_error(a: Answer) -> bool {
    a.says(500, "this server failed to record the request"@)
}

/// The one answer to a caller over its limit.
pub open spec fn is_too_many(a: Answer, window: int) -> bool {
    &&& a.status == 429
    &&& a.location is None
    &&& a.retry_after == Some(crate::limits::whole_seconds(window) as i64)
    &&& !a.no_store
    &&& a.body matches Body::Fault { code, description } && code@ == "temporarily_unavailable"@
        && text::opt_text(description) == Some("too many requests from this address"@)
}

fn plain(status: u16, words: &str) -> (r: Answer)
    ensures
        r.says(status as int, words@),
{
    Answer {
        status,
        location: None,
        retry_after: None,
        no_store: false,
        body: Body::Text(words.to_owned()),
    }
}

/// A refused request.
pub fn refused(reason: &str) -> (r: Answer)
    ensures
        is_refused(r, reason@),
{
    plain(400, reason)
}

/// A failure of this server.
pub fn server_error() -> (r: Answer)
    ensures
        is_server_error(r),
{
    plain(500, "this server failed to record the request")
}

/// The answer for what is not there.
pub fn not_found() -> (r: Answer)
    ensures
        r.stays(404, false),
        r.body is Empty,
{
    Answer { status: 404, location: None, retry_after: None, no_store: false, body: Body::Empty }
}

/// The answer where the upstream provider cannot be reached.
pub fn provider_unreachable() -> (r: Answer)
    ensures
        r.says(502, "the upstream provider could not be reached"@),
{
    plain(502, "the upstream provider could not be reached")
}

fn fault(status: u16, no_store: bool, code: &str, description: Option<String>) -> (r: Answer)
    ensures
        r.faults(status as int, no_store, code@, text::opt_text(description)),
{
    Answer {
        status,
        location: None,
        retry_after: None,
        no_store,
        body: Body::Fault { code: code.to_owned(), description },
    }
}

fn found(location: String) -> (r: Answer)
    ensures
        r.leads(location@),
{
    Answer {
        status: 302,
        location: Some(location),
        retry_after: None,
        no_store: false,
        body: Body::Empty,
    }
}

/// What the one page for a refused login says.
pub const LOGIN_REFUSED: &'static str =
    "<!doctype html><html lang=\"en\"><head><meta charset=\"utf-8\"><title>Sign-in failed</title></head><body><h1>Sign-in failed</h1><p>This sign-in could not be completed. Close this window and start again.</p></body></html>";

/// The one page for a refused login.
pub open spec fn is_login_refused(a: Answer) -> bool {
    a.stays(403, false) && (a.body matches Body::Html(t) && t@ == LOGIN_REFUSED@)
}

/// The one page that a refused login gets. It names no reason.
pub fn login_refused() -> (r: Answer)
    ensures
        is_login_refused(r),
{
    Answer {
        status: 403,
        location: None,
        retry_after: None,
        no_store: false,
        body: Body::Html(LOGIN_REFUSED.to_owned()),
    }
}

/// The answer to a refused registration.
pub open spec fn is_registration_refused(a: Answer, e: RegistrationError) -> bool {
    match e {
        RegistrationError::Store(_) => a.faults(500, false, "server_error"@, None),
        RegistrationError::InvalidRedirectUri => a.faults(
            400,
            false,
            "invalid_redirect_uri"@,
            Some(e.says()),
        ),
        _ => a.faults(400, false, "invalid_client_metadata"@, Some(e.says())),
    }
}

/// The answer to a refused registration. What the store says of its failure is
/// kept from the client.
pub fn registration_refused(e: &RegistrationError) -> (r: Answer)
    ensures
        is_registration_refused(r, *e),
{
    let code: &str = match e {
        RegistrationError::InvalidRedirectUri => "invalid_redirect_uri",
        RegistrationError::InvalidClientMetadata => "invalid_client_metadata",
        RegistrationError::DomainNotAllowed => "invalid_client_metadata",
        RegistrationError::MalformedDocument => "invalid_client_metadata",
        RegistrationError::MetadataMismatch => "invalid_client_metadata",
        RegistrationError::Fetch(_) => "invalid_client_metadata",
        RegistrationError::Store(_) => {
            return fault(500, false, "server_error", None);
        },
    };
    fault(400, false, code, Some(e.message()))
}

/// The answer to a refused decision.
pub open spec fn is_consent_refused(a: Answer, e: ConsentError) -> bool {
    match e {
        ConsentError::BadCsrf => a.says(403, "this consent form does not belong to a login in flight"@),
        ConsentError::Store(_) => is_server_error(a),
        _ => a.says(400, "this consent could not be recorded"@),
    }
}

/// The answer to a refused decision. A form with the wrong token comes from
/// someone who was not handed it.
pub fn consent_refused(e: &ConsentError) -> (r: Answer)
    ensures
        is_consent_refused(r, *e),
{
    match e {
        ConsentError::BadCsrf => plain(403, "this consent form does not belong to a login in flight"),
        ConsentError::UnknownLogin => plain(400, "this consent could not be recorded"),
        ConsentError::NotAuthenticated => plain(400, "this consent could not be recorded"),
        ConsentError::NotOffered => plain(400, "this consent could not be recorded"),
        ConsentError::NothingApproved => plain(400, "this consent could not be recorded"),
        ConsentError::Store(_) => server_error(),
    }
}

/// The answer to a refused token request.
pub open spec fn is_token_refused(a: Answer, e: TokenError) -> bool {
    match e {
        TokenError::InvalidRequest(reason) => a.faults(400, true, "invalid_request"@, Some(reason@)),
        TokenError::UnsupportedGrantType => a.faults(
            400,
            true,
            "unsupported_grant_type"@,
            Some("this server issues the authorization_code and refresh_token grants"@),
        ),
        TokenError::InvalidGrant(_) => a.faults(400, true, "invalid_grant"@, None),
        TokenError::Store(_) => is_server_error(a),
    }
}

/// The answer to a refused token request. Only a mistake in the request itself
/// is described: why a grant is refused is what a guesser wants to know.
pub fn token_refused(e: &TokenError) -> (r: Answer)
    ensures
        is_token_refused(r, *e),
{
    match e {
        TokenError::InvalidRequest(reason) => fault(400, true, e.code(), Some((*reason).to_owned())),
        TokenError::UnsupportedGrantType => fault(
            400,
            true,
            e.code(),
            Some("this server issues the authorization_code and refresh_token grants".to_owned()),
        ),
        TokenError::InvalidGrant(_) => fault(400, true, e.code(), None),
        TokenError::Store(_) => server_error(),
    }
}

/// Whatever makes a grant worthless, the caller gets one and the same answer.
pub proof fn law_refused_grants_look_alike(a: Answer, b: Answer, e: TokenError, f: TokenError)
    requires
        e is InvalidGrant,
        f is InvalidGrant,
        is_token_refused(a, e),
        is_token_refused(b, f),
    ensures
        a.status == b.status && a.location == b.location && a.retry_after == b.retry_after && a.no_store
            == b.no_store,
        a.body->code@ == b.body->code@ && text::opt_text(a.body->description) == text::opt_text(
            b.body->description,
        ),
{
}

/// The parameters of a redirect to a client: the given ones, its own state
/// where it sent one, and the name of this server.
pub open spec fn redirect_pairs(
    params: Seq<(Seq<char>, Seq<char>)>,
    client_state: Option<Seq<char>>,
    iss: Seq<char>,
) -> Seq<(Seq<char>, Seq<char>)> {
    match client_state {
        Some(s) => params.push(("state"@, s)).push(("iss"@, iss)),
        None => params.push(("iss"@, iss)),
    }
}

/// Where a redirect to a client leads. A query that the client registered is
/// kept.
pub open spec fn redirect_to(
    base: Seq<char>,
    params: Seq<(Seq<char>, Seq<char>)>,
    client_state: Option<Seq<char>>,
    iss: Seq<char>,
) -> Seq<char> {
    base + (if base.contains('?') {
        "&"@
    } else {
        "?"@
    }) + form_text(redirect_pairs(params, client_state, iss))
}

/// Sends the caller to the client.
pub fn client_redirect(
    base: &str,
    params: Vec<(String, String)>,
    client_state: &Option<String>,
    iss: &str,
) -> (r: Answer)
    ensures
        r.leads(
            redirect_to(base@, upstream::pair_texts(params@), text::opt_text(*client_state), iss@),
        ),
{
    let ghost start = upstream::pair_texts(params@);
    let mut pairs: Vec<(String, String)> = params;
    if let Some(s) = client_state {
        pairs.push(("state".to_owned(), s.clone()));
        assert(upstream::pair_texts(pairs@) =~= start.push(("state"@, s@)));
    }
    let ghost middle = upstream::pair_texts(pairs@);
    pairs.push(("iss".to_owned(), iss.to_owned()));
    assert(upstream::pair_texts(pairs@) =~= middle.push(("iss"@, iss@)));
    let separator: &str = if holds_char(base, '?') {
        "&"
    } else {
        "?"
    };
    found(base.to_owned().concat(separator).concat(&write_form(&pairs)))
}

// ---------------------------------------------------------------------------
// Documents
// ---------------------------------------------------------------------------

/// The scheme and host of a canonical URL, without its path.
pub open spec fn origin_of(public_url: Seq<char>) -> Seq<char> {
    if "https://"@.is_prefix_of(public_url) {
        match text::cut(public_url.skip(8), "/"@) {
            Some((host, _)) => "https://"@ + host,
            None => public_url,
        }
    } else {
        public_url
    }
}

/// The scheme and host of a canonical URL, without its path.
pub fn origin(public_url: &str) -> (r: String)
    ensures
        r@ == origin_of(public_url@),
{
    proof {
        reveal_strlit("https://");
        assert("https://"@.len() == 8);
    }
    match text::strip_prefix(public_url, "https://") {
        None => public_url.to_owned(),
        Some(rest) => match text::cut_at(&rest, "/") {
            Some((host, _)) => "https://".to_owned().concat(&host),
            None => public_url.to_owned(),
        },
    }
}

/// The slugs of the categories, in their order, and the scope of
/// administration.
pub open spec fn advertised(categories: Seq<ToolCategory>) -> Seq<Seq<char>> {
    categories.map_values(|c: ToolCategory| c.spelled()).push(ADMIN_SCOPE@)
}

/// The scopes that this server advertises.
pub fn scopes(categories: &Vec<ToolCategory>) -> (r: Vec<String>)
    ensures
        text::texts(r@) == advertised(categories@),
{
    let ghost f = |c: ToolCategory| c.spelled();
    let mut out: Vec<String> = Vec::new();
    let mut i: usize = 0;
    assert(text::texts(out@) =~= categories@.take(0).map_values(f));
    while i < categories.len()
        invariant
            i <= categories@.len(),
            f == (|c: ToolCategory| c.spelled()),
            text::texts(out@) == categories@.take(i as int).map_values(f),
        decreases categories@.len() - i,
    {
        let ghost done = text::texts(out@);
        out.push(categories[i].slug().to_owned());
        assert(text::texts(out@) =~= done.push(categories@[i as int].spelled()));
        assert(text::texts(out@) =~= categories@.take(i + 1).map_values(f));
        i += 1;
    }
    assert(categories@.take(categories@.len() as int) =~= categories@);
    let ghost done = text::texts(out@);
    out.push(ADMIN_SCOPE.to_owned());
    assert(text::texts(out@) =~= done.push(ADMIN_SCOPE@));
    out
}

/// The document is the metadata of the resource.
pub open spec fn describes_resource(
    a: Answer,
    resource: Seq<char>,
    public_url: Seq<char>,
    categories: Seq<ToolCategory>,
) -> bool {
    a.stays(200, false) && (a.body matches Body::Resource(d) && d.resource@ == resource && text::texts(
        d.authorization_servers@,
    ) == seq![public_url] && text::texts(d.scopes_supported@) == advertised(categories) && text::texts(
        d.bearer_methods_supported@,
    ) == seq!["header"@])
}

/// The document is the metadata of this server.
pub open spec fn describes_server(a: Answer, public_url: Seq<char>, categories: Seq<ToolCategory>) -> bool {
    a.stays(200, false) && (a.body matches Body::Server(d) && d.describes(
        public_url,
        advertised(categories),
    ))
}

// ---------------------------------------------------------------------------
// The state that the endpoints share
// ---------------------------------------------------------------------------

/// The endpoints that answer an anonymous caller. The two that take a
/// credential share one limit.
#[derive(Clone, Copy, Debug, PartialEq, Eq, Structural)]
pub enum Endpoint {
    Register,
    Authorize,
    Callback,
    Consent,
    Credential,
}

/// What one pass of maintenance removed.
#[derive(Clone, Copy, Debug, PartialEq, Eq, Structural)]
pub struct Maintenance {
    /// Expired logins, codes and tokens.
    pub swept: u64,
    /// Clients that were idle too long and held no token.
    pub evicted: u64,
}

impl Maintenance {
    /// Whether the pass removed nothing.
    pub fn is_empty(&self) -> (r: bool)
        ensures
            r == (self.swept == 0 && self.evicted == 0),
    {
        self.swept == 0 && self.evicted == 0
    }
}

/// Everything that the endpoints share.
pub struct OauthState {
    pub config: OAuthConfig,
    pub store: Store,
    pub limits: Limits,
}

impl OauthState {
    /// The one resource that this server protects.
    pub open spec fn resource_id(self) -> Seq<char> {
        self.config.public_url@ + "/mcp"@
    }

    /// Only the store differs.
    pub open spec fn same_but_store(self, other: OauthState) -> bool {
        self.config == other.config && self.limits == other.limits
    }

    /// The window of an endpoint's limit.
    pub open spec fn window(self, endpoint: Endpoint) -> crate::limits::Window {
        match endpoint {
            Endpoint::Register => self.limits.register@,
            Endpoint::Authorize => self.limits.authorize@,
            Endpoint::Callback => self.limits.callback@,
            Endpoint::Consent => self.limits.consent@,
            Endpoint::Credential => self.limits.credential@,
        }
    }

    /// A request was counted against the limit of one endpoint; the limits of
    /// the others are as they were.
    pub open spec fn counted(self, before: OauthState, endpoint: Endpoint, peer: Seq<char>, now: int) -> bool {
        &&& self.window(endpoint) == before.window(endpoint).after(peer, now)
        &&& endpoint != Endpoint::Register ==> self.limits.register@ == before.limits.register@
        &&& endpoint != Endpoint::Authorize ==> self.limits.authorize@ == before.limits.authorize@
        &&& endpoint != Endpoint::Callback ==> self.limits.callback@ == before.limits.callback@
        &&& endpoint != Endpoint::Consent ==> self.limits.consent@ == before.limits.consent@
        &&& endpoint != Endpoint::Credential ==> self.limits.credential@ == before.limits.credential@
    }

    /// A state over a store, with the client of the admin pages in it.
    pub fn open(config: OAuthConfig, store: Store, now_us: i64) -> (r: OauthState)
        ensures
            r.config == config,
            r.limits.is_fresh(),
            r.store@ == (StoreModel { clients: r.store@.clients, ..store@ }),
            r.store@.clients.dom() == store@.clients.dom().insert(ADMIN_CLIENT_ID@),
            forall|k: Seq<char>|
                k != ADMIN_CLIENT_ID@ && #[trigger] store@.clients.contains_key(k) ==> r.store@.clients[k]
                    == store@.clients[k],
            ({
                let row = r.store@.clients[ADMIN_CLIENT_ID@];
                &&& row.client_name@ == "mcpmem admin UI"@
                &&& crate::json::json_texts(row.redirect_uris@) == Some(
                    seq![config.public_url@ + "/ui/admin/callback"@],
                )
                &&& row.source@ == RESERVED@
                &&& row.last_used_us == now_us
                &&& row.created_us == (if store@.clients.contains_key(ADMIN_CLIENT_ID@) {
                    store@.clients[ADMIN_CLIENT_ID@].created_us
                } else {
                    now_us
                })
            }),
    {
        let mut store: Store = store;
        let redirect_uris: Vec<String> = crate::metadata::one(
            &config.public_url.clone().concat("/ui/admin/callback"),
        );
        let client: ClientRecord = ClientRecord {
            client_id: ADMIN_CLIENT_ID.to_owned(),
            client_name: "mcpmem admin UI".to_owned(),
            redirect_uris,
            source: RESERVED.to_owned(),
            created_us: now_us,
            last_used_us: now_us,
        };
        store.put_client(&client);
        OauthState { config, store, limits: Limits::new() }
    }

    /// The one resource that this server protects.
    pub fn resource(&self) -> (r: String)
        ensures
            r@ == self.resource_id(),
    {
        self.config.public_url.clone().concat("/mcp")
    }

    /// Where the metadata of the resource is published.
    pub fn resource_metadata(&self) -> (r: String)
        ensures
            r@ == self.config.public_url@ + "/.well-known/oauth-protected-resource"@,
    {
        self.config.public_url.clone().concat("/.well-known/oauth-protected-resource")
    }

    /// Where the upstream provider sends the human back to.
    pub fn callback_uri(&self) -> (r: String)
        ensures
            r@ == self.config.public_url@ + "/oauth/callback"@,
    {
        self.config.public_url.clone().concat("/oauth/callback")
    }

    /// The grant behind a bearer token, if it is one for this server's
    /// resource.
    pub fn validate(&self, t: &str, now_us: i64) -> (r: Option<Grant>)
        ensures
            match r {
                Some(g) => token::worth(self.store@, t@, self.resource_id(), now_us as int) == Some(g@),
                None => token::worth(self.store@, t@, self.resource_id(), now_us as int) is None,
            },
    {
        validate(&self.store, t, &self.resource(), now_us)
    }

    /// Revokes every token of a principal. Returns how many families died.
    pub fn revoke_principal(&mut self, principal: &str) -> (r: u64)
        ensures
            final(self).same_but_store(*old(self)),
            final(self).store@ == (StoreModel {
                tokens: store::principal_revoked(old(self).store@.tokens, principal@),
                ..old(self).store@
            }),
            r == Set::new(
                |f: Seq<char>| store::family_of_principal(old(self).store@.tokens, principal@, f),
            ).len(),
    {
        self.store.revoke_principal(principal)
    }

    /// One pass of maintenance. Clients are judged before the sweep, against
    /// the tokens that they held when the pass began.
    pub fn maintain(&mut self, now_us: i64) -> (r: Maintenance)
        ensures
            final(self).same_but_store(*old(self)),
            ({
                let m = old(self).store@;
                let gone = Set::new(
                    |id: Seq<char>|
                        store::idle_client(m, id, now_us as int, CLIENT_MAX_IDLE_US as int),
                );
                &&& r.evicted == gone.len()
                &&& final(self).store@.clients == m.clients.remove_keys(gone)
                &&& final(self).store@.logins == m.logins.remove_keys(
                    store::expired(m.logins, now_us as int),
                )
                &&& final(self).store@.codes == m.codes.remove_keys(
                    store::expired(m.codes, now_us as int),
                )
                &&& final(self).store@.tokens == m.tokens.remove_keys(
                    store::expired(m.tokens, now_us as int),
                )
                &&& ({
                    let n = store::expired(m.logins, now_us as int).len() + store::expired(
                        m.codes,
                        now_us as int,
                    ).len() + store::expired(m.tokens, now_us as int).len();
                    r.swept == if n <= u64::MAX {
                        n as int
                    } else {
                        u64::MAX as int
                    }
                })
            }),
    {
        let evicted: u64 = self.store.evict_clients(now_us, CLIENT_MAX_IDLE_US);
        let swept: u64 = self.store.sweep(now_us);
        Maintenance { swept, evicted }
    }

    /// Counts a request against the endpoint's limit. The answer is that to a
    /// caller over it.
    pub fn limit(&mut self, endpoint: Endpoint, peer: &str, now_us: i64) -> (r: Option<Answer>)
        ensures
            final(self).config == old(self).config,
            final(self).store == old(self).store,
            final(self).counted(*old(self), endpoint, peer@, now_us as int),
            old(self).window(endpoint).admits(peer@, now_us as int) ==> r is None,
            !old(self).window(endpoint).admits(peer@, now_us as int) ==> (r matches Some(a)
                && is_too_many(a, old(self).window(endpoint).window)),
    {
        let admitted: bool = match endpoint {
            Endpoint::Register => self.limits.register.check(peer, now_us),
            Endpoint::Authorize => self.limits.authorize.check(peer, now_us),
            Endpoint::Callback => self.limits.callback.check(peer, now_us),
            Endpoint::Consent => self.limits.consent.check(peer, now_us),
            Endpoint::Credential => self.limits.credential.check(peer, now_us),
        };
        if admitted {
            return None;
        }
        let seconds: i64 = match endpoint {
            Endpoint::Register => self.limits.register.retry_after_seconds(),
            Endpoint::Authorize => self.limits.authorize.retry_after_seconds(),
            Endpoint::Callback => self.limits.callback.retry_after_seconds(),
            Endpoint::Consent => self.limits.consent.retry_after_seconds(),
            Endpoint::Credential => self.limits.credential.retry_after_seconds(),
        };
        Some(
            Answer {
                status: 429,
                location: None,
                retry_after: Some(seconds),
                no_store: false,
                body: Body::Fault {
                    code: "temporarily_unavailable".to_owned(),
                    description: Some("too many requests from this address".to_owned()),
                },
            },
        )
    }

    /// The metadata of the resource, for a client that starts from the origin.
    pub fn protected_resource(&self, categories: &Vec<ToolCategory>) -> (r: Answer)
        ensures
            describes_resource(r, self.resource_id(), self.config.public_url@, categories@),
    {
        Answer {
            status: 200,
            location: None,
            retry_after: None,
            no_store: false,
            body: Body::Resource(
                protected_resource(&self.resource(), &self.config.public_url, &scopes(categories)),
            ),
        }
    }

    /// Whether a client that holds the suffix started from the identifier: it
    /// is the same to the letter.
    pub fn identifier(&self, suffix: &str, expected: &str) -> (r: bool)
        ensures
            r == (origin_of(self.config.public_url@) + "/"@ + suffix@ == expected@),
    {
        same(&origin(&self.config.public_url).concat("/").concat(suffix), expected)
    }

    /// The metadata of the resource, for a client that inserts the well-known
    /// segment before the path. A suffix that names another resource is not
    /// found.
    pub fn protected_resource_at(&self, suffix: &str, categories: &Vec<ToolCategory>) -> (r: Answer)
        ensures
            if origin_of(self.config.public_url@) + "/"@ + suffix@ == self.resource_id() {
                describes_resource(r, self.resource_id(), self.config.public_url@, categories@)
            } else {
                r.stays(404, false) && r.body is Empty
            },
    {
        if self.identifier(suffix, &self.resource()) {
            self.protected_resource(categories)
        } else {
            not_found()
        }
    }

    /// The metadata of this server, for a client that starts from the origin.
    pub fn authorization_server(&self, categories: &Vec<ToolCategory>) -> (r: Answer)
        ensures
            describes_server(r, self.config.public_url@, categories@),
    {
        Answer {
            status: 200,
            location: None,
            retry_after: None,
            no_store: false,
            body: Body::Server(authorization_server(&self.config.public_url, &scopes(categories))),
        }
    }

    /// The metadata of this server, for a client that inserts the well-known
    /// segment before the path.
    pub fn authorization_server_at(&self, suffix: &str, categories: &Vec<ToolCategory>) -> (r: Answer)
        ensures
            if origin_of(self.config.public_url@) + "/"@ + suffix@ == self.config.public_url@ {
                describes_server(r, self.config.public_url@, categories@)
            } else {
                r.stays(404, false) && r.body is Empty
            },
    {
        if self.identifier(suffix, &self.config.public_url) {
            self.authorization_server(categories)
        } else {
            not_found()
        }
    }
}

// ---------------------------------------------------------------------------
// Registration
// ---------------------------------------------------------------------------

/// The answer to a registration.
pub open spec fn is_registration_answer(
    a: Answer,
    r: std::result::Result<Registered, RegistrationError>,
) -> bool {
    match r {
        Ok(c) => a.stays(201, false) && a.body == Body::Client(c),
        Err(e) => is_registration_refused(a, e),
    }
}

impl OauthState {
    /// Registers a client. `request` is what the body holds, if it is client
    /// metadata. The caller was counted before the body was read.
    pub fn register(&mut self, request: Option<RegistrationRequest>, now_us: i64) -> (r: Answer)
        ensures
            final(self).same_but_store(*old(self)),
            exists|outcome: std::result::Result<Registered, RegistrationError>|
                {
                    &&& #[trigger] registration::registration_made(
                        old(self).store@,
                        final(self).store@,
                        request,
                        now_us,
                        outcome,
                    )
                    &&& is_registration_answer(r, outcome)
                },
    {
        let outcome: std::result::Result<Registered, RegistrationError> = register(
            &mut self.store,
            request,
            now_us,
        );
        assert(registration::registration_made(
            old(self).store@,
            self.store@,
            request,
            now_us,
            outcome,
        ));
        match outcome {
            Ok(c) => Answer {
                status: 201,
                location: None,
                retry_after: None,
                no_store: false,
                body: Body::Client(c),
            },
            Err(e) => registration_refused(&e),
        }
    }
}

// ---------------------------------------------------------------------------
// Starting a login
// ---------------------------------------------------------------------------

/// What a client may send to start a login.
pub struct AuthorizeParams {
    pub response_type: Option<String>,
    pub client_id: Option<String>,
    pub redirect_uri: Option<String>,
    pub state: Option<String>,
    pub code_challenge: Option<String>,
    pub code_challenge_method: Option<String>,
    pub scope: Option<String>,
    pub resource: Option<String>,
}

/// A request to start a login that is well formed.
pub struct LoginRequest {
    pub client_id: String,
    pub redirect_uri: String,
    pub client_state: Option<String>,
    pub code_challenge: String,
    pub scopes: Vec<String>,
}

/// The scopes that a request names.
pub open spec fn scopes_of(q: AuthorizeParams) -> Seq<Seq<char>> {
    match q.scope {
        Some(s) => text::words(s@),
        None => Seq::empty(),
    }
}

/// What is wrong with a request, first things first.
pub open spec fn authorize_fault(q: AuthorizeParams, resource: Seq<char>) -> Option<Seq<char>> {
    if q.client_id is None || q.redirect_uri is None || q.code_challenge is None {
        Some("client_id, redirect_uri and code_challenge are all required"@)
    } else if text::opt_text(q.response_type) != Some("code"@) {
        Some("response_type must be code"@)
    } else if text::opt_text(q.code_challenge_method) != Some("S256"@) {
        Some("code_challenge_method must be S256"@)
    } else if q.code_challenge->0@.len() == 0 {
        Some("code_challenge must not be empty"@)
    } else if scopes_of(q).len() == 0 {
        Some("scope must name at least one scope"@)
    } else if scopes_of(q).len() > MAX_REQUESTED_SCOPES {
        Some("too many scopes"@)
    } else if q.resource is Some && q.resource->0@ != resource {
        Some("resource does not name this server"@)
    } else {
        None
    }
}

fn is_text(value: &Option<String>, expected: &str) -> (r: bool)
    ensures
        r == (text::opt_text(*value) == Some(expected@)),
{
    match value {
        Some(v) => same(v, expected),
        None => false,
    }
}

/// Why the client of a request cannot be named.
#[derive(Debug)]
pub enum ClientRefusal {
    /// The request names no client that there is.
    Request(&'static str),
    /// The store failed.
    Store,
}

impl ClientRefusal {
    /// The answer to the refusal.
    pub fn response(self) -> (r: Answer)
        ensures
            match self {
                ClientRefusal::Request(reason) => is_refused(r, reason@),
                ClientRefusal::Store => is_server_error(r),
            },
    {
        match self {
            ClientRefusal::Request(reason) => refused(reason),
            ClientRefusal::Store => server_error(),
        }
    }
}

/// What is known of the client of a request.
pub enum ClientLookup {
    Known(ClientRecord),
    /// The identifier is the URL of a metadata document that has to be read.
    Document,
    Refused(ClientRefusal),
}

/// The login that a request starts, with the values that were drawn for it.
pub open spec fn login_started(
    q: LoginRequest,
    resource: Seq<char>,
    state: Seq<char>,
    verifier: Seq<char>,
    nonce: Seq<char>,
    csrf: Seq<char>,
    now: int,
) -> store::LoginData {
    store::LoginData {
        state,
        client_id: q.client_id@,
        redirect_uri: q.redirect_uri@,
        client_state: text::opt_text(q.client_state),
        code_challenge: q.code_challenge@,
        resource,
        scopes: text::texts(q.scopes@),
        upstream_verifier: verifier,
        nonce,
        csrf,
        principal: None,
        created_us: now,
        expires_us: now + LOGIN_TTL_US,
    }
}

/// The store once the use of a client was noted.
pub open spec fn touched(m: StoreModel, client_id: Seq<char>, now: i64) -> StoreModel {
    StoreModel {
        clients: if m.clients.contains_key(client_id) {
            m.clients.insert(
                client_id,
                store::ClientRow { last_used_us: now, ..m.clients[client_id] },
            )
        } else {
            m.clients
        },
        ..m
    }
}

/// Where the human is sent to sign in.
pub open spec fn sign_in_url(
    provider: Provider,
    config: OAuthConfig,
    state: Seq<char>,
    nonce: Seq<char>,
    verifier: Seq<char>,
) -> Option<Seq<char>> {
    upstream::url_with_query(
        provider.authorization_endpoint@,
        upstream::authorize_pairs(
            config.oidc_client_id@,
            config.public_url@ + "/oauth/callback"@,
            state,
            nonce,
            crate::crypto::challenge_of(verifier),
        ),
    )
}

/// The store once a client was kept: its row says what the record says, under the
/// time at which it was first kept, and no other row is touched.
pub open spec fn adopted(m: StoreModel, after: StoreModel, c: ClientRecord) -> bool {
    &&& after == (StoreModel { clients: after.clients, ..m })
    &&& after.clients.dom() == m.clients.dom().insert(c.client_id@)
    &&& forall|k: Seq<char>|
        k != c.client_id@ && #[trigger] m.clients.contains_key(k) ==> after.clients[k] == m.clients[k]
    &&& store::client_row(
        after.clients[c.client_id@],
        c,
        if m.clients.contains_key(c.client_id@) {
            m.clients[c.client_id@].created_us
        } else {
            c.created_us
        },
    )
}

/// What recording a login under the given values gives: the human is sent to the
/// provider, and the client's use and the login are stored. It fails where the
/// provider's address takes no query, or where the state is taken.
pub open spec fn login_recorded(
    before: StoreModel,
    after: StoreModel,
    config: OAuthConfig,
    resource: Seq<char>,
    q: LoginRequest,
    provider: Provider,
    state: Seq<char>,
    verifier: Seq<char>,
    nonce: Seq<char>,
    csrf: Seq<char>,
    now: i64,
    r: Answer,
) -> bool {
    match sign_in_url(provider, config, state, nonce, verifier) {
        None => is_server_error(r) && after == before,
        Some(url) => {
            let m = touched(before, q.client_id@, now);
            if m.logins.contains_key(state) {
                is_server_error(r) && after == m
            } else {
                &&& r.leads(url)
                &&& after == (StoreModel { logins: m.logins.insert(state, after.logins[state]), ..m })
                &&& after.logins[state].login(state) == Some(
                    login_started(q, resource, state, verifier, nonce, csrf, now as int),
                )
            }
        },
    }
}

impl OauthState {
    /// Checks a request to start a login. Every refusal is a plain answer, and
    /// sends nobody to a place that was not validated.
    pub fn check_request(&self, q: AuthorizeParams) -> (r: std::result::Result<
        LoginRequest,
        &'static str,
    >)
        ensures
            match authorize_fault(q, self.resource_id()) {
                Some(why) => r matches Err(reason) && reason@ == why,
                None => {
                    &&& r matches Ok(l)
                    &&& Some(l.client_id) == q.client_id
                    &&& Some(l.redirect_uri) == q.redirect_uri
                    &&& Some(l.code_challenge) == q.code_challenge
                    &&& l.client_state == q.state
                    &&& text::texts(l.scopes@) == scopes_of(q)
                },
            },
    {
        let (client_id, redirect_uri, code_challenge): (String, String, String) = match (
            q.client_id,
            q.redirect_uri,
            q.code_challenge,
        ) {
            (Some(a), Some(b), Some(c)) => (a, b, c),
            _ => {
                return Err("client_id, redirect_uri and code_challenge are all required");
            },
        };
        if !is_text(&q.response_type, "code") {
            return Err("response_type must be code");
        }
        if !is_text(&q.code_challenge_method, "S256") {
            return Err("code_challenge_method must be S256");
        }
        if code_challenge.as_str().is_empty() {
            return Err("code_challenge must not be empty");
        }
        let requested: Vec<String> = requested_scopes(&q.scope);
        assert(text::texts(requested@).len() == requested@.len());
        if requested.len() == 0 {
            return Err("scope must name at least one scope");
        }
        if requested.len() > MAX_REQUESTED_SCOPES {
            return Err("too many scopes");
        }
        if let Some(asked) = &q.resource {
            if !same(asked, &self.resource()) {
                return Err("resource does not name this server");
            }
        }
        Ok(
            LoginRequest {
                client_id,
                redirect_uri,
                client_state: q.state,
                code_challenge,
                scopes: requested,
            },
        )
    }

    /// What the store knows of the client that a request names. Only an
    /// identifier that is an https URL can be a document.
    pub fn lookup_client(&self, client_id: &str) -> (r: ClientLookup)
        ensures
            match r {
                ClientLookup::Known(c) => self.store@.clients.contains_key(client_id@)
                    && store::client_record(c, client_id@, self.store@.clients[client_id@]),
                ClientLookup::Document => !self.store@.clients.contains_key(client_id@)
                    && "https://"@.is_prefix_of(client_id@),
                ClientLookup::Refused(ClientRefusal::Request(reason)) => reason@ == "unknown client_id"@
                    && !self.store@.clients.contains_key(client_id@) && !"https://"@.is_prefix_of(
                    client_id@,
                ),
                ClientLookup::Refused(ClientRefusal::Store) => self.store@.clients.contains_key(client_id@)
                    && crate::json::json_texts(self.store@.clients[client_id@].redirect_uris@) is None,
            },
    {
        match self.store.get_client(client_id) {
            Ok(Some(c)) => ClientLookup::Known(c),
            Ok(None) => if starts_with(client_id, "https://") {
                ClientLookup::Document
            } else {
                ClientLookup::Refused(ClientRefusal::Request("unknown client_id"))
            },
            Err(_) => ClientLookup::Refused(ClientRefusal::Store),
        }
    }

    /// Takes the client that a metadata document describes, and keeps it, so
    /// that a document is read once for each client.
    pub fn adopt_client(
        &mut self,
        resolved: std::result::Result<ClientRecord, RegistrationError>,
    ) -> (r: std::result::Result<ClientRecord, ClientRefusal>)
        ensures
            final(self).same_but_store(*old(self)),
            match resolved {
                Err(_) => final(self).store@ == old(self).store@ && (r matches Err(
                    ClientRefusal::Request(reason),
                ) && reason@ == "this client identifier metadata document could not be used"@),
                Ok(c) => {
                    &&& r == Ok::<ClientRecord, ClientRefusal>(c)
                    &&& adopted(old(self).store@, final(self).store@, c)
                },
            },
    {
        match resolved {
            Ok(c) => {
                self.store.put_client(&c);
                Ok(c)
            },
            Err(_) => Err(
                ClientRefusal::Request("this client identifier metadata document could not be used"),
            ),
        }
    }

    /// Refuses a request whose redirect URI the client did not register. The
    /// comparison is to the letter.
    pub fn check_redirect(&self, client: &ClientRecord, q: &LoginRequest) -> (r: Option<Answer>)
        ensures
            r is None <==> text::texts(client.redirect_uris@).contains(q.redirect_uri@),
            r matches Some(a) ==> is_refused(a, "redirect_uri is not registered for this client"@),
    {
        if holds_text(&client.redirect_uris, &q.redirect_uri) {
            None
        } else {
            Some(refused("redirect_uri is not registered for this client"))
        }
    }

    /// Records a login under the given values and sends the human to the
    /// provider.
    pub fn record_login_as(
        &mut self,
        q: LoginRequest,
        provider: &Provider,
        state: String,
        verifier: String,
        nonce: String,
        csrf: String,
        now_us: i64,
    ) -> (r: Answer)
        requires
            now_us <= i64::MAX - LOGIN_TTL_US,
        ensures
            final(self).same_but_store(*old(self)),
            login_recorded(
                old(self).store@,
                final(self).store@,
                old(self).config,
                old(self).resource_id(),
                q,
                *provider,
                state@,
                verifier@,
                nonce@,
                csrf@,
                now_us,
                r,
            ),
    {
        let url: String = match provider.authorize_url(
            &self.config.oidc_client_id,
            &self.callback_uri(),
            &state,
            &nonce,
            &s256_challenge(&verifier),
        ) {
            Some(u) => u,
            None => {
                return server_error();
            },
        };
        let ghost ls = login_started(
            q,
            self.resource_id(),
            state@,
            verifier@,
            nonce@,
            csrf@,
            now_us as int,
        );
        let login: LoginRecord = LoginRecord {
            state,
            client_id: q.client_id,
            redirect_uri: q.redirect_uri,
            client_state: q.client_state,
            code_challenge: q.code_challenge,
            resource: self.resource(),
            scopes: q.scopes,
            upstream_verifier: verifier,
            nonce,
            csrf,
            principal: None,
            created_us: now_us,
            expires_us: now_us + LOGIN_TTL_US,
        };
        assert(login@ =~= ls);
        self.store.touch_client(&login.client_id, now_us);
        match self.store.put_login(&login) {
            Ok(_) => found(url),
            Err(_) => server_error(),
        }
    }

    /// Records a login under values that nobody can guess, and sends the human
    /// to the provider.
    pub fn record_login(&mut self, q: LoginRequest, provider: &Provider, now_us: i64) -> (r: Answer)
        requires
            now_us <= i64::MAX - LOGIN_TTL_US,
        ensures
            final(self).same_but_store(*old(self)),
            ({
                ||| is_server_error(r) && final(self).store@ == old(self).store@
                ||| exists|state: Seq<char>, verifier: Seq<char>, nonce: Seq<char>, csrf: Seq<char>|
                    {
                        &&& is_token(state) && is_token(verifier) && is_token(nonce) && is_token(csrf)
                        &&& #[trigger] login_recorded(
                            old(self).store@,
                            final(self).store@,
                            old(self).config,
                            old(self).resource_id(),
                            q,
                            *provider,
                            state,
                            verifier,
                            nonce,
                            csrf,
                            now_us,
                            r,
                        )
                    }
            }),
    {
        match (new_token(), new_token(), new_token(), new_token()) {
            (Some(state), Some(verifier), Some(nonce), Some(csrf)) => {
                let ghost (s, v, n, c) = (state@, verifier@, nonce@, csrf@);
                let r: Answer = self.record_login_as(q, provider, state, verifier, nonce, csrf, now_us);
                assert(login_recorded(
                    old(self).store@,
                    self.store@,
                    old(self).config,
                    old(self).resource_id(),
                    q,
                    *provider,
                    s,
                    v,
                    n,
                    c,
                    now_us,
                    r,
                ));
                r
            },
            _ => server_error(),
        }
    }
}

// ---------------------------------------------------------------------------
// Finishing a login
// ---------------------------------------------------------------------------

/// The login as it is stored once the human is known.
pub open spec fn named_login(
    l: store::LoginData,
    principal: Seq<char>,
    scopes: Seq<Seq<char>>,
) -> store::LoginData {
    store::LoginData { principal: Some(principal), scopes, ..l }
}

/// The principal at `i` is the first with the identity.
pub open spec fn admits(list: Seq<principals::EntryData>, iss: Seq<char>, sub: Seq<char>, i: int) -> bool {
    &&& 0 <= i < list.len()
    &&& list[i].iss == iss && list[i].sub == sub
    &&& forall|j: int| 0 <= j < i ==> !((#[trigger] list[j]).iss == iss && list[j].sub == sub)
}

/// The consent page of a login.
pub open spec fn is_consent_page(
    a: Answer,
    l: store::LoginData,
    client_name: Seq<char>,
    client_id: Seq<char>,
    p: principals::EntryData,
    offer: Seq<Seq<char>>,
) -> bool {
    a.stays(200, true) && (a.body matches Body::Html(t) && t@ == consent::page_text(
        if exists|i: int| 0 <= i < client_name.len() && consent::visible(#[trigger] client_name[i]) {
            client_name
        } else {
            client_id
        },
        match p.label {
            Some(label) => label,
            None => p.name,
        },
        l.redirect_uri,
        offer,
        l.csrf,
        l.state,
    ))
}

/// What the store says of a login whose state is taken.
pub open spec fn login_taken() -> Seq<char> {
    "database: "@ + "UNIQUE constraint failed: oauth_login.state"@
}

/// Why no login could be taken for a callback, in words for the log. What a
/// stored list does not say for itself follows the words.
pub open spec fn not_taken(m: StoreModel, state: Seq<char>, now: int, reason: Seq<char>) -> bool {
    if !store::login_live(m.logins, state, now) {
        reason == "no login in flight carries this state"@
    } else if m.logins[state].login(state) is None {
        ("the store refused to read the login: "@ + "stored json: "@).is_prefix_of(reason)
    } else {
        reason == "this login was already completed"@
    }
}

/// Why a login could not be completed, in words for the log.
pub open spec fn not_completed(
    m: StoreModel,
    list: Seq<principals::EntryData>,
    l: store::LoginData,
    iss: Seq<char>,
    sub: Seq<char>,
    reason: Seq<char>,
) -> bool {
    ||| (forall|i: int| !#[trigger] admits(list, iss, sub, i)) && reason == "no principal is registered for "@
        + iss + " "@ + sub
    ||| exists|i: int| #[trigger]
        admits(list, iss, sub, i) && if consent::offer(
            l.scopes,
            principals::canonical_set(list[i].scopes),
        ).len() == 0 {
            reason == list[i].name + " holds none of the requested scopes"@
        } else if !m.clients.contains_key(l.client_id) {
            reason == "the client of this login is no longer registered"@
        } else if crate::json::json_texts(m.clients[l.client_id].redirect_uris@) is None {
            ("the store refused to read the client: "@ + "stored json: "@).is_prefix_of(reason)
        } else {
            m.logins.contains_key(l.state) && reason == "the store refused to record the human: "@
                + login_taken()
        }
}

impl OauthState {
    /// Puts a login back, for a callback that failed before it learned
    /// anything of the human. The reason is for the log.
    pub fn restored(&mut self, login: &LoginRecord, reason: String) -> (r: String)
        ensures
            final(self).same_but_store(*old(self)),
            if old(self).store@.logins.contains_key(login.state@) {
                &&& final(self).store@ == old(self).store@
                &&& r@ == reason@ + "; and the store refused to restore the login: "@ + login_taken()
            } else {
                &&& r == reason
                &&& final(self).store@ == (StoreModel {
                    logins: old(self).store@.logins.insert(
                        login.state@,
                        final(self).store@.logins[login.state@],
                    ),
                    ..old(self).store@
                })
                &&& final(self).store@.logins[login.state@].login(login.state@) == Some(login@)
            },
    {
        match self.store.put_login(login) {
            Ok(_) => reason,
            Err(e) => reason.concat("; and the store refused to restore the login: ").concat(
                &e.message(),
            ),
        }
    }

    /// Takes the login that a callback names, so that it drives at most one
    /// exchange. A login that already names its human is waiting for consent,
    /// and is put back.
    pub fn take_login(&mut self, state: &str, now_us: i64) -> (r: std::result::Result<LoginRecord, String>)
        ensures
            final(self).same_but_store(*old(self)),
            match r {
                Ok(l) => {
                    &&& store::login_live(old(self).store@.logins, state@, now_us as int)
                    &&& old(self).store@.logins[state@].login(state@) == Some(l@)
                    &&& l@.principal is None
                    &&& final(self).store@ == (StoreModel {
                        logins: old(self).store@.logins.remove(state@),
                        ..old(self).store@
                    })
                },
                Err(reason) => {
                    &&& not_taken(old(self).store@, state@, now_us as int, reason@)
                    &&& {
                        ||| !store::login_live(old(self).store@.logins, state@, now_us as int)
                            && final(self).store@ == old(self).store@
                        ||| store::login_live(old(self).store@.logins, state@, now_us as int)
                            && old(self).store@.logins[state@].login(state@) is None
                            && final(self).store@ == (StoreModel {
                            logins: old(self).store@.logins.remove(state@),
                            ..old(self).store@
                        })
                        ||| store::login_live(old(self).store@.logins, state@, now_us as int) && (
                        old(self).store@.logins[state@].login(state@) matches Some(l) && l.principal is Some)
                            && consent::restored(old(self).store@, final(self).store@, state@)
                    }
                },
            },
    {
        let login: LoginRecord = match self.store.take_login(state, now_us) {
            Ok(Some(l)) => l,
            Ok(None) => {
                return Err("no login in flight carries this state".to_owned());
            },
            Err(e) => {
                return Err("the store refused to read the login: ".to_owned().concat(&e.message()));
            },
        };
        if login.principal.is_some() {
            let reason: String = self.restored(&login, "this login was already completed".to_owned());
            assert(self.store@.logins =~= old(self).store@.logins.insert(
                state@,
                self.store@.logins[state@],
            ));
            return Err(reason);
        }
        Ok(login)
    }

    fn principal_of(&self, claims: &IdentityClaims) -> (r: Option<usize>)
        ensures
            match r {
                Some(i) => admits(
                    principals::entries_data(self.config.principals@),
                    claims.iss@,
                    claims.sub@,
                    i as int,
                ),
                None => forall|i: int|
                    !admits(
                        principals::entries_data(self.config.principals@),
                        claims.iss@,
                        claims.sub@,
                        i,
                    ),
            },
    {
        let ghost list = principals::entries_data(self.config.principals@);
        let mut i: usize = 0;
        while i < self.config.principals.len()
            invariant
                i <= self.config.principals@.len(),
                list == principals::entries_data(self.config.principals@),
                forall|j: int|
                    0 <= j < i ==> !((#[trigger] list[j]).iss == claims.iss@ && list[j].sub == claims.sub@),
            decreases self.config.principals@.len() - i,
        {
            assert(list[i as int] == self.config.principals@[i as int]@);
            let (iss, sub) = self.config.principals[i].key();
            if same(iss, &claims.iss) && same(sub, &claims.sub) {
                return Some(i);
            }
            i += 1;
        }
        None
    }

    /// Names the human of a login once the provider has vouched for them, and
    /// shows the consent page. What is offered is decided here, once, and kept
    /// with the login. The error is for the log alone.
    pub fn complete_login(&mut self, login: LoginRecord, claims: &IdentityClaims) -> (r: std::result::Result<
        Answer,
        String,
    >)
        ensures
            final(self).same_but_store(*old(self)),
            match r {
                Ok(a) => !old(self).store@.logins.contains_key(login.state@) && exists|i: int|
                    {
                        let list = principals::entries_data(old(self).config.principals@);
                        let offer = consent::offer(
                            login@.scopes,
                            principals::canonical_set(list[i].scopes),
                        );
                        &&& #[trigger] admits(
                            principals::entries_data(old(self).config.principals@),
                            claims.iss@,
                            claims.sub@,
                            i,
                        )
                        &&& offer.len() > 0
                        &&& old(self).store@.clients.contains_key(login.client_id@)
                        &&& is_consent_page(
                            a,
                            login@,
                            old(self).store@.clients[login.client_id@].client_name@,
                            login.client_id@,
                            list[i],
                            offer,
                        )
                        &&& final(self).store@ == (StoreModel {
                            logins: old(self).store@.logins.insert(
                                login.state@,
                                final(self).store@.logins[login.state@],
                            ),
                            ..old(self).store@
                        })
                        &&& final(self).store@.logins[login.state@].login(login.state@) == Some(
                            named_login(login@, list[i].name, offer),
                        )
                    },
                Err(reason) => final(self).store@ == old(self).store@ && not_completed(
                    old(self).store@,
                    principals::entries_data(old(self).config.principals@),
                    login@,
                    claims.iss@,
                    claims.sub@,
                    reason@,
                ),
            },
    {
        let ghost list = principals::entries_data(self.config.principals@);
        let i: usize = match self.principal_of(claims) {
            Some(i) => i,
            None => {
                return Err(
                    "no principal is registered for ".to_owned().concat(&claims.iss).concat(
                        " ",
                    ).concat(&claims.sub),
                );
            },
        };
        proof {
            assert forall|j: int| admits(list, claims.iss@, claims.sub@, j) implies j == i by {
                if j < i {
                    assert(list[j].iss == claims.iss@);
                }
                if i < j {
                    assert(list[i as int].iss == claims.iss@);
                }
            }
        }
        assert(list[i as int] == self.config.principals@[i as int]@);
        let offer: Vec<String> = offered(&login.scopes, &self.config.principals[i].scope_set());
        assert(text::texts(offer@).len() == offer@.len());
        if offer.len() == 0 {
            return Err(
                self.config.principals[i].name.clone().concat(" holds none of the requested scopes"),
            );
        }
        let client: ClientRecord = match self.store.get_client(&login.client_id) {
            Ok(Some(c)) => c,
            Ok(None) => {
                return Err("the client of this login is no longer registered".to_owned());
            },
            Err(e) => {
                return Err("the store refused to read the client: ".to_owned().concat(&e.message()));
            },
        };
        let label: &String = match &self.config.principals[i].label {
            Some(l) => l,
            None => &self.config.principals[i].name,
        };
        let html: String = page(
            client_label(&client.client_name, &client.client_id),
            label,
            &login.redirect_uri,
            &offer,
            &login.csrf,
            &login.state,
        );
        let answer: Answer = Answer {
            status: 200,
            location: None,
            retry_after: None,
            no_store: true,
            body: Body::Html(html),
        };
        let ghost before = login@;
        let ghost offer_texts = text::texts(offer@);
        let named: LoginRecord = LoginRecord {
            state: login.state,
            client_id: login.client_id,
            redirect_uri: login.redirect_uri,
            client_state: login.client_state,
            code_challenge: login.code_challenge,
            resource: login.resource,
            scopes: offer,
            upstream_verifier: login.upstream_verifier,
            nonce: login.nonce,
            csrf: login.csrf,
            principal: Some(self.config.principals[i].name.clone()),
            created_us: login.created_us,
            expires_us: login.expires_us,
        };
        assert(named@ =~= named_login(before, list[i as int].name, offer_texts));
        match self.store.put_login(&named) {
            Ok(_) => {
                assert(admits(list, claims.iss@, claims.sub@, i as int));
                Ok(answer)
            },
            Err(e) => Err("the store refused to record the human: ".to_owned().concat(&e.message())),
        }
    }

    /// The answer to a callback. Whatever went wrong, the caller sees one and
    /// the same page.
    pub fn callback_answer(&self, outcome: std::result::Result<Answer, String>) -> (r: Answer)
        ensures
            match outcome {
                Ok(a) => r == a,
                Err(_) => is_login_refused(r),
            },
    {
        match outcome {
            Ok(a) => a,
            Err(_) => login_refused(),
        }
    }
}

/// A human is offered only scopes that the client asked for and that they
/// hold.
pub proof fn law_a_login_offers_what_was_asked_and_is_held(
    requested: Seq<Seq<char>>,
    held: Seq<Seq<char>>,
    s: Seq<char>,
)
    requires
        consent::offer(requested, principals::canonical_set(held)).contains(s),
    ensures
        requested.contains(s),
        principals::canonical_set(held).contains(s),
{
    consent::law_offer_is_the_intersection(requested, principals::canonical_set(held));
}

/// Every configured human can sign in: whoever the provider vouches for is taken
/// for an entry with that identity, wherever it stands in the list, and where no
/// two entries share an identity it is their own.
pub proof fn law_every_configured_human_is_admitted(list: Seq<principals::EntryData>, k: int)
    requires
        0 <= k < list.len(),
    ensures
        exists|i: int|
            0 <= i <= k && #[trigger] admits(list, list[k].iss, list[k].sub, i) && list[i].iss == list[k].iss
                && list[i].sub == list[k].sub,
        (forall|i: int, j: int|
            0 <= i < j < list.len() ==> !((#[trigger] list[i]).iss == (#[trigger] list[j]).iss && list[i].sub
                == list[j].sub)) ==> admits(list, list[k].iss, list[k].sub, k),
    decreases k,
{
    let (iss, sub) = (list[k].iss, list[k].sub);
    if exists|j: int| 0 <= j < k && (#[trigger] list[j]).iss == iss && list[j].sub == sub {
        let j = choose|j: int| 0 <= j < k && (#[trigger] list[j]).iss == iss && list[j].sub == sub;
        law_every_configured_human_is_admitted(list, j);
        let i = choose|i: int|
            0 <= i <= j && #[trigger] admits(list, list[j].iss, list[j].sub, i) && list[i].iss == list[j].iss
                && list[i].sub == list[j].sub;
        assert(admits(list, iss, sub, i));
    } else {
        assert(admits(list, iss, sub, k));
    }
}

/// Whoever is not configured cannot sign in, and nobody is taken for another.
pub proof fn law_nobody_is_taken_for_another(
    list: Seq<principals::EntryData>,
    iss: Seq<char>,
    sub: Seq<char>,
    i: int,
    j: int,
)
    requires
        admits(list, iss, sub, i),
    ensures
        0 <= i < list.len(),
        list[i].iss == iss && list[i].sub == sub,
        admits(list, iss, sub, j) ==> i == j,
{
    if admits(list, iss, sub, j) {
        if i < j {
            assert(list[i].iss == iss);
        }
        if j < i {
            assert(list[j].iss == iss);
        }
    }
}

/// A login of a configured human is completed: where they hold a scope that was
/// asked for and the client is still registered, nothing stands in the way.
pub proof fn law_a_configured_human_signs_in(
    m: StoreModel,
    list: Seq<principals::EntryData>,
    l: store::LoginData,
    k: int,
    scope: Seq<char>,
    reason: Seq<char>,
)
    requires
        0 <= k < list.len(),
        forall|i: int, j: int|
            0 <= i < j < list.len() ==> !((#[trigger] list[i]).iss == (#[trigger] list[j]).iss && list[i].sub
                == list[j].sub),
        l.scopes.contains(scope),
        principals::canonical_set(list[k].scopes).contains(scope),
        m.clients.contains_key(l.client_id),
        crate::json::json_texts(m.clients[l.client_id].redirect_uris@) is Some,
        !m.logins.contains_key(l.state),
    ensures
        !not_completed(m, list, l, list[k].iss, list[k].sub, reason),
{
    law_every_configured_human_is_admitted(list, k);
    let held = principals::canonical_set(list[k].scopes);
    consent::law_offer_is_the_intersection(l.scopes, held);
    let o = consent::offer(l.scopes, held);
    assert(o.contains(scope));
    assert(o.len() > 0);
    assert forall|i: int| #[trigger] admits(list, list[k].iss, list[k].sub, i) implies i == k by {
        law_nobody_is_taken_for_another(list, list[k].iss, list[k].sub, i, k);
    }
}

/// Whatever ends a login, the caller sees one and the same page.
pub proof fn law_refused_logins_look_alike(a: Answer, b: Answer)
    requires
        is_login_refused(a),
        is_login_refused(b),
    ensures
        a.status == b.status && a.location == b.location && a.retry_after == b.retry_after && a.no_store
            == b.no_store,
        a.body->Html_0@ == b.body->Html_0@,
{
}

// ---------------------------------------------------------------------------
// A login, step by step
// ---------------------------------------------------------------------------

/// What a login that is starting waits for.
pub enum LoginStep {
    /// Nothing: this is the answer.
    Done(Answer),
    /// The metadata document that the client's identifier names.
    ReadDocument(LoginRequest),
    /// The upstream provider.
    Discover(LoginRequest),
}

/// The well-formed request asks for what the parameters say.
pub open spec fn asks(l: LoginRequest, q: AuthorizeParams) -> bool {
    &&& Some(l.client_id) == q.client_id
    &&& Some(l.redirect_uri) == q.redirect_uri
    &&& Some(l.code_challenge) == q.code_challenge
    &&& l.client_state == q.state
    &&& text::texts(l.scopes@) == scopes_of(q)
}

/// The first step of a login: the request is judged first, its client next,
/// and the place it wants to be sent to last.
pub open spec fn login_begun(
    m: StoreModel,
    q: AuthorizeParams,
    resource: Seq<char>,
    r: LoginStep,
) -> bool {
    match authorize_fault(q, resource) {
        Some(why) => r matches LoginStep::Done(a) && is_refused(a, why),
        None => {
            let id = q.client_id->0@;
            if !m.clients.contains_key(id) {
                if "https://"@.is_prefix_of(id) {
                    r matches LoginStep::ReadDocument(l) && asks(l, q)
                } else {
                    r matches LoginStep::Done(a) && is_refused(a, "unknown client_id"@)
                }
            } else {
                match crate::json::json_texts(m.clients[id].redirect_uris@) {
                    None => r matches LoginStep::Done(a) && is_server_error(a),
                    Some(uris) => if uris.contains(q.redirect_uri->0@) {
                        r matches LoginStep::Discover(l) && asks(l, q)
                    } else {
                        r matches LoginStep::Done(a) && is_refused(
                            a,
                            "redirect_uri is not registered for this client"@,
                        )
                    },
                }
            }
        },
    }
}

/// What the provider sends a human back with.
pub struct CallbackParams {
    pub code: Option<String>,
    pub state: Option<String>,
}

/// What a callback waits for.
pub enum CallbackStep {
    /// Nothing: this is the answer.
    Done(Answer),
    /// The provider's word on who signed in for this login.
    Exchange { code: String, login: LoginRecord },
}

impl OauthState {
    /// Starts a login.
    pub fn start_login(&self, q: AuthorizeParams) -> (r: LoginStep)
        ensures
            login_begun(self.store@, q, self.resource_id(), r),
    {
        let ghost params = q;
        let request: LoginRequest = match self.check_request(q) {
            Ok(l) => l,
            Err(reason) => {
                return LoginStep::Done(refused(reason));
            },
        };
        match self.lookup_client(&request.client_id) {
            ClientLookup::Known(client) => match self.check_redirect(&client, &request) {
                Some(a) => LoginStep::Done(a),
                None => LoginStep::Discover(request),
            },
            ClientLookup::Document => LoginStep::ReadDocument(request),
            ClientLookup::Refused(refusal) => LoginStep::Done(refusal.response()),
        }
    }

    /// Answers a request to sign in, for a caller within its limit.
    pub fn authorize(&mut self, peer: &str, q: AuthorizeParams, now_us: i64) -> (r: LoginStep)
        ensures
            final(self).config == old(self).config,
            final(self).store == old(self).store,
            final(self).counted(*old(self), Endpoint::Authorize, peer@, now_us as int),
            if old(self).window(Endpoint::Authorize).admits(peer@, now_us as int) {
                login_begun(old(self).store@, q, old(self).resource_id(), r)
            } else {
                r matches LoginStep::Done(a) && is_too_many(a, old(self).window(Endpoint::Authorize).window)
            },
    {
        match self.limit(Endpoint::Authorize, peer, now_us) {
            Some(a) => LoginStep::Done(a),
            None => self.start_login(q),
        }
    }

    /// Goes on with a login once the document of its client was read.
    pub fn document_read(
        &mut self,
        request: LoginRequest,
        resolved: std::result::Result<ClientRecord, RegistrationError>,
    ) -> (r: LoginStep)
        ensures
            final(self).same_but_store(*old(self)),
            match resolved {
                Err(_) => final(self).store@ == old(self).store@ && (r matches LoginStep::Done(a)
                    && is_refused(a, "this client identifier metadata document could not be used"@)),
                Ok(c) => {
                    &&& adopted(old(self).store@, final(self).store@, c)
                    &&& if text::texts(c.redirect_uris@).contains(request.redirect_uri@) {
                        r == LoginStep::Discover(request)
                    } else {
                        r matches LoginStep::Done(a) && is_refused(
                            a,
                            "redirect_uri is not registered for this client"@,
                        )
                    }
                },
            },
    {
        match self.adopt_client(resolved) {
            Ok(client) => match self.check_redirect(&client, &request) {
                Some(a) => LoginStep::Done(a),
                None => LoginStep::Discover(request),
            },
            Err(refusal) => LoginStep::Done(refusal.response()),
        }
    }

    /// Takes the login of a callback, for a caller within its limit.
    pub fn callback(&mut self, peer: &str, q: CallbackParams, now_us: i64) -> (r: CallbackStep)
        ensures
            final(self).config == old(self).config,
            final(self).counted(*old(self), Endpoint::Callback, peer@, now_us as int),
            if !old(self).window(Endpoint::Callback).admits(peer@, now_us as int) {
                final(self).store@ == old(self).store@ && (r matches CallbackStep::Done(a) && is_too_many(
                    a,
                    old(self).window(Endpoint::Callback).window,
                ))
            } else if q.code is None || q.state is None {
                final(self).store@ == old(self).store@ && (r matches CallbackStep::Done(a) && is_refused(
                    a,
                    "the callback needs a code and a state"@,
                ))
            } else {
                let state = q.state->0@;
                let live = store::login_live(old(self).store@.logins, state, now_us as int);
                let held = old(self).store@.logins[state].login(state);
                if live && held is Some && held->0.principal is None {
                    &&& r matches CallbackStep::Exchange { code, login } && Some(code) == q.code && login@
                        == held->0
                    &&& final(self).store@ == (StoreModel {
                        logins: old(self).store@.logins.remove(state),
                        ..old(self).store@
                    })
                } else {
                    &&& r matches CallbackStep::Done(a) && is_login_refused(a)
                    &&& !live ==> final(self).store@ == old(self).store@
                    &&& live && held is None ==> final(self).store@ == (StoreModel {
                        logins: old(self).store@.logins.remove(state),
                        ..old(self).store@
                    })
                    &&& live && held is Some ==> consent::restored(
                        old(self).store@,
                        final(self).store@,
                        state,
                    )
                }
            },
    {
        if let Some(a) = self.limit(Endpoint::Callback, peer, now_us) {
            return CallbackStep::Done(a);
        }
        match (q.code, q.state) {
            (Some(code), Some(state)) => match self.take_login(&state, now_us) {
                Ok(login) => CallbackStep::Exchange { code, login },
                Err(_) => CallbackStep::Done(login_refused()),
            },
            _ => CallbackStep::Done(refused("the callback needs a code and a state")),
        }
    }

    /// Answers a callback whose exchange failed. The login can still be
    /// completed.
    pub fn exchange_failed(&mut self, login: &LoginRecord, reason: String) -> (r: Answer)
        ensures
            final(self).same_but_store(*old(self)),
            is_login_refused(r),
            if old(self).store@.logins.contains_key(login.state@) {
                final(self).store@ == old(self).store@
            } else {
                &&& final(self).store@ == (StoreModel {
                    logins: old(self).store@.logins.insert(
                        login.state@,
                        final(self).store@.logins[login.state@],
                    ),
                    ..old(self).store@
                })
                &&& final(self).store@.logins[login.state@].login(login.state@) == Some(login@)
            },
    {
        let _ = self.restored(login, reason);
        login_refused()
    }
}

// ---------------------------------------------------------------------------
// Consent
// ---------------------------------------------------------------------------

/// The answer to a refused decision.
pub open spec fn is_decision_refused(a: Answer, why: consent::Refusal) -> bool {
    match why {
        consent::Refusal::BadCsrf => a.says(
            403,
            "this consent form does not belong to a login in flight"@,
        ),
        consent::Refusal::Unreadable => is_server_error(a),
        _ => a.says(400, "this consent could not be recorded"@),
    }
}

/// The parameters that tell a client of a refusal.
pub open spec fn denial_pairs() -> Seq<(Seq<char>, Seq<char>)> {
    seq![
        ("error"@, "access_denied"@),
        ("error_description"@, "the human refused this request"@),
    ]
}

/// What comes of a refusal: the login is over, and its client hears of it.
pub open spec fn denied(
    before: StoreModel,
    after: StoreModel,
    state: Seq<char>,
    csrf: Seq<char>,
    iss: Seq<char>,
    now: int,
    a: Answer,
) -> bool {
    match consent::verified(before, state, csrf, now) {
        Ok(l) => after == (StoreModel { logins: before.logins.remove(state), ..before }) && a.leads(
            redirect_to(l.redirect_uri, denial_pairs(), l.client_state, iss),
        ),
        Err(why) => consent::refused(before, after, state, why) && is_decision_refused(a, why),
    }
}

/// What comes of an approval under a code and a family: the code is minted and
/// goes to the client.
pub open spec fn approved(
    before: StoreModel,
    after: StoreModel,
    state: Seq<char>,
    csrf: Seq<char>,
    scopes: Seq<Seq<char>>,
    code: Seq<char>,
    family: Seq<char>,
    iss: Seq<char>,
    now: i64,
    a: Answer,
) -> bool {
    match consent::approvable(before, state, csrf, scopes, now as int) {
        Ok(l) => if before.codes.contains_key(crate::crypto::digest_of(code)) {
            &&& is_server_error(a)
            &&& after == (StoreModel { logins: before.logins.remove(state), ..before })
        } else {
            &&& consent::code_minted(before, after, l, scopes, code, family, now)
            &&& a.leads(redirect_to(l.redirect_uri, seq![("code"@, code)], l.client_state, iss))
        },
        Err(why) => consent::refused(before, after, state, why) && is_decision_refused(a, why),
    }
}

/// What is wrong with a consent form.
pub open spec fn form_fault(form: ConsentForm) -> Option<Seq<char>> {
    if form.too_many_scopes {
        Some("too many scopes"@)
    } else if form.csrf is None || form.state is None {
        Some("the consent form needs a state and a csrf token"@)
    } else {
        None
    }
}

fn pair(key: &str, value: &str) -> (r: (String, String))
    ensures
        r.0@ == key@,
        r.1@ == value@,
{
    (key.to_owned(), value.to_owned())
}

impl OauthState {
    /// Answers the human's decision, under the given code and family.
    pub fn decide_as(&mut self, form: ConsentForm, code: String, family: String, now_us: i64) -> (r: Answer)
        requires
            now_us <= i64::MAX - consent::CODE_TTL_US,
        ensures
            final(self).same_but_store(*old(self)),
            match form_fault(form) {
                Some(why) => final(self).store@ == old(self).store@ && is_refused(r, why),
                None => if form.deny {
                    denied(
                        old(self).store@,
                        final(self).store@,
                        form.state->0@,
                        form.csrf->0@,
                        old(self).config.public_url@,
                        now_us as int,
                        r,
                    )
                } else {
                    approved(
                        old(self).store@,
                        final(self).store@,
                        form.state->0@,
                        form.csrf->0@,
                        text::texts(form.scopes@),
                        code@,
                        family@,
                        old(self).config.public_url@,
                        now_us,
                        r,
                    )
                },
            },
    {
        match self.settle(form, now_us) {
            Err(a) => a,
            Ok((state, csrf, scopes)) => {
                let outcome: std::result::Result<consent::Approval, ConsentError> = consent::approve_as(
                    &mut self.store,
                    &state,
                    &csrf,
                    &scopes,
                    code,
                    family,
                    now_us,
                );
                self.approval_answer(outcome)
            },
        }
    }

    /// Answers a form that is malformed or says no. Of one that says yes, it
    /// gives the state, the token and the scopes.
    fn settle(&mut self, form: ConsentForm, now_us: i64) -> (r: std::result::Result<
        (String, String, Vec<String>),
        Answer,
    >)
        ensures
            final(self).same_but_store(*old(self)),
            match form_fault(form) {
                Some(why) => final(self).store@ == old(self).store@ && (r matches Err(a) && is_refused(
                    a,
                    why,
                )),
                None => if form.deny {
                    r matches Err(a) && denied(
                        old(self).store@,
                        final(self).store@,
                        form.state->0@,
                        form.csrf->0@,
                        old(self).config.public_url@,
                        now_us as int,
                        a,
                    )
                } else {
                    &&& final(self).store@ == old(self).store@
                    &&& r matches Ok((state, csrf, scopes)) && state@ == form.state->0@ && csrf@
                        == form.csrf->0@ && scopes@ == form.scopes@
                },
            },
    {
        if form.too_many_scopes {
            return Err(refused("too many scopes"));
        }
        let (csrf, state): (String, String) = match (form.csrf, form.state) {
            (Some(c), Some(s)) => (c, s),
            _ => {
                return Err(refused("the consent form needs a state and a csrf token"));
            },
        };
        if form.deny {
            return match deny(&mut self.store, &state, &csrf, now_us) {
                Ok(d) => {
                    let mut params: Vec<(String, String)> = Vec::new();
                    params.push(pair("error", "access_denied"));
                    params.push(pair("error_description", "the human refused this request"));
                    assert(upstream::pair_texts(params@) =~= denial_pairs());
                    Err(
                        client_redirect(
                            &d.redirect_uri,
                            params,
                            &d.client_state,
                            &self.config.public_url,
                        ),
                    )
                },
                Err(e) => Err(consent_refused(&e)),
            };
        }
        Ok((state, csrf, form.scopes))
    }

    /// The answer to an approval.
    fn approval_answer(&self, outcome: std::result::Result<consent::Approval, ConsentError>) -> (r: Answer)
        ensures
            match outcome {
                Ok(a) => r.leads(
                    redirect_to(
                        a.redirect_uri@,
                        seq![("code"@, a.code@)],
                        text::opt_text(a.client_state),
                        self.config.public_url@,
                    ),
                ),
                Err(e) => is_consent_refused(r, e),
            },
    {
        match outcome {
            Ok(a) => {
                let mut params: Vec<(String, String)> = Vec::new();
                params.push(pair("code", &a.code));
                assert(upstream::pair_texts(params@) =~= seq![("code"@, a.code@)]);
                client_redirect(&a.redirect_uri, params, &a.client_state, &self.config.public_url)
            },
            Err(e) => consent_refused(&e),
        }
    }

    /// Answers the human's decision. This is the only place that mints a code,
    /// and the only one that sends anybody to a client.
    pub fn decide(&mut self, form: ConsentForm, now_us: i64) -> (r: Answer)
        requires
            now_us <= i64::MAX - consent::CODE_TTL_US,
        ensures
            final(self).same_but_store(*old(self)),
            decision_made(
                old(self).store@,
                final(self).store@,
                form,
                old(self).config.public_url@,
                now_us,
                r,
            ),
    {
        let ghost m = self.store@;
        let ghost read = form;
        match self.settle(form, now_us) {
            Err(a) => a,
            Ok((state, csrf, scopes)) => {
                let outcome: std::result::Result<consent::Approval, ConsentError> = consent::approve(
                    &mut self.store,
                    &state,
                    &csrf,
                    &scopes,
                    now_us,
                );
                let r: Answer = self.approval_answer(outcome);
                proof {
                    let scopes = text::texts(read.scopes@);
                    if let Ok(l) = consent::approvable(m, state@, csrf@, scopes, now_us as int) {
                        if !(consent::restored(m, self.store@, state@) && is_server_error(r)) {
                            let (c, f) = choose|c: Seq<char>, f: Seq<char>|
                                is_token(c) && is_token(f) && #[trigger] consent::approval_made(
                                    m,
                                    self.store@,
                                    l,
                                    scopes,
                                    c,
                                    f,
                                    now_us,
                                    outcome,
                                );
                            assert(approved(
                                m,
                                self.store@,
                                state@,
                                csrf@,
                                scopes,
                                c,
                                f,
                                old(self).config.public_url@,
                                now_us,
                                r,
                            ));
                        }
                    }
                }
                r
            },
        }
    }

    /// The consent endpoint.
    pub fn consent(&mut self, peer: &str, body: &[u8], now_us: i64) -> (r: Answer)
        requires
            now_us <= i64::MAX - consent::CODE_TTL_US,
        ensures
            final(self).config == old(self).config,
            final(self).counted(*old(self), Endpoint::Consent, peer@, now_us as int),
            if old(self).window(Endpoint::Consent).admits(peer@, now_us as int) {
                exists|form: ConsentForm| #[trigger]
                    form.reads(form_pairs(body@)) && decision_made(
                        old(self).store@,
                        final(self).store@,
                        form,
                        old(self).config.public_url@,
                        now_us,
                        r,
                    )
            } else {
                final(self).store@ == old(self).store@ && is_too_many(
                    r,
                    old(self).window(Endpoint::Consent).window,
                )
            },
    {
        match self.limit(Endpoint::Consent, peer, now_us) {
            Some(a) => a,
            None => {
                let form: ConsentForm = parse_consent_form(body);
                let ghost f = form;
                let r: Answer = self.decide(form, now_us);
                assert(f.reads(form_pairs(body@)));
                r
            },
        }
    }
}

/// What comes of a consent form: a malformed one is refused, a denial ends the
/// login, and an approval mints a random code in a random family. Where none can
/// be drawn, a login that would have been granted can still be decided on.
pub open spec fn decision_made(
    before: StoreModel,
    after: StoreModel,
    form: ConsentForm,
    iss: Seq<char>,
    now: i64,
    a: Answer,
) -> bool {
    let (state, csrf, scopes) = (form.state->0@, form.csrf->0@, text::texts(form.scopes@));
    match form_fault(form) {
        Some(why) => after == before && is_refused(a, why),
        None => if form.deny {
            denied(before, after, state, csrf, iss, now as int, a)
        } else {
            match consent::approvable(before, state, csrf, scopes, now as int) {
                Err(why) => consent::refused(before, after, state, why) && is_decision_refused(a, why),
                Ok(_) => {
                    ||| consent::restored(before, after, state) && is_server_error(a)
                    ||| exists|code: Seq<char>, family: Seq<char>|
                        is_token(code) && is_token(family) && #[trigger] approved(
                            before,
                            after,
                            state,
                            csrf,
                            scopes,
                            code,
                            family,
                            iss,
                            now,
                            a,
                        )
                },
            }
        },
    }
}

/// A form that does not carry the login's token sends nobody anywhere, mints
/// nothing and leaves the login as it was.
pub proof fn law_a_form_without_the_token_changes_nothing(
    before: StoreModel,
    after: StoreModel,
    form: ConsentForm,
    iss: Seq<char>,
    now: i64,
    a: Answer,
)
    requires
        decision_made(before, after, form, iss, now, a),
        form_fault(form) is None,
        consent::verified(before, form.state->0@, form.csrf->0@, now as int) == Err::<
            store::LoginData,
            consent::Refusal,
        >(consent::Refusal::BadCsrf),
    ensures
        a.location is None,
        after.codes == before.codes && after.tokens == before.tokens && after.clients == before.clients,
        after.logins.dom() == before.logins.dom(),
        after.logins[form.state->0@].login(form.state->0@) == before.logins[form.state->0@].login(
            form.state->0@,
        ),
{
    assert(before.logins.contains_key(form.state->0@));
    assert(after.logins.dom() =~= before.logins.dom());
}

// ---------------------------------------------------------------------------
// Tokens
// ---------------------------------------------------------------------------

/// What is wrong with a token request.
pub open spec fn token_request_fault(form: TokenForm) -> Option<Seq<char>> {
    if form.repeated {
        Some("a parameter arrived more than once"@)
    } else if text::opt_text(form.grant_type) == Some("authorization_code"@) {
        if given(form.code) is None {
            Some("code is required"@)
        } else if given(form.code_verifier) is None {
            Some("code_verifier is required"@)
        } else if given(form.client_id) is None {
            Some("client_id is required"@)
        } else if given(form.redirect_uri) is None {
            Some("redirect_uri is required"@)
        } else {
            None
        }
    } else if text::opt_text(form.grant_type) == Some("refresh_token"@) {
        if given(form.refresh_token) is None {
            Some("refresh_token is required"@)
        } else if given(form.client_id) is None {
            Some("client_id is required"@)
        } else {
            None
        }
    } else {
        None
    }
}

/// The store after a grant by a client: its use is noted where the grant was
/// made, and only there.
pub open spec fn noted(
    middle: StoreModel,
    after: StoreModel,
    client_id: Seq<char>,
    now: i64,
    r: std::result::Result<TokenResponse, TokenError>,
) -> bool {
    after == (if r is Ok {
        touched(middle, client_id, now)
    } else {
        middle
    })
}

/// What comes of a token request.
pub open spec fn grant_made(
    before: StoreModel,
    after: StoreModel,
    form: TokenForm,
    now: i64,
    r: std::result::Result<TokenResponse, TokenError>,
) -> bool {
    match token_request_fault(form) {
        Some(why) => after == before && (r matches Err(TokenError::InvalidRequest(w)) && w@ == why),
        None => if text::opt_text(form.grant_type) == Some("authorization_code"@) {
            exists|p: CodeExchange, middle: StoreModel|
                {
                    &&& #[trigger] token::code_granted(before, middle, p, now, r)
                    &&& noted(middle, after, form.client_id->0@, now, r)
                    &&& p.code@ == form.code->0@ && p.code_verifier@ == form.code_verifier->0@
                    &&& p.client_id@ == form.client_id->0@ && p.redirect_uri@ == form.redirect_uri->0@
                }
        } else if text::opt_text(form.grant_type) == Some("refresh_token"@) {
            exists|p: RefreshExchange, middle: StoreModel|
                {
                    &&& #[trigger] token::refresh_granted(before, middle, p, now, r)
                    &&& noted(middle, after, form.client_id->0@, now, r)
                    &&& p.refresh_token@ == form.refresh_token->0@ && p.client_id@ == form.client_id->0@
                }
        } else {
            after == before && (r matches Err(TokenError::UnsupportedGrantType))
        },
    }
}

/// The exchange of an authorization code that a form asks for.
fn code_exchange<'a>(form: &'a TokenForm) -> (r: std::result::Result<CodeExchange<'a>, TokenError>)
    requires
        !form.repeated,
        text::opt_text(form.grant_type) == Some("authorization_code"@),
    ensures
        match token_request_fault(*form) {
            Some(why) => r matches Err(TokenError::InvalidRequest(w)) && w@ == why,
            None => r matches Ok(p) && p.code@ == form.code->0@ && p.code_verifier@
                == form.code_verifier->0@ && p.client_id@ == form.client_id->0@ && p.redirect_uri@
                == form.redirect_uri->0@,
        },
{
    let code: &'a str = match required(&form.code, "code is required") {
        Ok(v) => v,
        Err(e) => {
            return Err(e);
        },
    };
    let code_verifier: &'a str = match required(&form.code_verifier, "code_verifier is required") {
        Ok(v) => v,
        Err(e) => {
            return Err(e);
        },
    };
    let client_id: &'a str = match required(&form.client_id, "client_id is required") {
        Ok(v) => v,
        Err(e) => {
            return Err(e);
        },
    };
    match required(&form.redirect_uri, "redirect_uri is required") {
        Ok(redirect_uri) => Ok(CodeExchange { code, code_verifier, client_id, redirect_uri }),
        Err(e) => Err(e),
    }
}

/// The refresh that a form asks for.
fn refresh_exchange<'a>(form: &'a TokenForm) -> (r: std::result::Result<RefreshExchange<'a>, TokenError>)
    requires
        !form.repeated,
        text::opt_text(form.grant_type) == Some("refresh_token"@),
    ensures
        match token_request_fault(*form) {
            Some(why) => r matches Err(TokenError::InvalidRequest(w)) && w@ == why,
            None => r matches Ok(p) && p.refresh_token@ == form.refresh_token->0@ && p.client_id@
                == form.client_id->0@,
        },
{
    proof {
        reveal_strlit("authorization_code");
        reveal_strlit("refresh_token");
        assert("authorization_code"@.len() != "refresh_token"@.len());
    }
    let refresh_token: &'a str = match required(&form.refresh_token, "refresh_token is required") {
        Ok(v) => v,
        Err(e) => {
            return Err(e);
        },
    };
    match required(&form.client_id, "client_id is required") {
        Ok(client_id) => Ok(RefreshExchange { refresh_token, client_id }),
        Err(e) => Err(e),
    }
}

/// Answers a token request with the grant it names, and notes the client's use
/// where one is granted. A refused request notes nothing, so that nobody keeps
/// a registration alive with it.
pub fn granted(store: &mut Store, form: &TokenForm, now_us: i64) -> (r: std::result::Result<
    TokenResponse,
    TokenError,
>)
    requires
        now_us <= i64::MAX - token::REFRESH_TTL_US,
    ensures
        grant_made(old(store)@, final(store)@, *form, now_us, r),
{
    if form.repeated {
        return Err(TokenError::InvalidRequest("a parameter arrived more than once"));
    }
    let ghost before = store@;
    if is_text(&form.grant_type, "authorization_code") {
        let params: CodeExchange = match code_exchange(form) {
            Ok(p) => p,
            Err(e) => {
                return Err(e);
            },
        };
        let r: std::result::Result<TokenResponse, TokenError> = grant_authorization_code(
            store,
            &params,
            now_us,
        );
        let ghost middle = store@;
        if r.is_ok() {
            store.touch_client(params.client_id, now_us);
        }
        assert(token::code_granted(before, middle, params, now_us, r));
        assert(noted(middle, store@, form.client_id->0@, now_us, r));
        return r;
    }
    if is_text(&form.grant_type, "refresh_token") {
        let params: RefreshExchange = match refresh_exchange(form) {
            Ok(p) => p,
            Err(e) => {
                return Err(e);
            },
        };
        let r: std::result::Result<TokenResponse, TokenError> = grant_refresh(store, &params, now_us);
        let ghost middle = store@;
        if r.is_ok() {
            store.touch_client(params.client_id, now_us);
        }
        assert(token::refresh_granted(before, middle, params, now_us, r));
        assert(noted(middle, store@, form.client_id->0@, now_us, r));
        return r;
    }
    Err(TokenError::UnsupportedGrantType)
}

/// The answer to a token request.
pub open spec fn is_token_answer(a: Answer, r: std::result::Result<TokenResponse, TokenError>) -> bool {
    match r {
        Ok(t) => a.stays(200, true) && a.body == Body::Tokens(t),
        Err(e) => is_token_refused(a, e),
    }
}

/// What is wrong with a request to revoke a token.
pub open spec fn revocation_fault(form: TokenForm) -> Option<Seq<char>> {
    if form.repeated {
        Some("a parameter arrived more than once"@)
    } else if given(form.token) is None {
        Some("token is required"@)
    } else {
        None
    }
}

impl OauthState {
    /// The token endpoint.
    pub fn token(&mut self, peer: &str, body: &[u8], now_us: i64) -> (r: Answer)
        requires
            now_us <= i64::MAX - token::REFRESH_TTL_US,
        ensures
            final(self).config == old(self).config,
            final(self).counted(*old(self), Endpoint::Credential, peer@, now_us as int),
            if old(self).window(Endpoint::Credential).admits(peer@, now_us as int) {
                exists|form: TokenForm, outcome: std::result::Result<TokenResponse, TokenError>|
                    {
                        &&& form.reads(form_pairs(body@))
                        &&& #[trigger] grant_made(
                            old(self).store@,
                            final(self).store@,
                            form,
                            now_us,
                            outcome,
                        )
                        &&& is_token_answer(r, outcome)
                    }
            } else {
                final(self).store@ == old(self).store@ && is_too_many(
                    r,
                    old(self).window(Endpoint::Credential).window,
                )
            },
    {
        if let Some(a) = self.limit(Endpoint::Credential, peer, now_us) {
            return a;
        }
        let form: TokenForm = parse_token_form(body);
        let outcome: std::result::Result<TokenResponse, TokenError> = granted(
            &mut self.store,
            &form,
            now_us,
        );
        assert(grant_made(old(self).store@, self.store@, form, now_us, outcome));
        match outcome {
            Ok(t) => Answer {
                status: 200,
                location: None,
                retry_after: None,
                no_store: true,
                body: Body::Tokens(t),
            },
            Err(e) => token_refused(&e),
        }
    }

    /// The revocation endpoint. It is answered alike for a token that nobody
    /// ever issued.
    pub fn revoke_token(&mut self, peer: &str, body: &[u8], now_us: i64) -> (r: Answer)
        ensures
            final(self).config == old(self).config,
            final(self).counted(*old(self), Endpoint::Credential, peer@, now_us as int),
            if old(self).window(Endpoint::Credential).admits(peer@, now_us as int) {
                exists|form: TokenForm| #[trigger]
                    form.reads(form_pairs(body@)) && match revocation_fault(form) {
                        Some(why) => final(self).store@ == old(self).store@ && r.faults(
                            400,
                            true,
                            "invalid_request"@,
                            Some(why),
                        ),
                        None => {
                            &&& final(self).store@ == token::revoked(
                                old(self).store@,
                                form.token->0@,
                                now_us as int,
                            )
                            &&& r.stays(200, true)
                            &&& r.body is Empty
                        },
                    }
            } else {
                final(self).store@ == old(self).store@ && is_too_many(
                    r,
                    old(self).window(Endpoint::Credential).window,
                )
            },
    {
        if let Some(a) = self.limit(Endpoint::Credential, peer, now_us) {
            return a;
        }
        let form: TokenForm = parse_token_form(body);
        assert(form.reads(form_pairs(body@)));
        if form.repeated {
            return token_refused(&TokenError::InvalidRequest("a parameter arrived more than once"));
        }
        match required(&form.token, "token is required") {
            Ok(t) => revoke(&mut self.store, t, now_us),
            Err(e) => {
                return token_refused(&e);
            },
        }
        Answer { status: 200, location: None, retry_after: None, no_store: true, body: Body::Empty }
    }
}

/// A refused token request leaves every client's last use as it was.
pub proof fn law_a_refused_grant_keeps_nobody_alive(
    before: StoreModel,
    after: StoreModel,
    form: TokenForm,
    now: i64,
    e: TokenError,
)
    requires
        grant_made(before, after, form, now, Err(e)),
    ensures
        after.clients == before.clients,
{
}

// ---------------------------------------------------------------------------
// What the endpoints promise
// ---------------------------------------------------------------------------
/// A key has the value that it is given last, wherever in the form it stands;
/// a key that is not in the form has none.
pub proof fn law_a_key_has_its_last_value(pairs: Seq<(Seq<char>, Seq<char>)>, key: Seq<char>, i: int)
    ensures
        0 <= i < pairs.len() && pairs[i].0 == key && (forall|j: int|
            i < j < pairs.len() ==> (#[trigger] pairs[j]).0 != key) ==> last_value(pairs, key) == Some(
            pairs[i].1,
        ),
        (forall|j: int| 0 <= j < pairs.len() ==> (#[trigger] pairs[j]).0 != key) <==> last_value(pairs, key)
            is None,
    decreases pairs.len(),
{
    if pairs.len() > 0 {
        let front = pairs.drop_last();
        let last = pairs.len() - 1;
        assert(pairs[last] == pairs.last());
        law_a_key_has_its_last_value(front, key, i);
        if pairs.last().0 == key {
            assert(pairs[last].0 == key);
        } else {
            if forall|j: int| 0 <= j < front.len() ==> (#[trigger] front[j]).0 != key {
                assert forall|j: int| 0 <= j < pairs.len() implies (#[trigger] pairs[j]).0 != key by {
                    if j < last {
                        assert(front[j] == pairs[j]);
                    }
                }
            } else {
                let j = choose|j: int| 0 <= j < front.len() && (#[trigger] front[j]).0 == key;
                assert(pairs[j].0 == key);
            }
            if 0 <= i < pairs.len() && pairs[i].0 == key {
                assert(i < last);
                assert(front[i] == pairs[i]);
                if forall|j: int| i < j < pairs.len() ==> (#[trigger] pairs[j]).0 != key {
                    assert forall|j: int| i < j < front.len() implies (#[trigger] front[j]).0 != key by {
                        assert(front[j] == pairs[j]);
                    }
                }
            }
        }
    }
}

/// A form is read from its first pair to its last: the values of a key in two
/// forms, one behind the other, are those of the one and then those of the other.
pub proof fn law_values_are_read_in_order(
    a: Seq<(Seq<char>, Seq<char>)>,
    b: Seq<(Seq<char>, Seq<char>)>,
    key: Seq<char>,
    value: Seq<char>,
)
    ensures
        all_values(a + b, key) == all_values(a, key) + all_values(b, key),
        all_values(seq![(key, value)], key) == seq![value],
        forall|other: Seq<char>|
            other != key ==> #[trigger] all_values(seq![(other, value)], key) == Seq::<Seq<char>>::empty(),
    decreases b.len(),
{
    let one = seq![(key, value)];
    assert(one.drop_last() =~= Seq::<(Seq<char>, Seq<char>)>::empty());
    assert(one.last() == (key, value));
    assert(all_values(one.drop_last(), key) =~= Seq::<Seq<char>>::empty());
    assert(all_values(one, key) =~= seq![value]);
    assert forall|other: Seq<char>| other != key implies #[trigger] all_values(seq![(other, value)], key)
        == Seq::<Seq<char>>::empty() by {
        let s = seq![(other, value)];
        assert(s.drop_last() =~= Seq::<(Seq<char>, Seq<char>)>::empty());
        assert(s.last() == (other, value));
        assert(all_values(s.drop_last(), key) =~= Seq::<Seq<char>>::empty());
    }
    if b.len() == 0 {
        assert(a + b =~= a);
        assert(all_values(a, key) + all_values(b, key) =~= all_values(a, key));
    } else {
        law_values_are_read_in_order(a, b.drop_last(), key, value);
        assert((a + b).drop_last() =~= a + b.drop_last());
        assert((a + b).last() == b.last());
        assert(all_values(a + b, key) =~= all_values(a, key) + all_values(b, key));
    }
}

/// A consent form is read whole: whatever scope stands in it is among the scopes
/// that are read, wherever it stands, unless there are more than sixteen, which
/// the form says.
pub proof fn law_every_ticked_scope_is_read(form: ConsentForm, pairs: Seq<(Seq<char>, Seq<char>)>, i: int)
    requires
        form.reads(pairs),
        0 <= i < pairs.len(),
    ensures
        pairs[i].0 == "scope"@ ==> text::texts(form.scopes@).contains(pairs[i].1) || form.too_many_scopes,
        form.too_many_scopes ==> form.scopes@.len() == 16 && pairs.len() > 16,
        pairs[i].0 == "deny"@ ==> form.deny,
        pairs[i].0 == "csrf"@ ==> form.csrf is Some,
        pairs[i].0 == "state"@ ==> form.state is Some,
{
    let scopes = all_values(pairs, "scope"@);
    assert(text::texts(form.scopes@).len() == form.scopes@.len());
    lemma_values_of(pairs, "scope"@);
    law_a_key_has_its_last_value(pairs, "deny"@, i);
    law_a_key_has_its_last_value(pairs, "csrf"@, i);
    law_a_key_has_its_last_value(pairs, "state"@, i);
    if pairs[i].0 == "scope"@ {
        assert(scopes.contains(pairs[i].1));
    }
}

proof fn lemma_values_of(pairs: Seq<(Seq<char>, Seq<char>)>, key: Seq<char>)
    ensures
        all_values(pairs, key).len() <= pairs.len(),
        forall|i: int|
            0 <= i < pairs.len() && (#[trigger] pairs[i]).0 == key ==> all_values(pairs, key).contains(pairs[i].1),
    decreases pairs.len(),
{
    if pairs.len() > 0 {
        let front = pairs.drop_last();
        lemma_values_of(front, key);
        let before = all_values(front, key);
        let all = all_values(pairs, key);
        assert forall|i: int| 0 <= i < pairs.len() && (#[trigger] pairs[i]).0 == key implies all.contains(
            pairs[i].1,
        ) by {
            if i < front.len() {
                assert(front[i] == pairs[i]);
                assert(before.contains(pairs[i].1));
                assert(all[before.index_of(pairs[i].1)] == pairs[i].1);
            } else {
                assert(all.last() == pairs[i].1);
            }
        }
    }
}

/// A token request is refused for a parameter that arrives twice, at whatever two
/// places, and for nothing else that repeats.
pub proof fn law_a_repeated_parameter_is_noticed(pairs: Seq<(Seq<char>, Seq<char>)>)
    ensures
        repeats(pairs) <==> exists|i: int, j: int|
            0 <= i < j < pairs.len() && (#[trigger] pairs[i]).0 == (#[trigger] pairs[j]).0 && is_parameter(
                pairs[i].0,
            ),
        is_parameter("grant_type"@) && is_parameter("code"@) && is_parameter("code_verifier"@) && is_parameter(
            "client_id"@,
        ) && is_parameter("redirect_uri"@) && is_parameter("refresh_token"@) && is_parameter("token"@),
        !is_parameter("scope"@) && !is_parameter("resource"@),
    decreases pairs.len(),
{
    reveal_strlit("scope");
    reveal_strlit("resource");
    reveal_strlit("grant_type");
    reveal_strlit("code");
    reveal_strlit("code_verifier");
    reveal_strlit("client_id");
    reveal_strlit("redirect_uri");
    reveal_strlit("refresh_token");
    reveal_strlit("token");
    assert("scope"@[0] == 's');
    assert("token"@[0] == 't');
    assert("resource"@.len() == 8);
    if pairs.len() > 0 {
        let front = pairs.drop_last();
        let last = pairs.len() - 1;
        let key = pairs.last().0;
        assert(pairs[last] == pairs.last());
        law_a_repeated_parameter_is_noticed(front);
        law_a_key_has_its_last_value(front, key, 0);
        if repeats(front) {
            let (i, j) = choose|i: int, j: int|
                0 <= i < j < front.len() && (#[trigger] front[i]).0 == (#[trigger] front[j]).0 && is_parameter(
                    front[i].0,
                );
            assert(pairs[i].0 == pairs[j].0);
        } else if repeats(pairs) {
            let i = choose|i: int| 0 <= i < front.len() && (#[trigger] front[i]).0 == key;
            assert(pairs[i].0 == pairs[last].0);
        }
        if exists|i: int, j: int|
            0 <= i < j < pairs.len() && (#[trigger] pairs[i]).0 == (#[trigger] pairs[j]).0 && is_parameter(
                pairs[i].0,
            ) {
            let (i, j) = choose|i: int, j: int|
                0 <= i < j < pairs.len() && (#[trigger] pairs[i]).0 == (#[trigger] pairs[j]).0 && is_parameter(
                    pairs[i].0,
                );
            assert(front[i] == pairs[i]);
            if j < last {
                assert(front[j] == pairs[j]);
            }
        }
    }
}

/// The scheme and host of an address stand before its path: an address with a
/// path loses all of it, and one without is its own origin.
pub proof fn law_an_origin_has_no_path(host: Seq<char>, path: Seq<char>)
    requires
        !host.contains('/'),
    ensures
        origin_of("https://"@ + host + "/"@ + path) == "https://"@ + host,
        origin_of("https://"@ + host) == "https://"@ + host,
{
    reveal_strlit("https://");
    reveal_strlit("/");
    let whole = "https://"@ + host + "/"@ + path;
    let rest = host + "/"@ + path;
    assert(whole =~= "https://"@ + rest);
    assert("https://"@.is_prefix_of(whole));
    assert(whole.skip(8) =~= rest);
    assert(("https://"@ + host).skip(8) =~= host);
    assert("https://"@.is_prefix_of("https://"@ + host));
    let at = host.len() as int;
    assert(rest.subrange(at, at + 1) =~= "/"@);
    assert forall|j: int| 0 <= j < at implies !#[trigger] text::occurs_at(rest, "/"@, j) by {
        if text::occurs_at(rest, "/"@, j) {
            assert(rest.subrange(j, j + 1)[0] == rest[j]);
            assert(rest[j] == host[j]);
            assert(host.contains(host[j]));
        }
    }
    assert(text::first_occurs(rest, "/"@, at));
    text::lemma_cut(rest, "/"@, at);
    assert(rest.take(at) =~= host);
    text::law_a_cut_text_is_whole(host, "/"@);
    if let Some((a, b)) = text::cut(host, "/"@) {
        assert(host[a.len() as int] == '/');
        assert(host.contains('/'));
    }
}

/// The client in the forwarding header is its first entry, with or without
/// brackets, whatever other proxies are named behind it.
pub proof fn law_the_first_forwarded_is_meant(first: Seq<char>, rest: Seq<char>)
    requires
        first.len() > 0,
        !first.contains(','),
        !text::white_space(first[0]) && !text::white_space(first.last()),
        first[0] != '[',
    ensures
        first_forwarded(first) == first,
        first_forwarded(first + seq![','] + rest) == first,
        first_forwarded(seq!['['] + first + seq![']']) == first,
        first_forwarded(seq!['['] + first + seq![']'] + seq![','] + rest) == first,
{
    lemma_first_entry(first, rest);
    let held = seq!['['] + first + seq![']'];
    assert(!held.contains(',')) by {
        if held.contains(',') {
            let k = held.index_of(',');
            assert(held[k] == first[k - 1]);
            assert(first.contains(first[k - 1]));
        }
    }
    lemma_first_entry(held, rest);
    assert(text::trimmed(first) == first);
    assert(held[0] == '[' && held.last() == ']');
    assert(text::trimmed(held) == held);
    assert(held.subrange(1, held.len() - 1) =~= first);
}

proof fn lemma_first_entry(a: Seq<char>, rest: Seq<char>)
    requires
        !a.contains(','),
    ensures
        text::split(a, ',')[0] == a,
        text::split(a + seq![','] + rest, ',')[0] == a,
    decreases rest.len(),
{
    let s = a + seq![','] + rest;
    text::law_joined_parts_are_split_again(seq![a], ',');
    assert(text::joined(seq![a], seq![',']) == a);
    if rest.len() == 0 {
        assert(s.drop_last() =~= a);
        text::lemma_split_len(a, ',');
    } else {
        let front = rest.drop_last();
        lemma_first_entry(a, front);
        let before = a + seq![','] + front;
        assert(s.drop_last() =~= before);
        text::lemma_split_len(before, ',');
        text::law_joined_parts_are_split_again(seq![a], ',');
        if text::split(before, ',').len() == 1 {
            text::law_split_parts_make_up_the_text(before, ',', 0);
            assert(text::joined(text::split(before, ','), seq![',']) == a);
            assert(before.len() > a.len());
        }
    }
}

/// A redirect to a client carries everything that it was told: the parameters,
/// the client's own state where it sent one, and the name of this server, behind
/// the address that the client registered.
pub proof fn law_a_redirect_carries_everything(
    base: Seq<char>,
    params: Seq<(Seq<char>, Seq<char>)>,
    client_state: Option<Seq<char>>,
    iss: Seq<char>,
    i: int,
)
    ensures
        base.is_prefix_of(redirect_to(base, params, client_state, iss)),
        params.is_prefix_of(redirect_pairs(params, client_state, iss)),
        redirect_pairs(params, client_state, iss).last() == ("iss"@, iss),
        client_state matches Some(s) ==> redirect_pairs(params, client_state, iss).contains(("state"@, s)),
        redirect_pairs(params, client_state, iss).len() == params.len() + (if client_state is Some {
            2int
        } else {
            1int
        }),
        base.contains('?') ==> redirect_to(base, params, client_state, iss) == base + "&"@ + form_text(
            redirect_pairs(params, client_state, iss),
        ),
        !base.contains('?') ==> redirect_to(base, params, client_state, iss) == base + "?"@ + form_text(
            redirect_pairs(params, client_state, iss),
        ),
{
    let all = redirect_pairs(params, client_state, iss);
    assert(params.is_prefix_of(all));
    if let Some(s) = client_state {
        assert(all[params.len() as int] == ("state"@, s));
    }
    reveal_strlit("?");
    reveal_strlit("&");
    assert(base.is_prefix_of(redirect_to(base, params, client_state, iss)));
}

/// Every category has its slug among the advertised scopes, at its own place, and
/// administration comes behind them.
pub proof fn law_every_category_is_advertised(categories: Seq<ToolCategory>, i: int)
    requires
        0 <= i < categories.len(),
    ensures
        advertised(categories)[i] == categories[i].spelled(),
        advertised(categories).len() == categories.len() + 1,
        advertised(categories).last() == "admin"@,
{
}

/// A request that says everything is well formed: the three required values, the
/// one response type and the one challenge method, one to sixteen scopes, and
/// this resource or none.
pub proof fn law_a_complete_request_is_accepted(q: AuthorizeParams, resource: Seq<char>)
    ensures
        authorize_fault(q, resource) is None <==> {
            &&& q.client_id is Some && q.redirect_uri is Some
            &&& q.code_challenge matches Some(c) && c@.len() > 0
            &&& q.response_type matches Some(t) && t@ == "code"@
            &&& q.code_challenge_method matches Some(m) && m@ == "S256"@
            &&& q.scope matches Some(s) && 1 <= text::words(s@).len() <= 16
            &&& q.resource matches Some(r) ==> r@ == resource
        },
{
}

/// A registered client whose redirect URI is one of its own gets its login,
/// whichever of them it is: the login asks for what the request said.
pub proof fn law_a_registered_client_is_let_on(
    m: StoreModel,
    q: AuthorizeParams,
    resource: Seq<char>,
    r: LoginStep,
    uris: Seq<Seq<char>>,
    k: int,
)
    requires
        login_begun(m, q, resource, r),
        authorize_fault(q, resource) is None,
        m.clients.contains_key(q.client_id->0@),
        crate::json::json_texts(m.clients[q.client_id->0@].redirect_uris@) == Some(uris),
    ensures
        0 <= k < uris.len() && uris[k] == q.redirect_uri->0@ ==> (r matches LoginStep::Discover(l)
            && l.client_id@ == q.client_id->0@ && l.redirect_uri@ == uris[k] && l.code_challenge@
            == q.code_challenge->0@ && l.client_state == q.state && text::texts(l.scopes@) == text::words(
            q.scope->0@,
        )),
        !uris.contains(q.redirect_uri->0@) ==> (r matches LoginStep::Done(a) && a.status == 400
            && a.location is None),
{
    if 0 <= k < uris.len() && uris[k] == q.redirect_uri->0@ {
        assert(uris.contains(q.redirect_uri->0@));
    }
}

/// A login that was recorded waits for its human for ten minutes, with everything
/// that the client asked for; the client's use is noted, and no other row is
/// touched.
pub proof fn law_a_recorded_login_waits(
    before: StoreModel,
    after: StoreModel,
    config: OAuthConfig,
    resource: Seq<char>,
    q: LoginRequest,
    provider: Provider,
    state: Seq<char>,
    verifier: Seq<char>,
    nonce: Seq<char>,
    csrf: Seq<char>,
    now: i64,
    r: Answer,
    other: Seq<char>,
)
    requires
        login_recorded(before, after, config, resource, q, provider, state, verifier, nonce, csrf, now, r),
        sign_in_url(provider, config, state, nonce, verifier) is Some,
        !before.logins.contains_key(state),
        now <= i64::MAX - LOGIN_TTL_US,
    ensures
        r.status == 302,
        r.location matches Some(l) && Some(l@) == sign_in_url(provider, config, state, nonce, verifier),
        after.logins.contains_key(state),
        after.logins[state].login(state) matches Some(l) && l.client_id == q.client_id@ && l.redirect_uri
            == q.redirect_uri@ && l.client_state == text::opt_text(q.client_state) && l.code_challenge
            == q.code_challenge@ && l.scopes == text::texts(q.scopes@) && l.resource == resource && l.nonce
            == nonce && l.csrf == csrf && l.upstream_verifier == verifier && l.principal is None && l.expires_us
            == now + 600_000_000,
        other != state && before.logins.contains_key(other) ==> after.logins.contains_key(other)
            && after.logins[other] == before.logins[other],
        after.codes == before.codes && after.tokens == before.tokens,
        after.clients.dom() == before.clients.dom(),
        before.clients.contains_key(other) && other != q.client_id@ ==> after.clients[other]
            == before.clients[other],
        before.clients.contains_key(q.client_id@) ==> after.clients[q.client_id@].last_used_us == now
            && after.clients[q.client_id@].redirect_uris == before.clients[q.client_id@].redirect_uris
            && after.clients[q.client_id@].created_us == before.clients[q.client_id@].created_us,
{
    assert(after.clients.dom() =~= before.clients.dom());
}

/// Whoever says no ends the login: nothing is minted, every other login stays, and
/// the client is told, at the address that the login names.
pub proof fn law_a_denial_ends_one_login(
    before: StoreModel,
    after: StoreModel,
    state: Seq<char>,
    csrf: Seq<char>,
    iss: Seq<char>,
    now: int,
    a: Answer,
    l: store::LoginData,
    other: Seq<char>,
)
    requires
        denied(before, after, state, csrf, iss, now, a),
        store::login_live(before.logins, state, now),
        before.logins[state].login(state) == Some(l),
        l.csrf == csrf,
        l.principal is Some,
    ensures
        !after.logins.contains_key(state),
        other != state && before.logins.contains_key(other) ==> after.logins.contains_key(other)
            && after.logins[other] == before.logins[other],
        after.codes == before.codes && after.tokens == before.tokens && after.clients == before.clients,
        a.status == 302,
        a.location matches Some(to) && l.redirect_uri.is_prefix_of(to@),
        denial_pairs()[0] == ("error"@, "access_denied"@),
{
    law_a_redirect_carries_everything(l.redirect_uri, denial_pairs(), l.client_state, iss, 0);
}

/// Whoever says yes to something that was offered is sent back with a code that is
/// worth what they approved; the login is over, and every other stays.
pub proof fn law_an_approval_sends_the_code(
    before: StoreModel,
    after: StoreModel,
    state: Seq<char>,
    csrf: Seq<char>,
    scopes: Seq<Seq<char>>,
    code: Seq<char>,
    family: Seq<char>,
    iss: Seq<char>,
    now: i64,
    a: Answer,
    l: store::LoginData,
    other: Seq<char>,
)
    requires
        approved(before, after, state, csrf, scopes, code, family, iss, now, a),
        store::login_live(before.logins, state, now as int),
        before.logins[state].login(state) == Some(l),
        l.state == state,
        l.csrf == csrf,
        l.principal is Some,
        scopes.len() > 0,
        forall|i: int| 0 <= i < scopes.len() ==> l.scopes.contains(#[trigger] scopes[i]),
        !before.codes.contains_key(crate::crypto::digest_of(code)),
        now <= i64::MAX - consent::CODE_TTL_US,
    ensures
        a.status == 302,
        a.location matches Some(to) && to@ == redirect_to(
            l.redirect_uri,
            seq![("code"@, code)],
            l.client_state,
            iss,
        ),
        store::code_live(after.codes, code, now as int),
        !after.logins.contains_key(state),
        other != state && before.logins.contains_key(other) ==> after.logins.contains_key(other)
            && after.logins[other] == before.logins[other],
        after.tokens == before.tokens && after.clients == before.clients,
{
    consent::law_a_valid_decision_is_accepted(before, state, scopes, now as int, l);
    assert(consent::approvable(before, state, csrf, scopes, now as int) is Ok);
}

/// A complete request for tokens is decided by what it presents, and by nothing
/// else: a live code in the hands of its client is not refused.
pub proof fn law_a_live_code_is_honoured(
    before: StoreModel,
    after: StoreModel,
    form: TokenForm,
    now: i64,
    r: std::result::Result<TokenResponse, TokenError>,
    g: store::GrantData,
    other: Seq<char>,
)
    requires
        grant_made(before, after, form, now, r),
        !form.repeated,
        text::opt_text(form.grant_type) == Some("authorization_code"@),
        form.code is Some && form.code_verifier is Some && form.client_id is Some && form.redirect_uri is Some,
        form.code->0@.len() > 0 && form.code_verifier->0@.len() > 0 && form.client_id->0@.len() > 0
            && form.redirect_uri->0@.len() > 0,
        store::code_live(before.codes, form.code->0@, now as int),
        ({
            let row = before.codes[crate::crypto::digest_of(form.code->0@)];
            &&& row.grant.grant() == Some(g)
            &&& row.code_challenge@ == crate::crypto::challenge_of(form.code_verifier->0@)
            &&& row.redirect_uri@ == form.redirect_uri->0@
        }),
        g.client_id == form.client_id->0@,
    ensures
        r is Ok || r->Err_0 is Store,
        !after.codes.contains_key(crate::crypto::digest_of(form.code->0@)),
        r matches Ok(t) ==> t.scope@ == text::joined(g.scopes, " "@) && t.expires_in == 3600,
        r is Ok && before.clients.contains_key(g.client_id) ==> after.clients[g.client_id].last_used_us == now,
        before.clients.contains_key(other) && other != g.client_id ==> after.clients.contains_key(other)
            && after.clients[other] == before.clients[other],
{
    reveal_strlit("authorization_code");
    reveal_strlit("refresh_token");
    assert(token_request_fault(form) is None);
    let (p, middle) = choose|p: CodeExchange, middle: StoreModel|
        {
            &&& #[trigger] token::code_granted(before, middle, p, now, r)
            &&& noted(middle, after, form.client_id->0@, now, r)
            &&& p.code@ == form.code->0@ && p.code_verifier@ == form.code_verifier->0@
            &&& p.client_id@ == form.client_id->0@ && p.redirect_uri@ == form.redirect_uri->0@
        };
    token::law_a_live_code_yields_its_grant(before, p, now as int, g, other);
    let start = token::code_presented(before, p.code@, now as int);
    assert(token::pair_minted(start, middle, g, now, r));
    if !(middle == start && r is Err) {
        let (a, b) = choose|a: Seq<char>, b: Seq<char>|
            is_token(a) && is_token(b) && #[trigger] token::pair_made(start, middle, g, a, b, now, r);
        assert(token::pair_made(start, middle, g, a, b, now, r));
    }
    assert(middle.codes == start.codes && middle.clients == start.clients);
}

/// A live refresh token in the hands of its client is not refused either.
pub proof fn law_a_live_refresh_token_is_honoured(
    before: StoreModel,
    after: StoreModel,
    form: TokenForm,
    now: i64,
    r: std::result::Result<TokenResponse, TokenError>,
    g: store::GrantData,
)
    requires
        grant_made(before, after, form, now, r),
        !form.repeated,
        text::opt_text(form.grant_type) == Some("refresh_token"@),
        form.refresh_token is Some && form.client_id is Some,
        form.refresh_token->0@.len() > 0 && form.client_id->0@.len() > 0,
        store::token_live(before.tokens, form.refresh_token->0@, store::TokenKind::Refresh, now as int),
        !before.tokens[crate::crypto::digest_of(form.refresh_token->0@)].spent,
        before.tokens[crate::crypto::digest_of(form.refresh_token->0@)].grant.grant() == Some(g),
        g.client_id == form.client_id->0@,
    ensures
        r is Ok || r->Err_0 is Store,
        r matches Ok(t) ==> t.scope@ == text::joined(g.scopes, " "@) && t.expires_in == 3600,
{
    reveal_strlit("authorization_code");
    reveal_strlit("refresh_token");
    assert("authorization_code"@.len() != "refresh_token"@.len());
    assert(token_request_fault(form) is None);
    let (p, middle) = choose|p: RefreshExchange, middle: StoreModel|
        {
            &&& #[trigger] token::refresh_granted(before, middle, p, now, r)
            &&& noted(middle, after, form.client_id->0@, now, r)
            &&& p.refresh_token@ == form.refresh_token->0@ && p.client_id@ == form.client_id->0@
        };
    token::law_a_live_refresh_token_yields_its_grant(
        before,
        p,
        now as int,
        g,
        Seq::empty(),
        store::TokenKind::Access,
        0,
    );
    let start = token::token_presented(before, p, now as int);
    assert(token::pair_minted(start, middle, g, now, r));
    if !(middle == start && r is Err) {
        let (a, b) = choose|a: Seq<char>, b: Seq<char>|
            is_token(a) && is_token(b) && #[trigger] token::pair_made(start, middle, g, a, b, now, r);
        assert(token::pair_made(start, middle, g, a, b, now, r));
    }
}

/// A request that lacks something, names another grant or says a thing twice gets
/// nothing, and takes nothing: no code and no token is used up by it.
pub proof fn law_an_incomplete_request_takes_nothing(
    before: StoreModel,
    after: StoreModel,
    form: TokenForm,
    now: i64,
    r: std::result::Result<TokenResponse, TokenError>,
)
    requires
        grant_made(before, after, form, now, r),
        form.repeated || !(text::opt_text(form.grant_type) == Some("authorization_code"@) || text::opt_text(
            form.grant_type,
        ) == Some("refresh_token"@)) || form.client_id is None || form.client_id->0@.len() == 0,
    ensures
        after == before,
        r matches Err(e) && (e is InvalidRequest || e is UnsupportedGrantType),
        form.repeated ==> r->Err_0 is InvalidRequest,
{
    reveal_strlit("authorization_code");
    reveal_strlit("refresh_token");
    assert("authorization_code"@.len() != "refresh_token"@.len());
}

/// Revoking wants a token and nothing more.
pub proof fn law_revoking_wants_a_token(form: TokenForm)
    ensures
        revocation_fault(form) is None <==> !form.repeated && (form.token matches Some(t) && t@.len() > 0),
{
}

/// A request is counted against the limit of its own endpoint, and against no
/// other.
pub proof fn law_endpoints_are_counted_apart(
    before: OauthState,
    after: OauthState,
    endpoint: Endpoint,
    peer: Seq<char>,
    now: int,
)
    requires
        after.counted(before, endpoint, peer, now),
    ensures
        forall|other: Endpoint| other != endpoint ==> #[trigger] after.window(other) == before.window(other),
        after.window(endpoint) == before.window(endpoint).after(peer, now),
        after.window(Endpoint::Register) == after.limits.register@,
        after.window(Endpoint::Authorize) == after.limits.authorize@,
        after.window(Endpoint::Callback) == after.limits.callback@,
        after.window(Endpoint::Consent) == after.limits.consent@,
        after.window(Endpoint::Credential) == after.limits.credential@,
{
}

/// What is wrong with the caller is answered in the four hundreds, what is wrong
/// here with five hundred, and no refusal sends anybody anywhere.
pub proof fn law_refusals_say_whose_fault_it_is(
    a: Answer,
    r: RegistrationError,
    c: ConsentError,
    t: TokenError,
)
    ensures
        is_registration_refused(a, r) ==> a.location is None && a.status == (if r is Store {
            500int
        } else {
            400int
        }),
        is_consent_refused(a, c) ==> a.location is None && a.status == (if c is Store {
            500int
        } else if c is BadCsrf {
            403int
        } else {
            400int
        }),
        is_token_refused(a, t) ==> a.location is None && a.status == (if t is Store {
            500int
        } else {
            400int
        }),
        is_login_refused(a) ==> a.location is None && a.status == 403,
{
}

/// A login that learns who its human is stays the same login: only the human and
/// what they are offered are new, and what they are offered was asked for.
pub proof fn law_a_named_login_stays_itself(
    l: store::LoginData,
    principal: Seq<char>,
    scopes: Seq<Seq<char>>,
)
    ensures
        ({
            let n = named_login(l, principal, scopes);
            &&& n.principal == Some(principal) && n.scopes == scopes
            &&& n.state == l.state && n.client_id == l.client_id && n.redirect_uri == l.redirect_uri
            &&& n.client_state == l.client_state && n.code_challenge == l.code_challenge
            &&& n.resource == l.resource && n.csrf == l.csrf && n.nonce == l.nonce
            &&& n.created_us == l.created_us && n.expires_us == l.expires_us
        }),
{
}

/// A client whose document was read is known from then on, with everything that
/// the document says, and whoever was known before still is.
pub proof fn law_an_adopted_client_is_known(m: StoreModel, after: StoreModel, c: ClientRecord, other: Seq<char>)
    requires
        adopted(m, after, c),
    ensures
        after.clients.contains_key(c.client_id@),
        after.clients[c.client_id@].client_name@ == c.client_name@,
        crate::json::json_texts(after.clients[c.client_id@].redirect_uris@) == Some(text::texts(c.redirect_uris@)),
        other != c.client_id@ && m.clients.contains_key(other) ==> after.clients.contains_key(other)
            && after.clients[other] == m.clients[other],
        other != c.client_id@ && after.clients.contains_key(other) ==> m.clients.contains_key(other),
        after.logins == m.logins && after.codes == m.codes && after.tokens == m.tokens,
{
}

/// What was granted is what is answered: a registered client is told of itself,
/// and tokens go to whoever asked for them, and into no cache.
pub proof fn law_what_was_granted_is_answered(
    a: Answer,
    c: Registered,
    t: TokenResponse,
    window: int,
)
    ensures
        is_registration_answer(a, Ok(c)) ==> a.status == 201 && a.body == Body::Client(c) && a.location is None,
        is_token_answer(a, Ok(t)) ==> a.status == 200 && a.body == Body::Tokens(t) && a.no_store,
        is_too_many(a, 60_000_000) ==> a.status == 429 && a.retry_after == Some(60i64),
{
}

/// The consent page names the client by its own name where that shows anything,
/// and by its identifier where it does not; and the human by their label, or by
/// their name where they have none.
pub proof fn law_the_consent_page_names_both(
    a: Answer,
    l: store::LoginData,
    client_name: Seq<char>,
    client_id: Seq<char>,
    p: principals::EntryData,
    offer: Seq<Seq<char>>,
    k: int,
)
    requires
        is_consent_page(a, l, client_name, client_id, p, offer),
    ensures
        a.status == 200 && a.no_store,
        0 <= k < client_name.len() && consent::visible(client_name[k]) && p.label is Some ==> (a.body matches Body::Html(t)
            && t@ == consent::page_text(client_name, p.label->0, l.redirect_uri, offer, l.csrf, l.state)),
        0 <= k < client_name.len() && consent::visible(client_name[k]) && p.label is None ==> (a.body matches Body::Html(t)
            && t@ == consent::page_text(client_name, p.name, l.redirect_uri, offer, l.csrf, l.state)),
        (forall|i: int| 0 <= i < client_name.len() ==> !consent::visible(#[trigger] client_name[i])) && p.label is None ==> (
        a.body matches Body::Html(t) && t@ == consent::page_text(
            client_id,
            p.name,
            l.redirect_uri,
            offer,
            l.csrf,
            l.state,
        )),
{
}

} // verus!
