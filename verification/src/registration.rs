//! The two ways a client becomes known to this server.
//!
//! [`register`] is dynamic client registration: the client posts its metadata
//! and this server issues the identifier. [`resolve_metadata_document`] is the
//! client identifier metadata document: the client publishes its metadata at
//! an https URL and presents that URL as its identifier.
//!
//! Both paths end in one [`ClientRecord`], and both apply one redirect-URI
//! rule. A registration is unauthenticated: the identifier, the source and
//! both timestamps are server-controlled.
use vstd::prelude::*;
use vstd::utf8::{encode_utf8, is_ascii_chars_encode_utf8};

use crate::crypto::{is_token, new_token};
use crate::metadata::{one, two};
use crate::limits::{seconds_of, whole_seconds};
use crate::store::{ClientRecord, Store, StoreError, StoreModel, CIMD, DCR};
use crate::text::{
    all_digits, byte_len, chars_of, digit, holds_char, lowered, same, same_ignoring_case,
    starts_with, texts,
};

verus! {

/// Fetches one document over HTTP. The transport is chosen once, by the
/// program that owns the HTTP client.
///
/// [`resolve_metadata_document`] checks the scheme and the host before it
/// calls `get`. An implementation must enforce the rest itself: `https` only
/// and no redirect followed, a body cap of 64 KB and a timeout of 5 seconds.
pub trait Fetch {
    /// The body of `url`, or a message describing why it could not be read.
    fn get(&self, url: &str) -> (r: std::result::Result<String, String>);
}

/// Why a registration was refused.
#[derive(Debug)]
pub enum RegistrationError {
    InvalidClientMetadata,
    InvalidRedirectUri,
    DomainNotAllowed,
    MalformedDocument,
    MetadataMismatch,
    Fetch(String),
    Store(StoreError),
}

impl RegistrationError {
    /// The error in words.
    pub open spec fn says(self) -> Seq<char> {
        match self {
            RegistrationError::InvalidClientMetadata => "the registration request is not usable client metadata"@,
            RegistrationError::InvalidRedirectUri => "every redirect URI must use https, or be a loopback http URL"@,
            RegistrationError::DomainNotAllowed => "the metadata document URL is not an https URL on an allowed domain"@,
            RegistrationError::MalformedDocument => "the metadata document is not usable client metadata"@,
            RegistrationError::MetadataMismatch => "the metadata document names a client_id other than its own URL"@,
            RegistrationError::Fetch(m) => "the metadata document could not be fetched: "@ + m@,
            RegistrationError::Store(e) => e.says(),
        }
    }

    /// The error in words.
    pub fn message(&self) -> (r: String)
        ensures
            r@ == self.says(),
    {
        match self {
            RegistrationError::InvalidClientMetadata => "the registration request is not usable client metadata".to_owned(),
            RegistrationError::InvalidRedirectUri => "every redirect URI must use https, or be a loopback http URL".to_owned(),
            RegistrationError::DomainNotAllowed => "the metadata document URL is not an https URL on an allowed domain".to_owned(),
            RegistrationError::MalformedDocument => "the metadata document is not usable client metadata".to_owned(),
            RegistrationError::MetadataMismatch => "the metadata document names a client_id other than its own URL".to_owned(),
            RegistrationError::Fetch(m) => "the metadata document could not be fetched: ".to_owned().concat(
                m,
            ),
            RegistrationError::Store(e) => e.message(),
        }
    }
}

/// Everything a registration request is allowed to choose. A client that sends
/// no name registers with an empty one.
#[derive(Debug)]
pub struct RegistrationRequest {
    pub client_name: String,
    pub redirect_uris: Vec<String>,
}

/// The three members a client identifier metadata document must carry.
#[derive(Debug)]
pub struct MetadataDocument {
    pub client_id: String,
    pub client_name: String,
    pub redirect_uris: Vec<String>,
}

/// What a registered client is told. There is one grant set, one response type
/// and no client secret, so these are stated rather than echoed.
#[derive(Debug)]
pub struct Registered {
    pub client_id: String,
    /// In seconds.
    pub client_id_issued_at: i64,
    pub client_name: String,
    pub redirect_uris: Vec<String>,
    pub grant_types: Vec<String>,
    pub response_types: Vec<String>,
    pub token_endpoint_auth_method: &'static str,
}

/// The longest `client_name` this server stores, in bytes.
pub const MAX_CLIENT_NAME_BYTES: usize = 256;

/// The most redirect URIs one client may register.
pub const MAX_REDIRECT_URIS: usize = 8;

/// The longest URL this server stores, in bytes: each redirect URI, and the
/// `client_id` itself, which may be the URL of a document.
pub const MAX_URL_BYTES: usize = 2048;

// ---------------------------------------------------------------------------
// Hosts
// ---------------------------------------------------------------------------

/// Whether the authority of a URL ends here.
pub open spec fn ends_authority(c: char) -> bool {
    c == '/' || c == '?' || c == '#'
}

/// The length of the authority at the beginning of a text.
pub open spec fn authority_len(s: Seq<char>) -> int
    decreases s.len(),
{
    if s.len() == 0 || ends_authority(s[0]) {
        0
    } else {
        1 + authority_len(s.skip(1))
    }
}

/// The last colon of a text stands at `i`.
pub open spec fn last_colon(s: Seq<char>, i: int) -> bool {
    0 <= i < s.len() && s[i] == ':' && forall|j: int| i < j < s.len() ==> #[trigger] s[j] != ':'
}

/// An authority without its port. A bracketed address keeps its last colon:
/// what follows it is no number.
pub open spec fn without_port(a: Seq<char>) -> Seq<char> {
    if exists|i: int| last_colon(a, i) {
        let i = choose|i: int| last_colon(a, i);
        let port = a.skip(i + 1);
        if port.len() > 0 && (forall|j: int| 0 <= j < port.len() ==> digit(#[trigger] port[j])) {
            a.take(i)
        } else {
            a
        }
    } else {
        a
    }
}

/// The host of a URL of that scheme: nothing where the scheme is another, the
/// authority carries user information, or no host is left.
pub open spec fn host_of(url: Seq<char>, scheme: Seq<char>) -> Option<Seq<char>> {
    if !scheme.is_prefix_of(url) {
        None
    } else {
        let rest = url.skip(scheme.len() as int);
        let authority = rest.take(authority_len(rest));
        let host = without_port(authority);
        if authority.contains('@') || host.len() == 0 {
            None
        } else {
            Some(host)
        }
    }
}

proof fn lemma_authority_len(s: Seq<char>)
    ensures
        0 <= authority_len(s) <= s.len(),
    decreases s.len(),
{
    if s.len() > 0 && !ends_authority(s[0]) {
        lemma_authority_len(s.skip(1));
    }
}

/// The host of `url` when it uses `scheme`, or nothing. `scheme` carries its
/// `://`. The authority is read up to the first `/`, `?` or `#`, and one that
/// carries user information is refused outright.
pub fn host<'a>(url: &'a str, scheme: &str) -> (r: Option<&'a str>)
    ensures
        match r {
            Some(h) => host_of(url@, scheme@) == Some(h@),
            None => host_of(url@, scheme@) is None,
        },
{
    if !starts_with(url, scheme) {
        return None;
    }
    let v: Vec<char> = chars_of(url);
    let start: usize = chars_of(scheme).len();
    let ghost rest = url@.skip(start as int);
    proof {
        lemma_authority_len(rest);
        assert(rest.skip(0) =~= rest);
    }
    let mut end: usize = start;
    while end < v.len() && !(v[end] == '/' || v[end] == '?' || v[end] == '#')
        invariant
            start <= end <= v@.len(),
            v@ == url@,
            start == scheme@.len(),
            scheme@.is_prefix_of(url@),
            rest == url@.skip(start as int),
            0 <= authority_len(rest) <= rest.len(),
            authority_len(rest) == (end - start) + authority_len(rest.skip(end - start)),
            authority_len(rest.skip(end - start)) >= 0,
            !v@.subrange(start as int, end as int).contains('@'),
        decreases v@.len() - end,
    {
        let ghost tail = rest.skip(end - start);
        assert(tail[0] == v@[end as int]);
        assert(tail.skip(1) =~= rest.skip(end + 1 - start));
        proof {
            lemma_authority_len(tail.skip(1));
        }
        if v[end] == '@' {
            proof {
                let a = rest.take(authority_len(rest));
                assert(a[end - start] == '@');
            }
            return None;
        }
        proof {
            let longer = v@.subrange(start as int, end + 1);
            if longer.contains('@') {
                let k = longer.index_of('@');
                assert(v@.subrange(start as int, end as int)[k] == '@');
            }
        }
        end += 1;
    }
    let ghost tail = rest.skip(end - start);
    assert(end < v@.len() ==> tail[0] == v@[end as int]);
    assert(authority_len(rest) == end - start);
    let ghost authority = rest.take(end - start);
    assert(authority =~= v@.subrange(start as int, end as int));
    // The port, if there is one.
    let mut colon: usize = end;
    let mut cut: usize = end;
    let mut searching: bool = true;
    while searching && colon > start
        invariant
            start <= colon <= end <= v@.len(),
            authority == v@.subrange(start as int, end as int),
            cut == end,
            forall|j: int| colon - start <= j < authority.len() ==> #[trigger] authority[j] != ':',
            !searching ==> colon > start && authority[colon - 1 - start] == ':',
            colon <= start ==> searching,
        decreases colon, (if searching { 1int } else { 0int }),
    {
        assert(authority[colon - 1 - start] == v@[colon - 1]);
        if v[colon - 1] == ':' {
            searching = false;
        } else {
            colon -= 1;
        }
    }
    if !searching {
        proof {
            assert(last_colon(authority, colon - 1 - start));
            let i = choose|i: int| last_colon(authority, i);
            let k = colon - 1 - start;
            assert(i == k) by {
                if i < k {
                    assert(authority[k] != ':');
                } else if k < i {
                    assert(authority[i] != ':');
                }
            }
            assert(authority.skip(k + 1) =~= v@.subrange(colon as int, end as int));
        }
        if colon < end && all_digits(vstd::slice::slice_subrange(v.as_slice(), colon, end)) {
            cut = colon - 1;
            assert(authority.take(colon - 1 - start) =~= v@.subrange(start as int, cut as int));
        }
    }
    assert(without_port(authority) =~= v@.subrange(start as int, cut as int));
    if cut == start {
        return None;
    }
    Some(url.substring_char(start, cut))
}

/// A redirect URI that this server sends a code to: an `https` URL, or a
/// loopback `http` URL, without a fragment. The loopback names are matched
/// whole.
pub open spec fn acceptable_redirect(uri: Seq<char>) -> bool {
    &&& !uri.contains('#')
    &&& {
        ||| host_of(uri, "https://"@) is Some
        ||| (host_of(uri, "http://"@) matches Some(h) && (h == "127.0.0.1"@ || h == "[::1]"@ || lowered(h)
            == lowered("localhost"@)))
    }
}

/// Whether this server sends a code to a redirect URI.
pub fn is_acceptable_redirect_uri(uri: &str) -> (r: bool)
    ensures
        r == acceptable_redirect(uri@),
{
    if holds_char(uri, '#') {
        return false;
    }
    if host(uri, "https://").is_some() {
        return true;
    }
    match host(uri, "http://") {
        Some(h) => same(h, "127.0.0.1") || same(h, "[::1]") || same_ignoring_case(h, "localhost"),
        None => false,
    }
}

/// Every one of the redirect URIs is acceptable.
pub open spec fn acceptable_redirects(uris: Seq<Seq<char>>) -> bool {
    forall|i: int| 0 <= i < uris.len() ==> acceptable_redirect(#[trigger] uris[i])
}

/// Checks every entry: one plain-http entry in a list is the whole
/// interception the rule exists to prevent.
pub fn check_redirect_uris(uris: &Vec<String>) -> (r: std::result::Result<(), RegistrationError>)
    ensures
        r is Ok <==> acceptable_redirects(texts(uris@)),
        r matches Err(e) ==> e is InvalidRedirectUri,
{
    let ghost all = texts(uris@);
    let mut i: usize = 0;
    while i < uris.len()
        invariant
            i <= uris@.len(),
            all == texts(uris@),
            forall|j: int| 0 <= j < i ==> acceptable_redirect(#[trigger] all[j]),
        decreases uris@.len() - i,
    {
        assert(all[i as int] == uris@[i as int]@);
        if !is_acceptable_redirect_uri(&uris[i]) {
            return Err(RegistrationError::InvalidRedirectUri);
        }
        i += 1;
    }
    Ok(())
}

/// The record fits in one reasonable row. The caps are byte counts.
pub open spec fn bounded(client_id: Seq<char>, client_name: Seq<char>, uris: Seq<Seq<char>>) -> bool {
    &&& encode_utf8(client_id).len() <= MAX_URL_BYTES
    &&& fitting(client_name, uris)
}

/// The name and the redirect URIs fit in one reasonable row.
pub open spec fn fitting(client_name: Seq<char>, uris: Seq<Seq<char>>) -> bool {
    &&& encode_utf8(client_name).len() <= MAX_CLIENT_NAME_BYTES
    &&& uris.len() <= MAX_REDIRECT_URIS
    &&& forall|i: int| 0 <= i < uris.len() ==> encode_utf8(#[trigger] uris[i]).len() <= MAX_URL_BYTES
}

fn fit(client_name: &str, uris: &Vec<String>) -> (r: bool)
    ensures
        r == fitting(client_name@, texts(uris@)),
{
    if byte_len(client_name) > MAX_CLIENT_NAME_BYTES || uris.len() > MAX_REDIRECT_URIS {
        return false;
    }
    let ghost all = texts(uris@);
    let mut i: usize = 0;
    while i < uris.len()
        invariant
            i <= uris@.len(),
            all == texts(uris@),
            forall|j: int| 0 <= j < i ==> encode_utf8(#[trigger] all[j]).len() <= MAX_URL_BYTES,
        decreases uris@.len() - i,
    {
        assert(all[i as int] == uris@[i as int]@);
        if byte_len(&uris[i]) > MAX_URL_BYTES {
            return false;
        }
        i += 1;
    }
    true
}

/// Whether one client record fits in one reasonable row.
pub fn within_bounds(record: &ClientRecord) -> (r: bool)
    ensures
        r == bounded(record.client_id@, record.client_name@, texts(record.redirect_uris@)),
{
    byte_len(&record.client_id) <= MAX_URL_BYTES && fit(&record.client_name, &record.redirect_uris)
}

// ---------------------------------------------------------------------------
// Registering
// ---------------------------------------------------------------------------

/// Why a registration request is refused, whatever identifier it gets.
pub open spec fn request_flaw(request: Option<RegistrationRequest>) -> Option<RegistrationFault> {
    match request {
        None => Some(RegistrationFault::InvalidClientMetadata),
        Some(q) => if q.redirect_uris@.len() == 0 {
            Some(RegistrationFault::InvalidClientMetadata)
        } else if !acceptable_redirects(texts(q.redirect_uris@)) {
            Some(RegistrationFault::InvalidRedirectUri)
        } else if !fitting(q.client_name@, texts(q.redirect_uris@)) {
            Some(RegistrationFault::InvalidClientMetadata)
        } else {
            None
        },
    }
}

/// Why a registration request is refused under an identifier.
pub open spec fn request_fault(request: Option<RegistrationRequest>, client_id: Seq<char>) -> Option<
    RegistrationFault,
> {
    match request_flaw(request) {
        Some(why) => Some(why),
        None => if encode_utf8(client_id).len() > MAX_URL_BYTES {
            Some(RegistrationFault::InvalidClientMetadata)
        } else {
            None
        },
    }
}

/// The refusals of client metadata.
pub enum RegistrationFault {
    InvalidClientMetadata,
    InvalidRedirectUri,
    DomainNotAllowed,
    MalformedDocument,
    MetadataMismatch,
}

impl RegistrationFault {
    /// The error says so.
    pub open spec fn is(self, e: RegistrationError) -> bool {
        match self {
            RegistrationFault::InvalidClientMetadata => e is InvalidClientMetadata,
            RegistrationFault::InvalidRedirectUri => e is InvalidRedirectUri,
            RegistrationFault::DomainNotAllowed => e is DomainNotAllowed,
            RegistrationFault::MalformedDocument => e is MalformedDocument,
            RegistrationFault::MetadataMismatch => e is MetadataMismatch,
        }
    }
}

/// The client that a request registers.
pub open spec fn registers(
    before: StoreModel,
    after: StoreModel,
    request: RegistrationRequest,
    client_id: Seq<char>,
    now: i64,
) -> bool {
    let row = after.clients[client_id];
    &&& after == (StoreModel { clients: after.clients, ..before })
    &&& after.clients == before.clients.insert(client_id, row)
    &&& row.client_name@ == request.client_name@
    &&& crate::json::json_texts(row.redirect_uris@) == Some(texts(request.redirect_uris@))
    &&& row.source@ == DCR@
    &&& row.created_us == (if before.clients.contains_key(client_id) {
        before.clients[client_id].created_us
    } else {
        now
    })
    &&& row.last_used_us == now
}

/// The answer to a registration.
pub open spec fn registered(
    r: Registered,
    request: RegistrationRequest,
    client_id: Seq<char>,
    now: i64,
) -> bool {
    &&& r.client_id@ == client_id
    &&& r.client_id_issued_at == whole_seconds(now as int)
    &&& r.client_name@ == request.client_name@
    &&& texts(r.redirect_uris@) == texts(request.redirect_uris@)
    &&& texts(r.grant_types@) == seq!["authorization_code"@, "refresh_token"@]
    &&& texts(r.response_types@) == seq!["code"@]
    &&& r.token_endpoint_auth_method@ == "none"@
}

/// Registers a client under the given identifier. A body that was not client
/// metadata at all arrives as no request.
pub fn register_as(
    store: &mut Store,
    request: Option<RegistrationRequest>,
    client_id: String,
    now_us: i64,
) -> (r: std::result::Result<Registered, RegistrationError>)
    ensures
        match request_fault(request, client_id@) {
            Some(why) => final(store)@ == old(store)@ && (r matches Err(e) && why.is(e)),
            None => registers(old(store)@, final(store)@, request->0, client_id@, now_us) && (r
                matches Ok(a) && registered(a, request->0, client_id@, now_us)),
        },
{
    let request: RegistrationRequest = match request {
        Some(q) => q,
        None => {
            return Err(RegistrationError::InvalidClientMetadata);
        },
    };
    if request.redirect_uris.len() == 0 {
        return Err(RegistrationError::InvalidClientMetadata);
    }
    match check_redirect_uris(&request.redirect_uris) {
        Ok(_) => {},
        Err(e) => {
            return Err(e);
        },
    }
    let record: ClientRecord = ClientRecord {
        client_id,
        client_name: request.client_name,
        redirect_uris: request.redirect_uris,
        source: DCR.to_owned(),
        created_us: now_us,
        last_used_us: now_us,
    };
    if !within_bounds(&record) {
        return Err(RegistrationError::InvalidClientMetadata);
    }
    store.put_client(&record);
    assert(store@.clients =~= old(store)@.clients.insert(
        record.client_id@,
        store@.clients[record.client_id@],
    ));
    Ok(
        Registered {
            client_id: record.client_id,
            client_id_issued_at: seconds_of(now_us),
            client_name: record.client_name,
            redirect_uris: record.redirect_uris,
            grant_types: two("authorization_code", "refresh_token"),
            response_types: one("code"),
            token_endpoint_auth_method: "none",
        },
    )
}

/// What registering a client under an identifier of this server's own gives: the
/// refusal that the request earns, and otherwise a client under a fresh random
/// identifier. Where no identifier can be drawn, nothing happens.
pub open spec fn registration_made(
    before: StoreModel,
    after: StoreModel,
    request: Option<RegistrationRequest>,
    now: i64,
    r: std::result::Result<Registered, RegistrationError>,
) -> bool {
    match request_flaw(request) {
        Some(why) => after == before && (r matches Err(e) && why.is(e)),
        None => match r {
            Ok(a) => {
                &&& is_token(a.client_id@)
                &&& registers(before, after, request->0, a.client_id@, now)
                &&& registered(a, request->0, a.client_id@, now)
            },
            Err(e) => after == before && (e matches RegistrationError::Store(StoreError::Random)),
        },
    }
}

/// Holds a request to what can be told before it has an identifier.
fn check_request(request: &Option<RegistrationRequest>) -> (r: std::result::Result<(), RegistrationError>)
    ensures
        match request_flaw(*request) {
            Some(why) => r matches Err(e) && why.is(e),
            None => r is Ok,
        },
{
    match request {
        None => Err(RegistrationError::InvalidClientMetadata),
        Some(q) => {
            if q.redirect_uris.len() == 0 {
                return Err(RegistrationError::InvalidClientMetadata);
            }
            match check_redirect_uris(&q.redirect_uris) {
                Ok(_) => {},
                Err(e) => {
                    return Err(e);
                },
            }
            if fit(&q.client_name, &q.redirect_uris) {
                Ok(())
            } else {
                Err(RegistrationError::InvalidClientMetadata)
            }
        },
    }
}

/// Registers a client under an identifier that this server issues.
pub fn register(store: &mut Store, request: Option<RegistrationRequest>, now_us: i64) -> (r:
    std::result::Result<Registered, RegistrationError>)
    ensures
        registration_made(old(store)@, final(store)@, request, now_us, r),
{
    match check_request(&request) {
        Ok(_) => {},
        Err(e) => {
            return Err(e);
        },
    }
    match new_token() {
        Some(client_id) => {
            proof {
                is_ascii_chars_encode_utf8(client_id@);
            }
            register_as(store, request, client_id, now_us)
        },
        None => Err(RegistrationError::Store(StoreError::Random)),
    }
}

// ---------------------------------------------------------------------------
// Metadata documents
// ---------------------------------------------------------------------------

/// The host is on the list: as a whole host, whatever the case of its letters.
pub open spec fn domain_allowed(host: Seq<char>, allowed: Seq<Seq<char>>) -> bool {
    exists|i: int| 0 <= i < allowed.len() && lowered(#[trigger] allowed[i]) == lowered(host)
}

/// Why no request is made for a document.
pub open spec fn url_fault(url: Seq<char>, allowed: Seq<Seq<char>>) -> Option<RegistrationFault> {
    match host_of(url, "https://"@) {
        None => Some(RegistrationFault::DomainNotAllowed),
        Some(h) => if !domain_allowed(h, allowed) {
            Some(RegistrationFault::DomainNotAllowed)
        } else if encode_utf8(url).len() > MAX_URL_BYTES {
            Some(RegistrationFault::MalformedDocument)
        } else {
            None
        },
    }
}

/// Checks the URL of a document before it is fetched. The URL arrives from an
/// authorization request, so a fetch before the check would make this server
/// an open proxy.
pub fn check_metadata_url(url: &str, allowed_domains: &Vec<String>) -> (r: std::result::Result<
    (),
    RegistrationError,
>)
    ensures
        match url_fault(url@, texts(allowed_domains@)) {
            Some(why) => r matches Err(e) && why.is(e),
            None => r is Ok,
        },
{
    let host: &str = match host(url, "https://") {
        Some(h) => h,
        None => {
            return Err(RegistrationError::DomainNotAllowed);
        },
    };
    let ghost all = texts(allowed_domains@);
    let mut found: bool = false;
    let mut i: usize = 0;
    while i < allowed_domains.len()
        invariant
            i <= allowed_domains@.len(),
            all == texts(allowed_domains@),
            found == exists|j: int| 0 <= j < i && lowered(#[trigger] all[j]) == lowered(host@),
        decreases allowed_domains@.len() - i,
    {
        assert(all[i as int] == allowed_domains@[i as int]@);
        if same_ignoring_case(&allowed_domains[i], host) {
            found = true;
        }
        i += 1;
    }
    if !found {
        return Err(RegistrationError::DomainNotAllowed);
    }
    if byte_len(url) > MAX_URL_BYTES {
        return Err(RegistrationError::MalformedDocument);
    }
    Ok(())
}

/// Why a document does not describe the client at `url`.
pub open spec fn document_fault(url: Seq<char>, document: Option<MetadataDocument>) -> Option<
    RegistrationFault,
> {
    match document {
        None => Some(RegistrationFault::MalformedDocument),
        Some(d) => if d.client_id@ != url {
            Some(RegistrationFault::MetadataMismatch)
        } else if d.client_name@.len() == 0 || d.redirect_uris@.len() == 0 {
            Some(RegistrationFault::MalformedDocument)
        } else if !acceptable_redirects(texts(d.redirect_uris@)) {
            Some(RegistrationFault::InvalidRedirectUri)
        } else if !bounded(url, d.client_name@, texts(d.redirect_uris@)) {
            Some(RegistrationFault::MalformedDocument)
        } else {
            None
        },
    }
}

/// The record of the client that a document describes.
pub open spec fn documented(c: ClientRecord, d: MetadataDocument, now: i64) -> bool {
    &&& c.client_id@ == d.client_id@
    &&& c.client_name@ == d.client_name@
    &&& texts(c.redirect_uris@) == texts(d.redirect_uris@)
    &&& c.source@ == CIMD@
    &&& c.created_us == now
    &&& c.last_used_us == now
}

/// The client that the document at `url` describes. `client_id` must equal
/// `url` byte for byte: that equality is the whole binding between the
/// identifier a client presents and the metadata this server acts on. A body
/// that was no document arrives as none.
pub fn client_of_document(url: &str, document: Option<MetadataDocument>, now_us: i64) -> (r:
    std::result::Result<ClientRecord, RegistrationError>)
    ensures
        match document_fault(url@, document) {
            Some(why) => r matches Err(e) && why.is(e),
            None => r matches Ok(c) && documented(c, document->0, now_us),
        },
{
    let document: MetadataDocument = match document {
        Some(d) => d,
        None => {
            return Err(RegistrationError::MalformedDocument);
        },
    };
    if !same(&document.client_id, url) {
        return Err(RegistrationError::MetadataMismatch);
    }
    if document.client_name.as_str().is_empty() || document.redirect_uris.len() == 0 {
        return Err(RegistrationError::MalformedDocument);
    }
    match check_redirect_uris(&document.redirect_uris) {
        Ok(_) => {},
        Err(e) => {
            return Err(e);
        },
    }
    let record: ClientRecord = ClientRecord {
        client_id: document.client_id,
        client_name: document.client_name,
        redirect_uris: document.redirect_uris,
        source: CIMD.to_owned(),
        created_us: now_us,
        last_used_us: now_us,
    };
    if !within_bounds(&record) {
        return Err(RegistrationError::MalformedDocument);
    }
    Ok(record)
}

/// Fetches and validates the client identifier metadata document at `url`, and
/// returns the client it describes. `parse` reads the body of the document.
///
/// One entry of `allowed_domains` per host, matched as a whole host and
/// whatever the case of its letters. A subdomain needs its own entry.
pub fn resolve_metadata_document<F: Fetch, P: Fn(String) -> Option<MetadataDocument>>(
    url: &str,
    allowed_domains: &Vec<String>,
    fetch: &F,
    parse: P,
    now_us: i64,
) -> (r: std::result::Result<ClientRecord, RegistrationError>)
    requires
        forall|body: String| call_requires(parse, (body,)),
    ensures
        match url_fault(url@, texts(allowed_domains@)) {
            Some(why) => r matches Err(e) && why.is(e),
            None => {
                ||| exists|w: String|
                    call_ensures(F::get, (fetch, url), Err::<String, String>(w)) && r == Err::<
                        ClientRecord,
                        RegistrationError,
                    >(RegistrationError::Fetch(w))
                ||| exists|body: String, document: Option<MetadataDocument>|
                    {
                        &&& call_ensures(F::get, (fetch, url), Ok::<String, String>(body))
                        &&& #[trigger] call_ensures(parse, (body,), document)
                        &&& match document_fault(url@, document) {
                            Some(why) => r matches Err(e) && why.is(e),
                            None => r matches Ok(c) && documented(c, document->0, now_us),
                        }
                    }
            },
        },
{
    match check_metadata_url(url, allowed_domains) {
        Ok(_) => {},
        Err(e) => {
            return Err(e);
        },
    }
    match fetch.get(url) {
        Ok(body) => {
            let document: Option<MetadataDocument> = parse(body);
            client_of_document(url, document, now_us)
        },
        Err(w) => Err(RegistrationError::Fetch(w)),
    }
}

/// The host of an address is what stands between the scheme and the port or the
/// path, if there are any.
pub proof fn law_a_host_is_found(scheme: Seq<char>, name: Seq<char>, port: Seq<char>, tail: Seq<char>)
    requires
        name.len() > 0,
        forall|i: int|
            0 <= i < name.len() ==> !ends_authority(#[trigger] name[i]) && name[i] != '@' && name[i] != ':',
        port.len() > 0,
        forall|i: int| 0 <= i < port.len() ==> digit(#[trigger] port[i]),
        tail.len() == 0 || tail[0] == '/' || tail[0] == '?' || tail[0] == '#',
    ensures
        host_of(scheme + name + tail, scheme) == Some(name),
        host_of(scheme + name + seq![':'] + port + tail, scheme) == Some(name),
{
    lemma_authority(name, tail);
    let plain = scheme + name + tail;
    assert(scheme.is_prefix_of(plain));
    assert(plain.skip(scheme.len() as int) =~= name + tail);
    assert((name + tail).take(name.len() as int) =~= name);
    assert(!name.contains('@'));
    assert forall|i: int| !last_colon(name, i) by {}
    assert(without_port(name) == name);
    let full = name + seq![':'] + port;
    let with_port = scheme + name + seq![':'] + port + tail;
    assert forall|i: int| 0 <= i < full.len() implies !ends_authority(#[trigger] full[i]) && full[i] != '@' by {
        if i < name.len() {
            assert(full[i] == name[i]);
        } else if i > name.len() {
            assert(full[i] == port[i - name.len() - 1]);
        }
    }
    lemma_authority(full, tail);
    assert(scheme.is_prefix_of(with_port));
    assert(with_port.skip(scheme.len() as int) =~= full + tail);
    assert((full + tail).take(full.len() as int) =~= full);
    assert(!full.contains('@'));
    let at = name.len() as int;
    assert forall|j: int| at < j < full.len() implies #[trigger] full[j] != ':' by {
        assert(full[j] == port[j - at - 1]);
    }
    assert(last_colon(full, at));
    let i = choose|i: int| last_colon(full, i);
    assert(i == at) by {
        if i < at {
            assert(full[at] == ':');
        }
    }
    assert(full.skip(at + 1) =~= port);
    assert(full.take(at) =~= name);
}

/// An address that names a user, has no host, or is of another scheme has no host
/// that counts.
pub proof fn law_a_user_is_refused(scheme: Seq<char>, authority: Seq<char>, tail: Seq<char>, url: Seq<char>)
    requires
        forall|i: int| 0 <= i < authority.len() ==> !ends_authority(#[trigger] authority[i]),
        tail.len() == 0 || tail[0] == '/' || tail[0] == '?' || tail[0] == '#',
    ensures
        authority.contains('@') || authority.len() == 0 ==> host_of(scheme + authority + tail, scheme) is None,
        !scheme.is_prefix_of(url) ==> host_of(url, scheme) is None,
{
    lemma_authority(authority, tail);
    let plain = scheme + authority + tail;
    assert(plain.skip(scheme.len() as int) =~= authority + tail);
    assert((authority + tail).take(authority.len() as int) =~= authority);
    if authority.len() == 0 {
        assert forall|i: int| !last_colon(authority, i) by {}
        assert(without_port(authority) == authority);
    }
}

proof fn lemma_authority(a: Seq<char>, tail: Seq<char>)
    requires
        forall|i: int| 0 <= i < a.len() ==> !ends_authority(#[trigger] a[i]),
        tail.len() == 0 || ends_authority(tail[0]),
    ensures
        authority_len(a + tail) == a.len(),
    decreases a.len(),
{
    let s = a + tail;
    if a.len() == 0 {
        assert(s =~= tail);
    } else {
        assert(s[0] == a[0]);
        assert(s.skip(1) =~= a.skip(1) + tail);
        assert forall|i: int| 0 <= i < a.skip(1).len() implies !ends_authority(#[trigger] a.skip(1)[i]) by {
            assert(a.skip(1)[i] == a[i + 1]);
        }
        lemma_authority(a.skip(1), tail);
    }
}

/// A code goes to any https host and to this machine over http, by each of its
/// three names; over http to nowhere else, and nowhere at all with a fragment.
pub proof fn law_where_a_code_may_go(uri: Seq<char>)
    ensures
        host_of(uri, "https://"@) is Some && !uri.contains('#') ==> acceptable_redirect(uri),
        (host_of(uri, "http://"@) == Some("127.0.0.1"@) || host_of(uri, "http://"@) == Some("[::1]"@) || host_of(
            uri,
            "http://"@,
        ) == Some("localhost"@)) && !uri.contains('#') ==> acceptable_redirect(uri),
        uri.contains('#') ==> !acceptable_redirect(uri),
        host_of(uri, "https://"@) is None && host_of(uri, "http://"@) is None ==> !acceptable_redirect(uri),
        (host_of(uri, "http://"@) matches Some(h) && host_of(uri, "https://"@) is None && h != "127.0.0.1"@ && h
            != "[::1]"@ && h.len() != 9) ==> !acceptable_redirect(uri),
{
    if let Some(h) = host_of(uri, "http://"@) {
        reveal_strlit("localhost");
        assert(lowered(h).len() == h.len());
        assert(lowered("localhost"@).len() == 9);
    }
}

/// A registration is accepted exactly where it names one to eight redirect URIs,
/// each of them one that a code may go to and of at most 2048 bytes, under a name
/// of at most 256 bytes: one bad address among good ones is enough to refuse it.
pub proof fn law_which_registrations_are_accepted(q: RegistrationRequest, k: int)
    ensures
        request_flaw(Some(q)) is None <==> {
            &&& 1 <= q.redirect_uris@.len() <= 8
            &&& encode_utf8(q.client_name@).len() <= 256
            &&& forall|i: int|
                0 <= i < q.redirect_uris@.len() ==> acceptable_redirect((#[trigger] q.redirect_uris@[i])@)
                    && encode_utf8(q.redirect_uris@[i]@).len() <= 2048
        },
        0 <= k < q.redirect_uris@.len() && !acceptable_redirect(q.redirect_uris@[k]@) ==> request_flaw(Some(q))
            == Some(RegistrationFault::InvalidRedirectUri),
        request_flaw(None) == Some(RegistrationFault::InvalidClientMetadata),
{
    let uris = texts(q.redirect_uris@);
    assert(uris.len() == q.redirect_uris@.len());
    assert forall|i: int| 0 <= i < uris.len() implies uris[i] == (#[trigger] q.redirect_uris@[i])@ by {}
    if request_flaw(Some(q)) is None {
        assert forall|i: int| 0 <= i < q.redirect_uris@.len() implies acceptable_redirect(
            (#[trigger] q.redirect_uris@[i])@,
        ) && encode_utf8(q.redirect_uris@[i]@).len() <= 2048 by {
            assert(uris[i] == q.redirect_uris@[i]@);
        }
    }
    if forall|i: int|
        0 <= i < q.redirect_uris@.len() ==> acceptable_redirect((#[trigger] q.redirect_uris@[i])@)
            && encode_utf8(q.redirect_uris@[i]@).len() <= 2048 {
        assert forall|i: int| 0 <= i < uris.len() implies acceptable_redirect(#[trigger] uris[i])
            && encode_utf8(uris[i]).len() <= 2048 by {
            assert(uris[i] == q.redirect_uris@[i]@);
        }
    }
    if 0 <= k < q.redirect_uris@.len() && !acceptable_redirect(q.redirect_uris@[k]@) {
        assert(!acceptable_redirect(uris[k]));
    }
}

/// An accepted registration is kept: the client is known under the identifier
/// that it is told, by its name and with every redirect URI it named, and whoever
/// was known before still is.
pub proof fn law_a_registered_client_is_known(
    before: StoreModel,
    after: StoreModel,
    q: RegistrationRequest,
    now: i64,
    r: std::result::Result<Registered, RegistrationError>,
    other: Seq<char>,
)
    requires
        registration_made(before, after, Some(q), now, r),
        request_flaw(Some(q)) is None,
    ensures
        r matches Err(e) ==> e is Store && after == before,
        r matches Ok(a) ==> {
            &&& after.clients.contains_key(a.client_id@)
            &&& after.clients[a.client_id@].client_name@ == q.client_name@ && a.client_name@ == q.client_name@
            &&& crate::json::json_texts(after.clients[a.client_id@].redirect_uris@) == Some(
                texts(q.redirect_uris@),
            )
            &&& texts(a.redirect_uris@) == texts(q.redirect_uris@)
            &&& after.clients[a.client_id@].last_used_us == now
            &&& other != a.client_id@ && before.clients.contains_key(other) ==> after.clients.contains_key(other)
                && after.clients[other] == before.clients[other]
            &&& after.tokens == before.tokens && after.codes == before.codes && after.logins == before.logins
        },
{
}

/// A document is fetched from any host of the list, wherever in the list it stands
/// and however its letters are written, and from no other.
pub proof fn law_every_listed_domain_is_allowed(url: Seq<char>, allowed: Seq<Seq<char>>, k: int)
    ensures
        0 <= k < allowed.len() && encode_utf8(url).len() <= 2048 && (host_of(url, "https://"@) matches Some(h)
            && lowered(h) == lowered(allowed[k])) ==> url_fault(url, allowed) is None,
        url_fault(url, allowed) is None ==> (host_of(url, "https://"@) matches Some(h) && exists|i: int|
            0 <= i < allowed.len() && lowered(#[trigger] allowed[i]) == lowered(h)),
        url_fault(url, Seq::empty()) is Some,
{
}

/// A document describes its client exactly where it names its own address, a name
/// and one to eight redirect URIs that a code may go to, all within the limits.
pub proof fn law_which_documents_are_accepted(url: Seq<char>, d: MetadataDocument)
    ensures
        document_fault(url, Some(d)) is None <==> {
            &&& d.client_id@ == url
            &&& d.client_name@.len() > 0
            &&& 1 <= d.redirect_uris@.len() <= 8
            &&& encode_utf8(url).len() <= 2048
            &&& encode_utf8(d.client_name@).len() <= 256
            &&& forall|i: int|
                0 <= i < d.redirect_uris@.len() ==> acceptable_redirect((#[trigger] d.redirect_uris@[i])@)
                    && encode_utf8(d.redirect_uris@[i]@).len() <= 2048
        },
        document_fault(url, None) is Some,
{
    let q = RegistrationRequest { client_name: d.client_name, redirect_uris: d.redirect_uris };
    law_which_registrations_are_accepted(q, 0);
}

} // verus!
