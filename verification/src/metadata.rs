//! The two discovery documents this server publishes.
//!
//! Both are functions of the canonical public URL and the advertised scopes.
//! The URL comes from the configuration, never from a request, so a request
//! cannot move the resource identifier or the issuer.
use vstd::prelude::*;

use crate::text::{copy_texts, texts};

verus! {

/// Protected resource metadata.
#[derive(Debug)]
pub struct ProtectedResource {
    pub resource: String,
    pub authorization_servers: Vec<String>,
    pub scopes_supported: Vec<String>,
    pub bearer_methods_supported: Vec<String>,
}

/// Authorization server metadata.
#[derive(Debug)]
pub struct AuthorizationServer {
    pub issuer: String,
    pub authorization_endpoint: String,
    pub token_endpoint: String,
    pub registration_endpoint: String,
    pub revocation_endpoint: String,
    pub response_types_supported: Vec<String>,
    pub grant_types_supported: Vec<String>,
    pub code_challenge_methods_supported: Vec<String>,
    pub token_endpoint_auth_methods_supported: Vec<String>,
    pub client_id_metadata_document_supported: bool,
    pub authorization_response_iss_parameter_supported: bool,
    pub scopes_supported: Vec<String>,
}

/// The list of one text.
pub(crate) fn one(a: &str) -> (r: Vec<String>)
    ensures
        texts(r@) == seq![a@],
{
    let mut v: Vec<String> = Vec::new();
    v.push(a.to_owned());
    assert(texts(v@) =~= seq![a@]);
    v
}

/// The list of two texts.
pub(crate) fn two(a: &str, b: &str) -> (r: Vec<String>)
    ensures
        texts(r@) == seq![a@, b@],
{
    let mut v: Vec<String> = Vec::new();
    v.push(a.to_owned());
    v.push(b.to_owned());
    assert(texts(v@) =~= seq![a@, b@]);
    v
}

/// The metadata of the resource that `resource` identifies, which the caller
/// derives from the request. `authorization_server` is the issuer identifier
/// and carries no trailing slash.
pub fn protected_resource(resource: &str, authorization_server: &str, scopes: &Vec<String>) -> (r:
    ProtectedResource)
    ensures
        r.resource@ == resource@,
        texts(r.authorization_servers@) == seq![authorization_server@],
        texts(r.scopes_supported@) == texts(scopes@),
        texts(r.bearer_methods_supported@) == seq!["header"@],
{
    ProtectedResource {
        resource: resource.to_owned(),
        authorization_servers: one(authorization_server),
        scopes_supported: copy_texts(scopes),
        bearer_methods_supported: one("header"),
    }
}

impl AuthorizationServer {
    /// The document describes the authorization server at that URL.
    pub open spec fn describes(self, public_url: Seq<char>, scopes: Seq<Seq<char>>) -> bool {
        &&& self.issuer@ == public_url
        &&& self.authorization_endpoint@ == public_url + "/oauth/authorize"@
        &&& self.token_endpoint@ == public_url + "/oauth/token"@
        &&& self.registration_endpoint@ == public_url + "/oauth/register"@
        &&& self.revocation_endpoint@ == public_url + "/oauth/revoke"@
        &&& texts(self.response_types_supported@) == seq!["code"@]
        &&& texts(self.grant_types_supported@) == seq!["authorization_code"@, "refresh_token"@]
        &&& texts(self.code_challenge_methods_supported@) == seq!["S256"@]
        &&& texts(self.token_endpoint_auth_methods_supported@) == seq!["none"@]
        &&& self.client_id_metadata_document_supported
        &&& self.authorization_response_iss_parameter_supported
        &&& texts(self.scopes_supported@) == scopes
    }
}

/// The metadata of this server as an authorization server.
pub fn authorization_server(public_url: &str, scopes: &Vec<String>) -> (r: AuthorizationServer)
    ensures
        r.describes(public_url@, texts(scopes@)),
{
    AuthorizationServer {
        issuer: public_url.to_owned(),
        authorization_endpoint: public_url.to_owned().concat("/oauth/authorize"),
        token_endpoint: public_url.to_owned().concat("/oauth/token"),
        registration_endpoint: public_url.to_owned().concat("/oauth/register"),
        revocation_endpoint: public_url.to_owned().concat("/oauth/revoke"),
        response_types_supported: one("code"),
        grant_types_supported: two("authorization_code", "refresh_token"),
        code_challenge_methods_supported: one("S256"),
        token_endpoint_auth_methods_supported: one("none"),
        client_id_metadata_document_supported: true,
        authorization_response_iss_parameter_supported: true,
        scopes_supported: copy_texts(scopes),
    }
}

/// A server is described at its own address: it is its own issuer, and every
/// endpoint of it stands below.
pub proof fn law_a_server_is_described_at_its_address(
    d: AuthorizationServer,
    public_url: Seq<char>,
    scopes: Seq<Seq<char>>,
)
    requires
        d.describes(public_url, scopes),
    ensures
        d.issuer@ == public_url,
        d.authorization_endpoint@ == public_url + "/oauth/authorize"@,
        d.token_endpoint@ == public_url + "/oauth/token"@,
        d.registration_endpoint@ == public_url + "/oauth/register"@,
        d.revocation_endpoint@ == public_url + "/oauth/revoke"@,
        texts(d.scopes_supported@) == scopes,
        texts(d.code_challenge_methods_supported@) == seq!["S256"@],
        texts(d.grant_types_supported@).contains("authorization_code"@),
        texts(d.grant_types_supported@).contains("refresh_token"@),
{
    assert(texts(d.grant_types_supported@)[0] == "authorization_code"@);
    assert(texts(d.grant_types_supported@)[1] == "refresh_token"@);
}

} // verus!
