//! Who is calling, and what they may call.
//!
//! Scopes are the slugs of the tool categories. What a request may do is what
//! both the process and the credential allow.
use vstd::prelude::*;

use crate::crypto;
use crate::crypto::sha256;
use crate::errors::{invalid, MCSError, Result};
use crate::mutation;
use crate::mutation::{is_plain_label, MutationContext};
use crate::oauth_routes::OauthState;
use crate::order::TextSet;
use crate::store::GrantData;
use crate::text::{chars_of, starts_with, text_of};
use crate::token::worth;
use crate::tools;
use crate::tools::{scope_of, ToolCategory};

verus! {

#[derive(Clone, Copy, Debug, PartialEq, Eq, Structural)]
pub enum PrincipalKind {
    Machine,
    Human,
}

/// Who is calling, with the scopes that the credential grants.
pub struct Principal {
    pub id: String,
    pub kind: PrincipalKind,
    pub scopes: TextSet,
    pub allowed_origins: TextSet,
}

/// Tells who presents a credential.
pub trait CredentialAuthenticator {
    fn authenticate(&self, credential: &str) -> Result<Principal>;
}

/// The slugs of the categories.
pub open spec fn slugs(scopes: Seq<ToolCategory>) -> Set<Seq<char>> {
    Set::new(|s: Seq<char>| exists|i: int| 0 <= i < scopes.len() && s == (#[trigger] scopes[i]).spelled())
}

fn principal_with(id: &str, scopes: &Vec<ToolCategory>) -> (r: Principal)
    ensures
        r.id@ == id@,
        r.kind == PrincipalKind::Machine,
        r.scopes@ == slugs(scopes@),
        r.allowed_origins@ == Set::<Seq<char>>::empty(),
{
    let mut set: TextSet = TextSet::new();
    let mut i: usize = 0;
    assert(set@ =~= slugs(scopes@.take(0)));
    while i < scopes.len()
        invariant
            i <= scopes@.len(),
            set@ == slugs(scopes@.take(i as int)),
        decreases scopes@.len() - i,
    {
        let ghost before = scopes@.take(i as int);
        let ghost after = scopes@.take(i + 1);
        set.insert(scopes[i].slug());
        assert(set@ =~= slugs(after)) by {
            assert forall|s: Seq<char>| slugs(before).insert(scopes@[i as int].spelled()).contains(s)
                implies slugs(after).contains(s) by {
                if s == scopes@[i as int].spelled() {
                    assert(after[i as int].spelled() == s);
                } else {
                    let k = choose|k: int| 0 <= k < before.len() && s == (#[trigger] before[k]).spelled();
                    assert(after[k].spelled() == s);
                }
            }
            assert forall|s: Seq<char>| slugs(after).contains(s) implies slugs(before).insert(
                scopes@[i as int].spelled(),
            ).contains(s) by {
                let k = choose|k: int| 0 <= k < after.len() && s == (#[trigger] after[k]).spelled();
                if k < i {
                    assert(before[k].spelled() == s);
                }
            }
        }
        i += 1;
    }
    assert(scopes@.take(scopes@.len() as int) =~= scopes@);
    Principal {
        id: id.to_owned(),
        kind: PrincipalKind::Machine,
        scopes: set,
        allowed_origins: TextSet::new(),
    }
}

impl Principal {
    /// The caller on standard input.
    pub open spec fn is_local(self) -> bool {
        &&& self.id@ == "local"@
        &&& self.kind == PrincipalKind::Machine
        &&& forall|c: ToolCategory| self.scopes@.contains(#[trigger] c.spelled())
        &&& forall|s: Seq<char>|
            self.scopes@.contains(s) ==> exists|c: ToolCategory| s == #[trigger] c.spelled()
        &&& self.allowed_origins@ == Set::<Seq<char>>::empty()
    }

    /// The holder of the static bearer token.
    pub open spec fn is_static(self, scopes: Seq<ToolCategory>) -> bool {
        &&& self.id@ == "static"@
        &&& self.kind == PrincipalKind::Machine
        &&& self.scopes@ == slugs(scopes)
        &&& self.allowed_origins@ == Set::<Seq<char>>::empty()
    }

    /// A human with the scopes of a grant.
    pub open spec fn is_human(self, g: GrantData) -> bool {
        &&& self.id@ == g.principal
        &&& self.kind == PrincipalKind::Human
        &&& self.scopes@ == g.scopes.to_set()
        &&& self.allowed_origins@ == Set::<Seq<char>>::empty()
    }
}

/// The caller on standard input. It is local and unauthenticated, so it holds
/// every scope of a tool.
pub fn local_principal() -> (r: Principal)
    ensures
        r.is_local(),
{
    let all: Vec<ToolCategory> = ToolCategory::all();
    let r: Principal = principal_with("local", &all);
    assert forall|c: ToolCategory| r.scopes@.contains(#[trigger] c.spelled()) by {
        let i: int = match c {
            ToolCategory::GraphRead => 0,
            ToolCategory::GraphWrite => 1,
            ToolCategory::Vectors => 2,
            ToolCategory::Code => 3,
        };
        assert(all@[i] == c);
    }
    r
}

/// The principal behind the static bearer token, with operator-chosen scopes.
pub fn bearer_principal(scopes: &Vec<ToolCategory>) -> (r: Principal)
    ensures
        r.is_static(scopes@),
{
    principal_with("static", scopes)
}

/// A principal with the scopes that a human approved.
pub fn oauth_principal(id: &str, scopes: TextSet) -> (r: Principal)
    ensures
        r.id@ == id@,
        r.kind == PrincipalKind::Human,
        r.scopes == scopes,
        r.allowed_origins@ == Set::<Seq<char>>::empty(),
{
    Principal {
        id: id.to_owned(),
        kind: PrincipalKind::Human,
        scopes,
        allowed_origins: TextSet::new(),
    }
}

/// The scope that the tool needs and the caller lacks. A name that is no tool
/// needs none.
pub open spec fn lacks(scopes: Set<Seq<char>>, tool: Seq<char>) -> Option<Seq<char>> {
    match tools::category(tool) {
        Some(c) => if scopes.contains(c.spelled()) {
            None
        } else {
            Some(c.spelled())
        },
        None => None,
    }
}

/// The scope that the tool needs and the principal lacks.
pub fn missing_scope(principal: &Principal, tool: &str) -> (r: Option<&'static str>)
    ensures
        match r {
            Some(s) => lacks(principal.scopes@, tool@) == Some(s@),
            None => lacks(principal.scopes@, tool@) is None,
        },
{
    match scope_of(tool) {
        Some(s) => if principal.scopes.contains(s) {
            None
        } else {
            Some(s)
        },
        None => None,
    }
}

/// Whether the name is that of a tool and the principal holds its scope.
pub fn allows_tool(principal: &Principal, tool: &str) -> (r: bool)
    ensures
        r == (tools::category(tool@) matches Some(c) && principal.scopes@.contains(c.spelled())),
{
    scope_of(tool).is_some() && missing_scope(principal, tool).is_none()
}

/// A principal with more scopes may call everything that one with fewer may.
pub proof fn law_more_scopes_allow_more(fewer: Set<Seq<char>>, more: Set<Seq<char>>, tool: Seq<char>)
    requires
        fewer.subset_of(more),
    ensures
        lacks(fewer, tool) is None ==> lacks(more, tool) is None,
{
}

// ---------------------------------------------------------------------------
// Who calls over HTTP
// ---------------------------------------------------------------------------

/// The token that an authorization header presents.
pub open spec fn presented(authorization: Option<&str>) -> Option<Seq<char>> {
    match authorization {
        Some(h) => if "Bearer "@.is_prefix_of(h@) {
            Some(h@.skip("Bearer "@.len() as int))
        } else {
            None
        },
        None => None,
    }
}

/// Who a caller is taken for.
pub enum Caller {
    Local,
    Static,
    Human(GrantData),
    Nobody,
}

/// Who a caller is taken for: the holder of the static token, or of a token that
/// this server issued for its resource. Where neither kind is configured, callers
/// are trusted as they are on standard input.
pub open spec fn taken_for(
    authorization: Option<&str>,
    auth_token: Option<String>,
    oauth: Option<&OauthState>,
    now: int,
) -> Caller {
    if auth_token is None && oauth is None {
        Caller::Local
    } else {
        match presented(authorization) {
            None => Caller::Nobody,
            Some(t) => if auth_token is Some && crypto::digest_of(t) == crypto::digest_of(auth_token->0@) {
                Caller::Static
            } else {
                match oauth {
                    Some(o) => match worth(o.store@, t, o.resource_id(), now) {
                        Some(g) => Caller::Human(g),
                        None => Caller::Nobody,
                    },
                    None => Caller::Nobody,
                }
            },
        }
    }
}

/// Who is calling.
pub fn caller(
    authorization: Option<&str>,
    auth_token: &Option<String>,
    bearer_scopes: &Vec<ToolCategory>,
    oauth: Option<&OauthState>,
    now_us: i64,
) -> (r: Option<Principal>)
    ensures
        match taken_for(authorization, *auth_token, oauth, now_us as int) {
            Caller::Local => r matches Some(p) && p.is_local(),
            Caller::Static => r matches Some(p) && p.is_static(bearer_scopes@),
            Caller::Human(g) => r matches Some(p) && p.is_human(g),
            Caller::Nobody => r is None,
        },
{
    if auth_token.is_none() && oauth.is_none() {
        return Some(local_principal());
    }
    let header: &str = match authorization {
        Some(h) => h,
        None => {
            return None;
        },
    };
    if !starts_with(header, "Bearer ") {
        return None;
    }
    let prefix: usize = chars_of("Bearer ").len();
    let token: String = text_of(
        vstd::slice::slice_subrange(chars_of(header).as_slice(), prefix, chars_of(header).len()),
    );
    assert(token@ =~= header@.skip(prefix as int));
    if let Some(expected) = auth_token {
        if crypto::digest_eq(&crypto::digest(&token), &crypto::digest(expected)) {
            return Some(bearer_principal(bearer_scopes));
        }
    }
    let state: &OauthState = match oauth {
        Some(o) => o,
        None => {
            return None;
        },
    };
    match state.validate(&token, now_us) {
        Some(grant) => Some(oauth_principal(&grant.principal, TextSet::from_list(&grant.scopes))),
        None => None,
    }
}

/// How a request to work on repositories is received.
#[derive(Clone, Copy, Debug, PartialEq, Eq, Structural)]
pub enum Access {
    Granted,
    /// The server offers no such thing.
    Absent,
    /// Nobody is known to ask.
    Unauthorized,
    /// The caller lacks the scope.
    Forbidden,
}

/// How a request to work on repositories is received, from a server that offers
/// these categories.
pub fn repository_access(categories: &Vec<ToolCategory>, caller: &Option<Principal>) -> (r: Access)
    ensures
        r == (if !categories@.contains(ToolCategory::Code) {
            Access::Absent
        } else {
            match *caller {
                None => Access::Unauthorized,
                Some(p) => if tools::category("code_index"@) matches Some(c) && p.scopes@.contains(
                    c.spelled(),
                ) {
                    Access::Granted
                } else {
                    Access::Forbidden
                },
            }
        }),
{
    let mut offered: bool = false;
    let mut i: usize = 0;
    while i < categories.len()
        invariant
            i <= categories@.len(),
            offered == exists|j: int| 0 <= j < i && #[trigger] categories@[j] == ToolCategory::Code,
        decreases categories@.len() - i,
    {
        if categories[i] == ToolCategory::Code {
            offered = true;
        }
        i += 1;
    }
    assert(offered == categories@.contains(ToolCategory::Code));
    if !offered {
        return Access::Absent;
    }
    match caller {
        None => Access::Unauthorized,
        Some(p) => if allows_tool(p, "code_index") {
            Access::Granted
        } else {
            Access::Forbidden
        },
    }
}

// ---------------------------------------------------------------------------
// Machine ingress
// ---------------------------------------------------------------------------

/// The bytes whose digest tells one request from another.
pub open spec fn framed(method: Seq<char>, path: Seq<char>, body: Seq<u8>) -> Seq<u8> {
    vstd::utf8::encode_utf8(method) + seq![10u8] + vstd::utf8::encode_utf8(path) + seq![10u8] + body
}

fn append_bytes(out: &mut Vec<u8>, bytes: &[u8])
    ensures
        final(out)@ == old(out)@ + bytes@,
{
    let ghost start = out@;
    let mut i: usize = 0;
    while i < bytes.len()
        invariant
            i <= bytes@.len(),
            out@ == start + bytes@.take(i as int),
        decreases bytes@.len() - i,
    {
        out.push(bytes[i]);
        assert(out@ =~= start + bytes@.take(i + 1));
        i += 1;
    }
    assert(bytes@.take(bytes@.len() as int) =~= bytes@);
}

/// The digest of a request: of its method, its path and its body.
pub fn request_fingerprint(method: &str, path: &str, body: &[u8]) -> (r: String)
    ensures
        r@ == crypto::hex(crypto::sha256_of(framed(method@, path@, body@))),
{
    let mut bytes: Vec<u8> = Vec::new();
    append_bytes(&mut bytes, method.as_bytes());
    bytes.push(10);
    append_bytes(&mut bytes, path.as_bytes());
    bytes.push(10);
    append_bytes(&mut bytes, body);
    assert(bytes@ =~= framed(method@, path@, body@));
    sha256(&bytes)
}

/// The principal may change the memory from the origin.
pub open spec fn may_write(p: Principal, origin: Seq<char>) -> bool {
    &&& mutation::plain_label(p.id@)
    &&& p.kind == PrincipalKind::Machine
    &&& p.scopes@.contains("memory:write"@)
    &&& p.allowed_origins@.contains(origin)
}

/// The provenance of a machine's mutation, with the fingerprint of the
/// request that asks for it.
pub fn machine_mutation_context(
    principal: &Principal,
    origin: &str,
    idempotency_key: String,
    correlation_id: u128,
    causation_id: Option<u128>,
    hop_count: u8,
    raw_body: &[u8],
) -> (r: Result<(MutationContext, String)>)
    ensures
        !may_write(*principal, origin@) ==> (r matches Err(MCSError::InvalidParams(m)) && m@
            == "machine principal is not authorized for this origin"@),
        may_write(*principal, origin@) && r is Err ==> (r matches Err(MCSError::InvalidParams(m)) && m@
            == "Invalid mutation provenance"@),
        match r {
            Ok((context, print)) => {
                &&& may_write(*principal, origin@)
                &&& context.valid()
                &&& context.actor@ == principal.id@
                &&& context.origin@ == origin@
                &&& context.correlation_id == correlation_id
                &&& context.causation_id == causation_id
                &&& context.hop_count == hop_count
                &&& context.idempotency_key == Some(idempotency_key)
                &&& print@ == crypto::hex(
                    crypto::sha256_of(framed("POST"@, "/api/v1/mutations"@, raw_body@)),
                )
            },
            Err(_) => !may_write(*principal, origin@) || !mutation::plain_label(origin@)
                || correlation_id == 0 || hop_count > 15 || causation_id == Some(0u128) || (hop_count > 0)
                != (causation_id is Some) || !mutation::plain_key(idempotency_key@),
        },
{
    if !is_plain_label(&principal.id) || principal.kind != PrincipalKind::Machine
        || !principal.scopes.contains("memory:write") || !principal.allowed_origins.contains(origin) {
        return Err(invalid("machine principal is not authorized for this origin"));
    }
    let context: MutationContext = MutationContext {
        actor: principal.id.clone(),
        origin: origin.to_owned(),
        correlation_id,
        causation_id,
        hop_count,
        idempotency_key: Some(idempotency_key),
    };
    match context.validate() {
        Ok(context) => Ok(
            (context, request_fingerprint("POST", "/api/v1/mutations", raw_body)),
        ),
        Err(e) => Err(e),
    }
}

/// The static token grants every category of its list, wherever it stands there,
/// and no other.
pub proof fn law_every_listed_category_is_granted(scopes: Seq<ToolCategory>, c: ToolCategory)
    ensures
        slugs(scopes).contains(c.spelled()) <==> scopes.contains(c),
        forall|s: Seq<char>|
            slugs(scopes).contains(s) ==> exists|i: int| 0 <= i < scopes.len() && s == (#[trigger] scopes[i]).spelled(),
{
    if slugs(scopes).contains(c.spelled()) {
        let i = choose|i: int| 0 <= i < scopes.len() && c.spelled() == (#[trigger] scopes[i]).spelled();
        tools::law_spellings_differ(c, scopes[i]);
    }
    if scopes.contains(c) {
        let i = scopes.index_of(c);
        assert(scopes[i].spelled() == c.spelled());
    }
}

/// A tool is open to whoever holds the scope of its category, and closed to
/// whoever does not; a name that is no tool needs no scope.
pub proof fn law_a_tool_is_open_to_its_scope(scopes: Set<Seq<char>>, tool: Seq<char>)
    ensures
        match tools::category(tool) {
            Some(c) => (lacks(scopes, tool) is None <==> scopes.contains(c.spelled())) && (lacks(scopes, tool)
                matches Some(s) ==> s == c.spelled() && lacks(scopes.insert(s), tool) is None),
            None => lacks(scopes, tool) is None,
        },
{
}

/// Whoever presents the static token is taken for its holder; whoever presents
/// another that this server issued, for its human; and whoever presents neither,
/// for nobody. Callers are local exactly where nothing is configured.
pub proof fn law_a_token_names_its_holder(
    authorization: Option<&str>,
    token: Seq<char>,
    auth_token: Option<String>,
    oauth: Option<&OauthState>,
    now: int,
)
    ensures
        auth_token is None && oauth is None <==> taken_for(authorization, auth_token, oauth, now) is Local,
        (authorization matches Some(h) && h@ == "Bearer "@ + token) ==> {
            &&& (auth_token matches Some(a) && a@ == token) ==> taken_for(authorization, auth_token, oauth, now)
                is Static
            &&& (auth_token matches Some(a) ==> crypto::digest_of(a@) != crypto::digest_of(token)) ==> (oauth
                matches Some(o) ==> (worth(o.store@, token, o.resource_id(), now) matches Some(g) ==> taken_for(
                authorization,
                auth_token,
                oauth,
                now,
            ) == Caller::Human(g)))
            &&& (auth_token matches Some(a) ==> crypto::digest_of(a@) != crypto::digest_of(token)) && (oauth
                matches Some(o) ==> worth(o.store@, token, o.resource_id(), now) is None) && (auth_token is Some
                || oauth is Some) ==> taken_for(authorization, auth_token, oauth, now) is Nobody
        },
        authorization is None && (auth_token is Some || oauth is Some) ==> taken_for(
            authorization,
            auth_token,
            oauth,
            now,
        ) is Nobody,
{
    if let Some(h) = authorization {
        if h@ == "Bearer "@ + token {
            assert("Bearer "@.is_prefix_of(h@));
            assert(h@.skip("Bearer "@.len() as int) =~= token);
        }
    }
}

/// Requests that differ in their bodies have different bytes to tell them apart
/// by.
pub proof fn law_bodies_tell_requests_apart(method: Seq<char>, path: Seq<char>, a: Seq<u8>, b: Seq<u8>)
    requires
        framed(method, path, a) == framed(method, path, b),
    ensures
        a == b,
{
    let head = vstd::utf8::encode_utf8(method) + seq![10u8] + vstd::utf8::encode_utf8(path) + seq![10u8];
    assert(framed(method, path, a).skip(head.len() as int) =~= a);
    assert(framed(method, path, b).skip(head.len() as int) =~= b);
}

/// A machine with a plain name and the scope to write may write from each of its
/// origins, and from no other; a human never may.
pub proof fn law_a_machine_writes_from_its_origins(p: Principal, origin: Seq<char>)
    ensures
        p.kind == PrincipalKind::Human ==> !may_write(p, origin),
        p.kind == PrincipalKind::Machine && p.scopes@.contains("memory:write"@) && mutation::plain_label(p.id@) ==> (
        may_write(p, origin) <==> p.allowed_origins@.contains(origin)),
        !p.scopes@.contains("memory:write"@) ==> !may_write(p, origin),
{
}

/// A caller holds what was granted: a human every scope of the grant, wherever in
/// it, and no other; the holder of the static token its categories; and a local
/// caller every category.
pub proof fn law_a_caller_holds_what_was_granted(p: Principal, g: GrantData, scopes: Seq<ToolCategory>, k: int)
    ensures
        p.is_human(g) ==> {
            &&& p.id@ == g.principal
            &&& 0 <= k < g.scopes.len() ==> p.scopes@.contains(g.scopes[k])
            &&& forall|s: Seq<char>|
                p.scopes@.contains(s) ==> exists|i: int| 0 <= i < g.scopes.len() && #[trigger] g.scopes[i] == s
        },
        p.is_static(scopes) ==> {
            &&& 0 <= k < scopes.len() ==> p.scopes@.contains(scopes[k].spelled())
            &&& !scopes.contains(ToolCategory::GraphWrite) ==> !p.scopes@.contains("graph-write"@)
        },
        p.is_local() ==> p.scopes@.contains("graph-read"@) && p.scopes@.contains("graph-write"@)
            && p.scopes@.contains("vectors"@) && p.scopes@.contains("code"@) && !p.scopes@.contains("admin"@),
        p.is_human(g) || p.is_static(scopes) || p.is_local() ==> forall|o: Seq<char>|
            !p.allowed_origins@.contains(o),
{
    if p.is_human(g) {
        assert forall|s: Seq<char>| p.scopes@.contains(s) implies exists|i: int|
            0 <= i < g.scopes.len() && #[trigger] g.scopes[i] == s by {
            assert(g.scopes.contains(s));
        }
        if 0 <= k < g.scopes.len() {
            assert(g.scopes.contains(g.scopes[k]));
        }
    }
    if p.is_static(scopes) {
        law_every_listed_category_is_granted(scopes, ToolCategory::GraphWrite);
        assert(ToolCategory::GraphWrite.spelled() == "graph-write"@);
        if 0 <= k < scopes.len() {
            assert(slugs(scopes).contains(scopes[k].spelled()));
        }
    }
    if p.is_local() {
        assert(p.scopes@.contains(ToolCategory::GraphRead.spelled()));
        assert(p.scopes@.contains(ToolCategory::GraphWrite.spelled()));
        assert(p.scopes@.contains(ToolCategory::Vectors.spelled()));
        assert(p.scopes@.contains(ToolCategory::Code.spelled()));
        if p.scopes@.contains("admin"@) {
            let c = choose|c: ToolCategory| "admin"@ == #[trigger] c.spelled();
            reveal_strlit("admin");
            reveal_strlit("graph-read");
            reveal_strlit("graph-write");
            reveal_strlit("vectors");
            reveal_strlit("code");
            assert("admin"@.len() == 5 && "graph-read"@.len() == 10 && "graph-write"@.len() == 11
                && "vectors"@.len() == 7 && "code"@.len() == 4);
        }
    }
}

} // verus!
