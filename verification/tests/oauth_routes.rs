//! What the endpoints of the authorization server answer.
use mcpmem::authz::{caller, repository_access, Access};
use mcpmem::config::OAuthConfig;
use mcpmem::consent::page;
use mcpmem::crypto::{s256_challenge, ADMIN_CLIENT_ID};
use mcpmem::oauth_routes::{
    forwarded_for, origin, parse_consent_form, parse_token_form, peer, requested_scopes, scopes,
    Answer, AuthorizeParams, Body, CallbackParams, CallbackStep, Endpoint, LoginStep, OauthState,
};
use mcpmem::principals::PrincipalEntry;
use mcpmem::registration::{RegistrationError, RegistrationRequest};
use mcpmem::store::{ClientRecord, Grant, LoginRecord, Store, CIMD};
use mcpmem::token::issue;
use mcpmem::tools::ToolCategory;
use mcpmem::upstream::{IdentityClaims, Provider};

const NOW: i64 = 1_700_000_000_000_000;
const REDIRECT: &str = "https://client.example/cb?x=1";

fn config() -> OAuthConfig {
    OAuthConfig {
        public_url: "https://mem.example.com".into(),
        oidc_issuer: "https://idp.invalid".into(),
        oidc_client_id: "mcpmem-test".into(),
        oidc_client_secret: None,
        principals: vec![PrincipalEntry {
            name: "ada".into(),
            iss: "https://idp.invalid".into(),
            sub: "u1".into(),
            label: Some("Ada L.".into()),
            scopes: vec!["graph-read".into(), "graph-write".into()],
        }],
        cimd_allowed_domains: Vec::new(),
        trust_forwarded_proto: false,
    }
}

fn state() -> OauthState {
    OauthState::open(config(), Store::new(), NOW)
}

fn provider() -> Provider {
    Provider {
        issuer: "https://idp.invalid".into(),
        authorization_endpoint: "https://idp.invalid/authorize".into(),
        token_endpoint: "https://idp.invalid/token".into(),
        jwks_uri: "https://idp.invalid/keys".into(),
        keys: Vec::new(),
    }
}

fn registered(oauth: &mut OauthState) -> String {
    let answer = oauth.register(
        Some(RegistrationRequest { client_name: "Editor".into(), redirect_uris: vec![REDIRECT.into()] }),
        NOW,
    );
    assert_eq!(answer.status, 201);
    match answer.body {
        Body::Client(c) => c.client_id,
        _ => panic!("a registration answers with the client"),
    }
}

fn params(client_id: &str) -> AuthorizeParams {
    AuthorizeParams {
        response_type: Some("code".into()),
        client_id: Some(client_id.into()),
        redirect_uri: Some(REDIRECT.into()),
        state: Some("theirs".into()),
        code_challenge: Some(s256_challenge("verifier")),
        code_challenge_method: Some("S256".into()),
        scope: Some("graph-read code".into()),
        resource: Some("https://mem.example.com/mcp".into()),
    }
}

fn text(answer: &Answer) -> String {
    match &answer.body {
        Body::Text(t) => t.clone(),
        Body::Html(t) => t.clone(),
        Body::Fault { code, description } => format!("{code}: {}", description.clone().unwrap_or_default()),
        _ => String::new(),
    }
}

fn done(step: LoginStep) -> Answer {
    match step {
        LoginStep::Done(a) => a,
        LoginStep::ReadDocument(_) => panic!("no document is due"),
        LoginStep::Discover(_) => panic!("no discovery is due"),
    }
}

/// A login that was recorded under known values.
fn in_flight(oauth: &mut OauthState) {
    let id = registered(oauth);
    let request = match oauth.authorize("peer", params(&id), NOW) {
        LoginStep::Discover(request) => request,
        _ => panic!("the request is well formed"),
    };
    let answer = oauth.record_login_as(
        request,
        &provider(),
        "the-state".into(),
        "the-verifier".into(),
        "the-nonce".into(),
        "the-csrf".into(),
        NOW,
    );
    assert_eq!(answer.status, 302);
    let location = answer.location.unwrap();
    assert!(location.starts_with("https://idp.invalid/authorize?"), "{location}");
    assert!(location.contains("state=the-state"));
    assert!(location.contains("nonce=the-nonce"));
    assert!(location.contains("redirect_uri=https%3A%2F%2Fmem.example.com%2Foauth%2Fcallback"));
    assert!(location.contains(&format!("code_challenge={}", s256_challenge("the-verifier"))));
}

fn claims(sub: &str) -> IdentityClaims {
    IdentityClaims { iss: "https://idp.invalid".into(), sub: sub.into(), email: None, nonce: Some("the-nonce".into()) }
}

/// A login whose human is known.
fn vouched(oauth: &mut OauthState) -> Answer {
    in_flight(oauth);
    let step = oauth.callback("peer", CallbackParams { code: Some("up".into()), state: Some("the-state".into()) }, NOW);
    match step {
        CallbackStep::Exchange { code, login } => {
            assert_eq!(code, "up");
            assert_eq!(login.upstream_verifier, "the-verifier");
            oauth.complete_login(login, &claims("u1")).unwrap()
        }
        CallbackStep::Done(a) => panic!("{}", text(&a)),
    }
}

#[test]
fn the_origin_drops_a_path_prefix() {
    assert_eq!(origin("https://mem.example.com"), "https://mem.example.com");
    assert_eq!(origin("https://mem.example.com/server"), "https://mem.example.com");
    assert_eq!(origin("https://mem.example.com/a/b"), "https://mem.example.com");
}

#[test]
fn opening_puts_the_admin_client_in_place() {
    let oauth = state();
    assert!(oauth.store.get_client(ADMIN_CLIENT_ID).unwrap().is_some());
    assert_eq!(oauth.resource(), "https://mem.example.com/mcp");
    assert_eq!(oauth.callback_uri(), "https://mem.example.com/oauth/callback");
}

#[test]
fn the_documents_name_this_server() {
    let oauth = state();
    let all = ToolCategory::all();
    match oauth.protected_resource(&all).body {
        Body::Resource(d) => {
            assert_eq!(d.resource, "https://mem.example.com/mcp");
            assert_eq!(d.authorization_servers, vec!["https://mem.example.com"]);
            assert_eq!(d.scopes_supported, scopes(&all));
        }
        _ => panic!("a resource document"),
    }
    match oauth.authorization_server(&all).body {
        Body::Server(d) => {
            assert_eq!(d.issuer, "https://mem.example.com");
            assert_eq!(d.token_endpoint, "https://mem.example.com/oauth/token");
            assert_eq!(d.code_challenge_methods_supported, vec!["S256"]);
        }
        _ => panic!("a server document"),
    }
    assert_eq!(oauth.protected_resource_at("mcp", &all).status, 200);
    assert_eq!(oauth.protected_resource_at("other", &all).status, 404);
}

#[test]
fn a_registration_is_refused_for_its_reasons() {
    let mut oauth = state();
    assert_eq!(oauth.register(None, NOW).status, 400);
    let bad = oauth.register(
        Some(RegistrationRequest { client_name: "x".into(), redirect_uris: vec!["http://evil.example/".into()] }),
        NOW,
    );
    assert_eq!(bad.status, 400);
    assert!(text(&bad).starts_with("invalid_redirect_uri"), "{}", text(&bad));
}

#[test]
fn a_caller_is_known_by_what_they_present() {
    let mut oauth = state();
    let scopes = vec![ToolCategory::Code];
    let fixed = Some("secret".to_owned());
    let none: Option<String> = None;
    assert_eq!(caller(None, &none, &scopes, None, NOW).unwrap().id, "local");
    assert!(caller(None, &fixed, &scopes, None, NOW).is_none());
    assert!(caller(Some("secret"), &fixed, &scopes, None, NOW).is_none());
    let known = caller(Some("Bearer secret"), &fixed, &scopes, None, NOW);
    assert_eq!(known.as_ref().unwrap().id, "static");
    assert_eq!(repository_access(&scopes, &known), Access::Granted);
    assert_eq!(repository_access(&Vec::new(), &known), Access::Absent);
    assert_eq!(repository_access(&scopes, &None), Access::Unauthorized);
    let grant = Grant {
        client_id: "c1".into(),
        principal: "ada".into(),
        scopes: vec!["graph-read".into()],
        resource: "https://mem.example.com/mcp".into(),
        family: "f".into(),
    };
    let pair = issue(&mut oauth.store, &grant, NOW).unwrap();
    assert_eq!(pair.access_token.len(), 43);
    let header = format!("Bearer {}", pair.access_token);
    let human = caller(Some(&header), &fixed, &scopes, Some(&oauth), NOW + 1);
    assert_eq!(human.as_ref().unwrap().id, "ada");
    assert_eq!(repository_access(&scopes, &human), Access::Forbidden);
    assert!(caller(Some("Bearer nothing"), &fixed, &scopes, Some(&oauth), NOW + 1).is_none());
}

#[test]
fn a_malformed_request_to_sign_in_is_refused_in_order() {
    let mut oauth = state();
    let id = registered(&mut oauth);
    let many = (0..17).map(|i| format!("s{i}")).collect::<Vec<_>>().join(" ");
    for (q, words) in [
        (
            AuthorizeParams { code_challenge: None, ..params(&id) },
            "client_id, redirect_uri and code_challenge are all required",
        ),
        (AuthorizeParams { response_type: Some("token".into()), ..params(&id) }, "response_type must be code"),
        (
            AuthorizeParams { code_challenge_method: None, ..params(&id) },
            "code_challenge_method must be S256",
        ),
        (AuthorizeParams { code_challenge: Some("".into()), ..params(&id) }, "code_challenge must not be empty"),
        (AuthorizeParams { scope: Some("  ".into()), ..params(&id) }, "scope must name at least one scope"),
        (AuthorizeParams { scope: Some(many), ..params(&id) }, "too many scopes"),
        (
            AuthorizeParams { resource: Some("https://else.example".into()), ..params(&id) },
            "resource does not name this server",
        ),
        (params("nobody"), "unknown client_id"),
        (
            AuthorizeParams { redirect_uri: Some("https://client.example/cb".into()), ..params(&id) },
            "redirect_uri is not registered for this client",
        ),
    ] {
        let answer = done(oauth.start_login(q));
        assert_eq!(answer.status, 400);
        assert!(answer.location.is_none());
        assert_eq!(text(&answer), words);
    }
}

#[test]
fn a_client_may_be_a_document() {
    let mut oauth = state();
    let url = "https://docs.example/client.json";
    let request = match oauth.start_login(params(url)) {
        LoginStep::ReadDocument(request) => request,
        _ => panic!("the document has to be read"),
    };
    let refused = done(oauth.document_read(request, Err(RegistrationError::MalformedDocument)));
    assert_eq!(text(&refused), "this client identifier metadata document could not be used");
    let request = match oauth.start_login(params(url)) {
        LoginStep::ReadDocument(request) => request,
        _ => panic!("the document has to be read"),
    };
    let record = ClientRecord {
        client_id: url.into(),
        client_name: "Docs".into(),
        redirect_uris: vec![REDIRECT.into()],
        source: CIMD.into(),
        created_us: NOW,
        last_used_us: NOW,
    };
    assert!(matches!(oauth.document_read(request, Ok(record)), LoginStep::Discover(_)));
    assert!(matches!(oauth.start_login(params(url)), LoginStep::Discover(_)), "a document is read once");
}

#[test]
fn a_callback_shows_what_is_asked_and_held() {
    let mut oauth = state();
    let page = vouched(&mut oauth);
    assert_eq!(page.status, 200);
    assert!(page.no_store);
    let html = text(&page);
    assert!(html.contains("Editor") && html.contains("Ada L."), "{html}");
    assert!(html.contains("graph-read"));
    assert!(!html.contains("graph-write") && !html.contains("value=\"code\""));
    assert!(html.contains("the-csrf"));
    assert!(html.contains(REDIRECT), "the page names where the grant goes");
}

#[test]
fn a_consent_page_escapes_where_the_grant_goes() {
    let html = page("Editor", "Ada L.", "https://client.example/?a=1&b=<2>", &vec!["code".into()], "c", "s");
    assert!(html.contains("https://client.example/?a=1&amp;b=&lt;2&gt;"), "{html}");
}

#[test]
fn a_refused_login_says_why_to_the_log() {
    let mut oauth = state();
    assert_eq!(oauth.take_login("the-state", NOW).err().unwrap(), "no login in flight carries this state");
    in_flight(&mut oauth);
    let login = oauth.take_login("the-state", NOW).unwrap();
    assert_eq!(oauth.restored(&login, "first".into()), "first");
    assert_eq!(
        oauth.restored(&login, "again".into()),
        "again; and the store refused to restore the login: database: UNIQUE constraint failed: oauth_login.state"
    );
    let taken = oauth.complete_login(login.clone(), &claims("u1"));
    assert_eq!(
        taken.err().unwrap(),
        "the store refused to record the human: database: UNIQUE constraint failed: oauth_login.state"
    );
    let login = oauth.take_login("the-state", NOW).unwrap();
    let elsewhere = LoginRecord { client_id: "nobody".into(), ..login.clone() };
    let missing = oauth.complete_login(elsewhere, &claims("u1"));
    assert_eq!(missing.err().unwrap(), "the client of this login is no longer registered");
    let asking = LoginRecord { scopes: vec!["code".into()], ..login.clone() };
    let why = oauth.complete_login(asking, &claims("u1")).err().unwrap();
    assert!(why.ends_with(" holds none of the requested scopes"), "{why}");
    oauth.complete_login(login, &claims("u1")).unwrap();
    assert_eq!(oauth.take_login("the-state", NOW).err().unwrap(), "this login was already completed");
}

#[test]
fn refused_logins_look_alike() {
    let mut oauth = state();
    in_flight(&mut oauth);
    let ask = |oauth: &mut OauthState, state: &str| {
        oauth.callback("peer", CallbackParams { code: Some("up".into()), state: Some(state.into()) }, NOW)
    };
    let unknown = match ask(&mut oauth, "elsewhere") {
        CallbackStep::Done(a) => a,
        CallbackStep::Exchange { .. } => panic!("no such login"),
    };
    let login = match ask(&mut oauth, "the-state") {
        CallbackStep::Exchange { login, .. } => login,
        CallbackStep::Done(_) => panic!("the login is live"),
    };
    let stranger = oauth.complete_login(login.clone(), &claims("u2"));
    let why = stranger.as_ref().err().cloned().unwrap();
    assert_eq!(why, "no principal is registered for https://idp.invalid u2");
    let stranger = oauth.callback_answer(stranger);
    let failed = oauth.exchange_failed(&login, "the provider said no".into());
    for a in [&stranger, &failed] {
        assert_eq!((a.status, text(a)), (unknown.status, text(&unknown)));
    }
    assert_eq!(unknown.status, 403);
    assert!(matches!(ask(&mut oauth, "the-state"), CallbackStep::Exchange { .. }), "a failed exchange may be tried again");
    let bare = oauth.callback("peer", CallbackParams { code: None, state: None }, NOW);
    assert!(matches!(bare, CallbackStep::Done(a) if text(&a) == "the callback needs a code and a state"));
}

#[test]
fn a_completed_login_cannot_be_completed_again() {
    let mut oauth = state();
    vouched(&mut oauth);
    let again = oauth.callback("peer", CallbackParams { code: Some("up".into()), state: Some("the-state".into()) }, NOW);
    assert!(matches!(again, CallbackStep::Done(a) if a.status == 403));
    let approved = oauth.consent("peer", b"state=the-state&csrf=the-csrf&scope=graph-read", NOW);
    assert_eq!(approved.status, 302, "the login still waits for consent");
}

#[test]
fn an_approval_sends_a_code_that_is_worth_tokens_once() {
    let mut oauth = state();
    vouched(&mut oauth);
    let form = parse_consent_form(b"state=the-state&csrf=the-csrf&scope=graph-read");
    let answer = oauth.decide_as(form, "the code".into(), "fam".into(), NOW);
    assert_eq!(
        answer.location.as_deref(),
        Some("https://client.example/cb?x=1&code=the+code&state=theirs&iss=https%3A%2F%2Fmem.example.com")
    );
    let id = {
        let row = oauth.store.codes.row_at(0);
        row.grant.client_id.clone()
    };
    let body = format!(
        "grant_type=authorization_code&code=the+code&code_verifier=verifier&client_id={id}&redirect_uri=https%3A%2F%2Fclient.example%2Fcb%3Fx%3D1"
    );
    let granted = oauth.token("peer", body.as_bytes(), NOW + 1);
    assert_eq!(granted.status, 200);
    assert!(granted.no_store);
    let tokens = match granted.body {
        Body::Tokens(t) => t,
        _ => panic!("tokens"),
    };
    assert_eq!(tokens.scope, "graph-read");
    let grant = oauth.validate(&tokens.access_token, NOW + 2).unwrap();
    assert_eq!(grant.principal, "ada");
    assert_eq!(oauth.store.get_client(&id).unwrap().unwrap().last_used_us, NOW + 1);
    let again = oauth.token("peer", body.as_bytes(), NOW + 2);
    assert_eq!((again.status, text(&again)), (400, "invalid_grant: ".to_owned()));
    assert_eq!(oauth.store.get_client(&id).unwrap().unwrap().last_used_us, NOW + 1, "a refusal notes nothing");
    let over = oauth.revoke_token("peer", format!("token={}", tokens.refresh_token).as_bytes(), NOW + 3);
    assert_eq!(over.status, 200);
    assert!(oauth.validate(&tokens.access_token, NOW + 4).is_none());
    assert_eq!(oauth.revoke_token("peer", b"token=unheard-of", NOW + 3).status, 200);
}

#[test]
fn a_denial_tells_the_client() {
    let mut oauth = state();
    vouched(&mut oauth);
    let answer = oauth.consent("peer", b"state=the-state&csrf=the-csrf&deny=1&scope=graph-read", NOW);
    assert_eq!(
        answer.location.as_deref(),
        Some(
            "https://client.example/cb?x=1&error=access_denied&error_description=the+human+refused+this+request&state=theirs&iss=https%3A%2F%2Fmem.example.com"
        )
    );
    assert_eq!(oauth.store.codes.len(), 0);
}

#[test]
fn a_form_without_the_token_changes_nothing() {
    let mut oauth = state();
    vouched(&mut oauth);
    let guess = oauth.consent("peer", b"state=the-state&csrf=guess&scope=graph-read", NOW);
    assert_eq!(guess.status, 403);
    assert!(guess.location.is_none());
    assert_eq!(oauth.store.codes.len(), 0);
    for (body, words) in [
        (&b"csrf=the-csrf"[..], "the consent form needs a state and a csrf token"),
        (&b"state=the-state&csrf=the-csrf&scope=code"[..], "this consent could not be recorded"),
        (&b"state=elsewhere&csrf=the-csrf&scope=graph-read"[..], "this consent could not be recorded"),
    ] {
        assert_eq!(text(&oauth.consent("peer", body, NOW)), words);
    }
    let many = format!("state=the-state&csrf=the-csrf{}", "&scope=a".repeat(17));
    assert_eq!(text(&oauth.consent("peer", many.as_bytes(), NOW)), "too many scopes");
    assert_eq!(oauth.consent("peer", b"state=the-state&csrf=the-csrf&scope=graph-read", NOW).status, 302);
}

#[test]
fn token_requests_are_refused_for_their_reasons() {
    let mut oauth = state();
    for (body, words) in [
        (&b"grant_type=authorization_code&code=a&code=b"[..], "invalid_request: a parameter arrived more than once"),
        (&b"grant_type=authorization_code"[..], "invalid_request: code is required"),
        (&b"grant_type=authorization_code&code=a"[..], "invalid_request: code_verifier is required"),
        (&b"grant_type=authorization_code&code=a&code_verifier=b&client_id="[..], "invalid_request: client_id is required"),
        (
            &b"grant_type=authorization_code&code=a&code_verifier=b&client_id=c"[..],
            "invalid_request: redirect_uri is required",
        ),
        (&b"grant_type=refresh_token"[..], "invalid_request: refresh_token is required"),
        (&b"grant_type=refresh_token&refresh_token=r"[..], "invalid_request: client_id is required"),
        (
            &b"grant_type=password"[..],
            "unsupported_grant_type: this server issues the authorization_code and refresh_token grants",
        ),
        (&b"grant_type=refresh_token&refresh_token=r&client_id=c"[..], "invalid_grant: "),
    ] {
        let answer = oauth.token("peer", body, NOW);
        assert_eq!((answer.status, text(&answer)), (400, words.to_owned()));
        assert!(answer.no_store);
    }
    assert_eq!(text(&oauth.revoke_token("peer", b"token=", NOW)), "invalid_request: token is required");
}

#[test]
fn a_peer_over_its_limit_is_told_when_to_come_back() {
    let mut oauth = state();
    for _ in 0..60 {
        assert_eq!(oauth.token("peer", b"grant_type=x", NOW).status, 400);
    }
    let answer = oauth.token("peer", b"grant_type=x", NOW);
    assert_eq!(answer.status, 429);
    assert_eq!(answer.retry_after, Some(60));
    assert_eq!(text(&answer), "temporarily_unavailable: too many requests from this address");
    assert_eq!(oauth.revoke_token("peer", b"token=t", NOW).status, 429, "both take a credential");
    assert_eq!(oauth.token("other", b"grant_type=x", NOW).status, 400);
    assert!(oauth.limit(Endpoint::Consent, "peer", NOW).is_none());
}

#[test]
fn maintenance_removes_what_is_over() {
    let mut oauth = state();
    in_flight(&mut oauth);
    assert!(oauth.maintain(NOW).is_empty());
    let pass = oauth.maintain(NOW + 600_000_000);
    assert_eq!((pass.swept, pass.evicted), (1, 0));
    let later = oauth.maintain(NOW + 2_592_000_000_001);
    assert_eq!(later.evicted, 1);
    assert!(oauth.store.get_client(ADMIN_CLIENT_ID).unwrap().is_some());
}

#[test]
fn forms_are_decoded() {
    let form = parse_consent_form(b"scope=a%20b&scope=c&csrf=x+y&state=1&state=2");
    assert_eq!(form.scopes, vec!["a b", "c"]);
    assert_eq!(form.csrf.as_deref(), Some("x y"));
    assert_eq!(form.state.as_deref(), Some("2"));
    assert!(!form.deny && !form.too_many_scopes);
    let token = parse_token_form(b"grant_type=refresh_token&refresh_token=a%2Fb&hint=1&hint=2");
    assert_eq!(token.refresh_token.as_deref(), Some("a/b"));
    assert!(!token.repeated);
    assert_eq!(requested_scopes(&Some(" a  b\tc ".into())), vec!["a", "b", "c"]);
}

#[test]
fn a_peer_is_named_by_what_can_be_trusted() {
    assert_eq!(forwarded_for(" 10.0.0.1 , 10.0.0.2"), "10.0.0.1");
    assert_eq!(peer(true, Some("10.0.0.1".into()), Some("127.0.0.1".into())), "10.0.0.1");
    assert_eq!(peer(false, Some("10.0.0.1".into()), Some("127.0.0.1".into())), "127.0.0.1");
    assert_eq!(peer(false, None, None), "unknown");
}
