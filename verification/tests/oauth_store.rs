//! Tokens, codes and logins in the store, and the values they are named by.
use mcpmem::consent::{approve_as, csrf_matches, deny, ConsentError};
use mcpmem::crypto::{
    digest, digest_eq, new_token, parse_principal_id, principal_id, s256_challenge, sha256, token_of,
};
use mcpmem::limits::{Limits, RateLimiter};
use mcpmem::store::{
    ClientRecord, CodeGrant, Grant, LoginRecord, RefreshOutcome, Store, StoreError, TokenKind, CIMD,
    DCR,
};
use mcpmem::token::{
    grant_authorization_code, grant_refresh, issue, issue_pair, redeem_code, revoke, validate,
    CodeExchange, RefreshExchange, TokenError, ACCESS_TTL_US, REFRESH_TTL_US,
};

const RESOURCE: &str = "https://mem.example.com/mcp";

fn grant(family: &str, principal: &str) -> Grant {
    Grant {
        client_id: "c1".into(),
        principal: principal.into(),
        scopes: vec!["graph-read".into()],
        resource: RESOURCE.into(),
        family: family.into(),
    }
}

fn token(s: &mut Store, kind: TokenKind, family: &str, principal: &str) -> String {
    let value = new_token().unwrap();
    s.put_token(&value, kind, &grant(family, principal), 1, 10_000).unwrap();
    value
}

#[test]
fn revoking_a_principal_revokes_every_live_family_and_counts_it() {
    let mut s = Store::new();
    // Adam holds two live families; bob holds one. A family carries its
    // refresh token and its access token, and both must go dark.
    let adam_r = token(&mut s, TokenKind::Refresh, "a1", "adam");
    let adam_a = token(&mut s, TokenKind::Access, "a1", "adam");
    let adam_2 = token(&mut s, TokenKind::Refresh, "a2", "adam");
    let bob_r = token(&mut s, TokenKind::Refresh, "b1", "bob");
    let bob_a = token(&mut s, TokenKind::Access, "b1", "bob");

    assert_eq!(s.revoke_principal("adam"), 2, "the count is families, not tokens");

    // Every adam token is dark, through the paths a bearer would use.
    assert!(
        matches!(s.take_refresh(&adam_r, 2).unwrap(), RefreshOutcome::Unknown),
        "the revoked refresh token answers Unknown"
    );
    assert!(s.find_access(&adam_a, 2).unwrap().is_none(), "the revoked access token is not found");
    assert!(
        matches!(s.take_refresh(&adam_2, 2).unwrap(), RefreshOutcome::Unknown),
        "the second family went dark too"
    );

    // Bob's families are untouched.
    assert!(
        matches!(s.take_refresh(&bob_r, 2).unwrap(), RefreshOutcome::Valid(_)),
        "bob's refresh token still spends"
    );
    assert!(s.find_access(&bob_a, 2).unwrap().is_some(), "bob's access token is still live");

    // The rows are really revoked, at the column every bearer path reads.
    let mut rows: Vec<(String, i64)> = (0..s.tokens.len())
        .map(|i| s.tokens.row_at(i))
        .map(|r| (r.grant.family.clone(), i64::from(r.revoked)))
        .collect();
    rows.sort();
    let flags: Vec<i64> = rows.into_iter().map(|(_, revoked)| revoked).collect();
    assert_eq!(flags, vec![1, 1, 1, 0, 0]);

    // Revocation is idempotent: nothing live remains to revoke.
    assert_eq!(s.revoke_principal("adam"), 0);
    // A principal with no rows at all revokes nothing.
    assert_eq!(s.revoke_principal("carol"), 0);
}

#[test]
fn principal_ids_round_trip() {
    let id = principal_id("https://accounts.google.com", "u-1");
    assert_eq!(
        parse_principal_id(&id),
        Some(("https://accounts.google.com".to_owned(), "u-1".to_owned()))
    );
    assert_eq!(parse_principal_id("not-base64!"), None);
    // A sub of zero length is refused.
    assert_eq!(parse_principal_id(&principal_id("iss", "")), None);
}

#[test]
fn digests_are_those_of_sha_256() {
    assert_eq!(sha256(b"abc"), "ba7816bf8f01cfea414140de5dae2223b00361a396177a9cb410ff61f20015ad");
    assert_eq!(digest("abc"), sha256(b"abc"));
    assert!(digest_eq(&digest("abc"), &digest("abc")));
    assert!(!digest_eq(&digest("abc"), &digest("abd")));
    assert!(!digest_eq("ab", "abc"));
}

#[test]
fn a_challenge_is_the_digest_of_its_verifier() {
    assert_eq!(
        s256_challenge("dBjftJeZ4CVP-mB92K27uhbUJU1p1r_wW1gFWFOEjXk"),
        "E9Melhoa2OwvFrEMTJguCHaoeK1t8URWbuGJSstw-cM"
    );
}

#[test]
fn new_tokens_are_long_and_differ() {
    let (a, b) = (new_token().unwrap(), new_token().unwrap());
    assert_ne!(a, b);
    assert_eq!(a.len(), 43);
    assert!(a.chars().all(|c| c.is_ascii_alphanumeric() || c == '-' || c == '_'));
}

fn client(id: &str) -> ClientRecord {
    ClientRecord {
        client_id: id.into(),
        client_name: "Client".into(),
        redirect_uris: vec!["https://client.example/cb".into(), "http://127.0.0.1:8/cb?a=1".into()],
        source: DCR.into(),
        created_us: 1,
        last_used_us: 1,
    }
}

#[test]
fn a_client_is_read_back_and_touched() {
    let mut s = Store::new();
    s.put_client(&client("c1"));
    let read = s.get_client("c1").unwrap().unwrap();
    assert_eq!(read.redirect_uris, client("c1").redirect_uris);
    assert_eq!(read.source, "dcr");
    s.touch_client("c1", 50);
    assert_eq!(s.get_client("c1").unwrap().unwrap().last_used_us, 50);
    assert!(s.get_client("c2").unwrap().is_none());
}

#[test]
fn an_unreadable_list_is_an_error() {
    let mut s = Store::new();
    s.put_client(&client("c1"));
    let mut row = s.clients.remove("c1").unwrap();
    row.redirect_uris = "[1, 2".into();
    s.clients.insert("c1", row);
    assert!(matches!(s.get_client("c1"), Err(StoreError::Json(_))));
}

#[test]
fn idle_clients_without_tokens_are_evicted() {
    let mut s = Store::new();
    s.put_client(&client("c1"));
    s.put_client(&client("c2"));
    s.put_client(&ClientRecord { source: CIMD.into(), last_used_us: 900, ..client("c3") });
    token(&mut s, TokenKind::Refresh, "f", "adam");
    assert_eq!(s.evict_clients(1_000, 500), 1);
    assert!(s.get_client("c1").unwrap().is_some(), "c1 holds a token");
    assert!(s.get_client("c2").unwrap().is_none());
    assert!(s.get_client("c3").unwrap().is_some(), "c3 was used lately");
}

fn login(state: &str) -> LoginRecord {
    LoginRecord {
        state: state.into(),
        client_id: "c1".into(),
        redirect_uri: "https://client.example/cb".into(),
        client_state: Some("theirs".into()),
        code_challenge: s256_challenge("verifier"),
        resource: RESOURCE.into(),
        scopes: vec!["graph-read".into(), "code".into()],
        upstream_verifier: "v".into(),
        nonce: "n".into(),
        csrf: "csrf".into(),
        principal: Some("adam".into()),
        created_us: 10,
        expires_us: 1_000,
    }
}

#[test]
fn a_login_is_taken_once() {
    let mut s = Store::new();
    s.put_login(&login("s")).unwrap();
    assert!(matches!(s.put_login(&login("s")), Err(StoreError::Database(_))));
    let taken = s.take_login("s", 20).unwrap().unwrap();
    assert_eq!(taken.scopes, vec!["graph-read", "code"]);
    assert_eq!(taken.client_state.as_deref(), Some("theirs"));
    assert!(s.take_login("s", 20).unwrap().is_none());
    s.put_login(&login("s")).unwrap();
    assert!(s.take_login("s", 1_000).unwrap().is_none(), "an expired login is not taken");
}

fn code_grant() -> CodeGrant {
    CodeGrant {
        grant: grant("fam", "adam"),
        redirect_uri: "https://client.example/cb".into(),
        code_challenge: s256_challenge("verifier"),
    }
}

fn exchange<'a>(code: &'a str, verifier: &'a str) -> CodeExchange<'a> {
    CodeExchange { code, code_verifier: verifier, client_id: "c1", redirect_uri: "https://client.example/cb" }
}

#[test]
fn a_code_is_redeemed_once_and_only_with_its_verifier() {
    let mut s = Store::new();
    s.put_code("code", &code_grant(), 1, 100).unwrap();
    let wrong = redeem_code(&mut s, &exchange("code", "guess"), 5);
    assert!(matches!(wrong, Err(TokenError::InvalidGrant(_))));
    let late = redeem_code(&mut s, &exchange("code", "verifier"), 5);
    assert!(matches!(late, Err(TokenError::InvalidGrant(_))), "a presented code is spent");
    s.put_code("next", &code_grant(), 1, 100).unwrap();
    let tokens = grant_authorization_code(&mut s, &exchange("next", "verifier"), 5).unwrap();
    assert_eq!(tokens.token_type, "Bearer");
    assert_eq!(tokens.expires_in, 3600);
    assert_eq!(tokens.scope, "graph-read");
    assert!(validate(&s, &tokens.access_token, RESOURCE, 6).is_some());
    assert!(validate(&s, &tokens.access_token, "https://other.example/mcp", 6).is_none());
    assert!(validate(&s, &tokens.refresh_token, RESOURCE, 6).is_none());
    assert!(validate(&s, &tokens.access_token, RESOURCE, 5 + ACCESS_TTL_US).is_none());
}

#[test]
fn a_code_is_bound_to_its_client_and_its_address() {
    let mut s = Store::new();
    s.put_code("code", &code_grant(), 1, 100).unwrap();
    let other = CodeExchange { client_id: "c2", ..exchange("code", "verifier") };
    assert!(matches!(
        redeem_code(&mut s, &other, 5),
        Err(TokenError::InvalidGrant("this code was issued to another client"))
    ));
    s.put_code("next", &code_grant(), 1, 100).unwrap();
    let elsewhere = CodeExchange { redirect_uri: "https://client.example/else", ..exchange("next", "verifier") };
    assert!(matches!(
        redeem_code(&mut s, &elsewhere, 5),
        Err(TokenError::InvalidGrant("the redirect URI does not match the one the code was issued for"))
    ));
}

#[test]
fn a_replayed_refresh_token_kills_its_family() {
    let mut s = Store::new();
    let first = issue(&mut s, &grant("fam", "adam"), 5).unwrap();
    let spend = |s: &mut Store, t: &str, id: &str| grant_refresh(s, &RefreshExchange { refresh_token: t, client_id: id }, 6);
    let second = spend(&mut s, &first.refresh_token, "c1").unwrap();
    assert!(validate(&s, &second.access_token, RESOURCE, 7).is_some());
    assert!(matches!(spend(&mut s, &first.refresh_token, "c1"), Err(TokenError::InvalidGrant(_))));
    assert!(validate(&s, &second.access_token, RESOURCE, 7).is_none());
    assert!(matches!(spend(&mut s, &second.refresh_token, "c1"), Err(TokenError::InvalidGrant(_))));
}

#[test]
fn a_replay_is_refused_as_late_as_the_clock_goes() {
    let mut s = Store::new();
    let start = i64::MAX - REFRESH_TTL_US;
    let first = issue(&mut s, &grant("fam", "adam"), start).unwrap();
    let spent = RefreshExchange { refresh_token: &first.refresh_token, client_id: "c1" };
    let second = grant_refresh(&mut s, &spent, start).unwrap();
    let late = i64::MAX - 1;
    assert!(matches!(grant_refresh(&mut s, &spent, late), Err(TokenError::InvalidGrant(_))));
    let next = RefreshExchange { refresh_token: &second.refresh_token, client_id: "c1" };
    assert!(matches!(grant_refresh(&mut s, &next, late), Err(TokenError::InvalidGrant(_))));
}

#[test]
fn a_token_writes_its_bytes() {
    assert_eq!(token_of(&[0; 32]), "A".repeat(43));
    assert_eq!(token_of(&[0xfb, 0xff]), "-_8");
    assert_eq!(token_of(&[]), "");
}

#[test]
fn revoking_a_token_revokes_both_halves_and_is_idempotent() {
    let mut s = Store::new();
    let pair = issue(&mut s, &grant("fam", "adam"), 5).unwrap();
    revoke(&mut s, "never issued", 6);
    assert!(validate(&s, &pair.access_token, RESOURCE, 6).is_some());
    revoke(&mut s, &pair.refresh_token, 6);
    revoke(&mut s, &pair.refresh_token, 6);
    assert!(validate(&s, &pair.access_token, RESOURCE, 6).is_none());
}

#[test]
fn a_taken_token_value_is_refused() {
    let mut s = Store::new();
    let g = grant("fam", "adam");
    issue_pair(&mut s, &g, "a".into(), "r".into(), 5).unwrap();
    assert!(matches!(issue_pair(&mut s, &g, "a".into(), "r2".into(), 5), Err(TokenError::Store(_))));
    assert_eq!(TokenError::UnsupportedGrantType.code(), "unsupported_grant_type");
    assert_eq!(TokenError::InvalidRequest("x").code(), "invalid_request");
    assert_eq!(TokenError::InvalidGrant("x").code(), "invalid_grant");
    assert_eq!(TokenError::Store(StoreError::Random).code(), "server_error");
}

#[test]
fn sweeping_keeps_what_is_live() {
    let mut s = Store::new();
    s.put_login(&login("s")).unwrap();
    s.put_code("code", &code_grant(), 1, 100).unwrap();
    let pair = issue(&mut s, &grant("fam", "adam"), 5).unwrap();
    assert_eq!(s.sweep(150), 1);
    assert_eq!(s.sweep(2_000), 1);
    assert!(validate(&s, &pair.access_token, RESOURCE, 2_000).is_some());
    assert_eq!(s.sweep(5 + REFRESH_TTL_US), 2);
}

#[test]
fn a_decision_needs_the_token_of_its_form() {
    let mut s = Store::new();
    s.put_login(&login("s")).unwrap();
    let all = vec!["graph-read".to_owned(), "code".to_owned()];
    let say = |s: &mut Store, csrf: &str, scopes: &Vec<String>| approve_as(s, "s", csrf, scopes, "the-code".into(), "fam".into(), 20);
    assert!(matches!(say(&mut s, "guess", &all), Err(ConsentError::BadCsrf)));
    assert!(matches!(say(&mut s, "csrf", &vec!["vectors".into()]), Err(ConsentError::NotOffered)));
    assert!(matches!(say(&mut s, "csrf", &vec![]), Err(ConsentError::NothingApproved)));
    let approval = say(&mut s, "csrf", &vec!["code".into()]).unwrap();
    assert_eq!(approval.code, "the-code");
    assert_eq!(approval.redirect_uri, "https://client.example/cb");
    assert!(matches!(say(&mut s, "csrf", &all), Err(ConsentError::UnknownLogin)));
    let granted = redeem_code(&mut s, &exchange("the-code", "verifier"), 21).unwrap();
    assert_eq!(granted.scopes, vec!["code"]);
    assert!(csrf_matches("a", "a"));
    assert!(!csrf_matches("a", "b"));
}

#[test]
fn a_denial_ends_the_login() {
    let mut s = Store::new();
    s.put_login(&LoginRecord { principal: None, ..login("s") }).unwrap();
    assert!(matches!(deny(&mut s, "s", "csrf", 20), Err(ConsentError::NotAuthenticated)));
    s.take_login("s", 20).unwrap().unwrap();
    s.put_login(&login("s")).unwrap();
    assert!(deny(&mut s, "s", "csrf", 20).is_ok());
    assert!(matches!(deny(&mut s, "s", "csrf", 20), Err(ConsentError::UnknownLogin)));
}

#[test]
fn a_peer_is_admitted_up_to_the_limit() {
    let mut limiter = RateLimiter::new(2, 60_000_000, 2);
    assert!(limiter.check("a", 0));
    assert!(limiter.check("a", 1));
    assert!(!limiter.check("a", 2));
    assert!(limiter.check("b", 3), "another peer has its own count");
    assert!(limiter.check("a", 60_000_000), "waiting out the window admits again");
    assert_eq!(limiter.retry_after_seconds(), 60);
    let mut limits = Limits::new();
    for i in 0..20 {
        assert!(limits.register.check("a", i));
    }
    assert!(!limits.register.check("a", 20));
    for i in 0..60 {
        assert!(limits.authorize.check("a", i));
    }
    assert!(!limits.authorize.check("a", 60));
    assert!(limits.consent.check("a", 60), "each endpoint has its own count");
}

#[test]
fn a_limiter_of_no_requests_admits_nobody() {
    let mut limiter = RateLimiter::per_window(0);
    assert!(!limiter.check("a", 60_000_000));
    assert!(!limiter.check("a", 120_000_000));
    let mut full = RateLimiter::new(0, 60_000_000, 0);
    assert!(!full.check("a", 60_000_000));
}

#[test]
fn a_refused_peer_is_admitted_after_the_wait() {
    let mut limiter = RateLimiter::per_window(1);
    let t = 100_000_000;
    assert!(limiter.check("a", t));
    assert!(!limiter.check("a", t + 10));
    assert!(limiter.check("b", t + 60_000_000), "another peer opens the next window");
    assert!(limiter.check("a", t + 10 + limiter.retry_after_seconds() * 1_000_000));
}
