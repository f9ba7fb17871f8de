//! The upstream provider: its documents, its keys and its identity tokens.
use base64::engine::general_purpose::URL_SAFE_NO_PAD;
use base64::Engine;
use jsonwebtoken::{encode, Algorithm, EncodingKey, Header};
use mcpmem::registration::{
    check_metadata_url, client_of_document, host, is_acceptable_redirect_uri, register_as,
    resolve_metadata_document, Fetch, MetadataDocument, RegistrationError, RegistrationRequest,
};
use mcpmem::store::Store;
use mcpmem::upstream::{
    accept_claims, append_capped, claim_error, decoding_key, discovery_url, exchange_form,
    required_claims, select_key, DiscoveryDocument, Jwk, Provider, SignedBy, UpstreamError,
    MAX_DOCUMENT_BYTES, UNUSABLE,
};
use serde_json::Value;

const ISSUER: &str = "https://idp.example";
const D: &str = "jpsQnnGQmL-YBIffH1136cspYG6-0iY7X1fCE9-E9LI";
const X: &str = "f83OJ3D2xF1Bg8vub9tLe1gHMzV76e8Tus9uPHvRVEU";
const Y: &str = "x_FEzRu9m36HLN_tue659LNpXW6pCyStikYjKIWI5a0";

fn jwk() -> Jwk {
    Jwk {
        kty: "EC".into(),
        kid: Some("k1".into()),
        alg: Some("ES256".into()),
        n: None,
        e: None,
        x: Some(X.into()),
        y: Some(Y.into()),
    }
}

fn document() -> DiscoveryDocument {
    DiscoveryDocument {
        issuer: ISSUER.into(),
        authorization_endpoint: "https://idp.example/authorize?tenant=1".into(),
        token_endpoint: "https://idp.example/token".into(),
        jwks_uri: "https://idp.example/keys".into(),
    }
}

fn provider() -> Provider {
    let mut p = Provider::from_document(ISSUER, document()).unwrap();
    p.keys = vec![jwk()];
    p
}

/// The key pair of the published ES256 example, as the signer takes it.
fn signer() -> EncodingKey {
    let mut der: Vec<u8> = vec![
        0x30, 0x81, 0x87, 0x02, 0x01, 0x00, 0x30, 0x13, 0x06, 0x07, 0x2a, 0x86, 0x48, 0xce, 0x3d, 0x02, 0x01, 0x06,
        0x08, 0x2a, 0x86, 0x48, 0xce, 0x3d, 0x03, 0x01, 0x07, 0x04, 0x6d, 0x30, 0x6b, 0x02, 0x01, 0x01, 0x04, 0x20,
    ];
    der.extend(URL_SAFE_NO_PAD.decode(D).unwrap());
    der.extend([0xa1, 0x44, 0x03, 0x42, 0x00, 0x04]);
    der.extend(URL_SAFE_NO_PAD.decode(X).unwrap());
    der.extend(URL_SAFE_NO_PAD.decode(Y).unwrap());
    EncodingKey::from_ec_der(&der)
}

fn claims(exp: i64, iss: &str, aud: &str, nonce: &str) -> Value {
    let mut map = serde_json::Map::new();
    map.insert("exp".into(), Value::from(exp));
    map.insert("iss".into(), Value::from(iss));
    map.insert("aud".into(), Value::from(aud));
    map.insert("sub".into(), Value::from("u1"));
    map.insert("nonce".into(), Value::from(nonce));
    Value::Object(map)
}

fn token(kid: &str, claims: &Value) -> String {
    let mut header = Header::new(Algorithm::ES256);
    header.kid = Some(kid.to_owned());
    encode(&header, claims, &signer()).unwrap()
}

const FAR: i64 = 4_000_000_000;

#[test]
fn a_signed_token_identifies_a_human() {
    let p = provider();
    let good = token("k1", &claims(FAR, ISSUER, "me", "n1"));
    let read = p.verify(&good, "me", "n1", None).unwrap().unwrap();
    assert_eq!((read.iss.as_str(), read.sub.as_str()), (ISSUER, "u1"));
    assert_eq!(read.email, None);
    assert!(matches!(p.verify(&good, "me", "n2", None), Err(UpstreamError::Nonce)));
    assert!(matches!(p.verify(&good, "someone-else", "n1", None), Err(UpstreamError::Audience)));
    let old = token("k1", &claims(1_000, ISSUER, "me", "n1"));
    assert!(matches!(p.verify(&old, "me", "n1", None), Err(UpstreamError::Expired)));
    let foreign = token("k1", &claims(FAR, "https://other.example", "me", "n1"));
    assert!(matches!(p.verify(&foreign, "me", "n1", None), Err(UpstreamError::Issuer)));
    let rotated = token("k2", &claims(FAR, ISSUER, "me", "n1"));
    assert!(matches!(p.verify(&rotated, "me", "n1", None), Ok(None)));
    assert!(matches!(p.verify("no token", "me", "n1", None), Err(UpstreamError::Malformed(_))));
    let parts: Vec<&str> = good.split('.').collect();
    let forged = URL_SAFE_NO_PAD.encode(r#"{"exp":4000000000,"iss":"https://idp.example","aud":"me","sub":"root","nonce":"n1"}"#);
    let forged = format!("{}.{}.{}", parts[0], forged, parts[2]);
    assert!(matches!(p.verify(&forged, "me", "n1", None), Err(UpstreamError::Signature)));
    let mut incomplete = claims(FAR, ISSUER, "me", "n1");
    incomplete.as_object_mut().unwrap().remove("sub");
    assert!(matches!(p.verify(&token("k1", &incomplete), "me", "n1", None), Err(UpstreamError::Malformed(_))));
}

#[test]
fn an_audience_may_be_a_list_and_an_expiry_is_owed() {
    let p = provider();
    let listed = |list: Vec<&str>| {
        let mut c = claims(FAR, ISSUER, "me", "n1");
        let list: Vec<Value> = list.into_iter().map(Value::from).collect();
        c.as_object_mut().unwrap().insert("aud".into(), Value::Array(list));
        token("k1", &c)
    };
    assert!(matches!(p.verify(&listed(vec!["you", "me"]), "me", "n1", None), Ok(Some(_))));
    assert!(matches!(p.verify(&listed(vec!["you"]), "me", "n1", None), Err(UpstreamError::Audience)));
    for name in ["exp", "aud", "iss"] {
        let mut short = claims(FAR, ISSUER, "me", "n1");
        short.as_object_mut().unwrap().remove(name);
        assert!(matches!(p.verify(&token("k1", &short), "me", "n1", None), Err(UpstreamError::Malformed(_))), "{name}");
    }
    let list: Vec<Value> = vec![
        Value::from(FAR),
        Value::Null,
        Value::from("u1"),
        Value::from(ISSUER),
        Value::from("me"),
    ];
    let array = token("k1", &Value::Array(list));
    assert!(matches!(p.verify(&array, "me", "n1", None), Err(UpstreamError::Malformed(_))));
    let mut odd = claims(1_000, ISSUER, "me", "n1");
    odd.as_object_mut().unwrap().insert("email".into(), Value::from(5));
    let odd = token("k1", &odd);
    assert!(matches!(p.verify(&odd, "me", "n1", None), Err(UpstreamError::Malformed(m)) if m == UNUSABLE), "malformed before expired");
    let words = "JSON error: invalid type: integer `5`, expected a string at line 1 column 12";
    let told = |t: &str| p.verify(t, "me", "n1", Some(words.into()));
    assert!(matches!(told(&odd), Err(UpstreamError::Malformed(m)) if m == words));
    let good = token("k1", &claims(FAR, ISSUER, "me", "n1"));
    assert!(matches!(told(&good), Err(UpstreamError::Malformed(m)) if m == words), "a repeated member");
    let parts: Vec<&str> = good.split('.').collect();
    let forged = format!("{}.{}.{}", parts[0], URL_SAFE_NO_PAD.encode("{}"), parts[2]);
    assert!(matches!(told(&forged), Err(UpstreamError::Signature)), "the signature comes first");
}

#[test]
fn rotated_keys_are_kept_and_tried_once() {
    let mut p = provider();
    let moved = token("k2", &claims(FAR, ISSUER, "me", "n1"));
    assert!(matches!(p.verify_refreshed(vec![jwk()], &moved, "me", "n1", None), Err(UpstreamError::UnknownKey)));
    let rotated = Jwk { kid: Some("k2".into()), ..jwk() };
    assert_eq!(p.verify_refreshed(vec![rotated], &moved, "me", "n1", None).unwrap().sub, "u1");
    assert!(matches!(p.verify(&moved, "me", "n1", None), Ok(Some(_))));
    let broken = Jwk { kid: Some("k2".into()), x: Some("*".into()), ..jwk() };
    assert!(matches!(p.verify_refreshed(vec![broken], &moved, "me", "n1", None), Err(UpstreamError::Discovery(_))));
}

#[test]
fn each_failed_check_has_its_refusal() {
    assert!(matches!(claim_error("InvalidSignature", "m".into()), UpstreamError::Signature));
    assert!(matches!(claim_error("ExpiredSignature", "m".into()), UpstreamError::Expired));
    assert!(matches!(claim_error("InvalidAudience", "m".into()), UpstreamError::Audience));
    assert!(matches!(claim_error("InvalidIssuer", "m".into()), UpstreamError::Issuer));
    assert!(matches!(claim_error("InvalidToken", "m".into()), UpstreamError::Malformed(m) if m == "m"));
}

#[test]
fn an_rsa_key_is_taken_and_told_apart() {
    let mut p = provider();
    p.keys = vec![Jwk {
        kty: "RSA".into(),
        alg: None,
        n: Some(URL_SAFE_NO_PAD.encode([0xc5u8; 256])),
        e: Some("AQAB".into()),
        x: None,
        y: None,
        ..jwk()
    }];
    let plan = decoding_key(&p.keys[0], "RS256").unwrap();
    assert_eq!(plan.kind, SignedBy::Rsa);
    let mut header = Header::new(Algorithm::ES256);
    header.kid = Some("k1".into());
    let es = encode(&header, &claims(FAR, ISSUER, "me", "n1"), &signer()).unwrap();
    assert!(matches!(p.verify(&es, "me", "n1", None), Err(UpstreamError::Discovery(_))), "a key keeps to its algorithms");
    let head = URL_SAFE_NO_PAD.encode(r#"{"alg":"RS256","kid":"k1"}"#);
    let parts: Vec<&str> = es.split('.').collect();
    let rs = format!("{head}.{}.{}", parts[1], parts[2]);
    assert!(matches!(p.verify(&rs, "me", "n1", None), Err(UpstreamError::Signature)));
}

#[test]
fn keys_are_chosen_by_name() {
    let keys = vec![jwk(), Jwk { kid: Some("k2".into()), ..jwk() }];
    assert_eq!(select_key(&keys, &Some("k2".into())).unwrap().kid.as_deref(), Some("k2"));
    assert!(select_key(&keys, &Some("k3".into())).is_none());
    assert!(matches!(
        decoding_key(&Jwk { kty: "oct".into(), ..jwk() }, "HS256"),
        Err(UpstreamError::Discovery(m)) if m == "unsupported key type oct"
    ));
    assert!(matches!(
        decoding_key(&Jwk { y: None, ..jwk() }, "ES256"),
        Err(UpstreamError::Discovery(m)) if m == "a EC key carries no 'y'"
    ));
    assert!(decoding_key(&jwk(), "HS256").map(|p| p.alg).is_ok_and(|alg| alg == "ES256"));
    assert_eq!(required_claims(), vec!["exp", "iss", "aud", "sub"]);
}

#[test]
fn discovery_must_name_its_issuer() {
    assert_eq!(discovery_url("https://idp.example"), "https://idp.example/.well-known/openid-configuration");
    assert!(matches!(
        Provider::from_document("https://other.example", document()),
        Err(UpstreamError::Discovery(m)) if m == "the document at \
            https://other.example/.well-known/openid-configuration names the issuer 'https://idp.example'"
    ));
    let mut bad = document();
    bad.token_endpoint = "not a url".into();
    assert!(matches!(
        Provider::from_document(ISSUER, bad),
        Err(UpstreamError::Discovery(m)) if m.starts_with("token_endpoint is not a URL: not a url: ")
    ));
}

#[test]
fn the_sign_in_url_keeps_its_query() {
    let url = provider().authorize_url("me", "https://mem.example/oauth/callback", "s t", "n", "c").unwrap();
    assert!(url.starts_with("https://idp.example/authorize?tenant=1&"), "{url}");
    assert!(url.contains("state=s+t") || url.contains("state=s%20t"), "{url}");
    assert!(url.contains("code_challenge_method=S256"));
    let form = exchange_form("code", "v", "me", Some("secret"), "https://mem.example/oauth/callback");
    assert!(form.contains(&("client_secret".to_owned(), "secret".to_owned())));
    assert!(form.contains(&("code_verifier".to_owned(), "v".to_owned())));
}

#[test]
fn a_document_is_read_up_to_its_limit() {
    let mut body = vec![0; MAX_DOCUMENT_BYTES - 1];
    assert!(append_capped(&mut body, &[1]).is_ok());
    assert_eq!(body.len(), MAX_DOCUMENT_BYTES);
    assert!(append_capped(&mut body, &[1]).is_err());
}

#[test]
fn claims_are_held_to_the_nonce() {
    let good = r#"{"iss":"i","sub":"s","email":null,"nonce":"n"}"#;
    assert_eq!(accept_claims(good, "n").unwrap().sub, "s");
    assert!(matches!(accept_claims(good, "m"), Err(UpstreamError::Nonce)));
    assert!(matches!(accept_claims(r#"{"iss":"i","nonce":"n"}"#, "n"), Err(UpstreamError::Malformed(_))));
    assert!(matches!(accept_claims(r#"{"iss":1,"sub":"s","nonce":"n"}"#, "n"), Err(UpstreamError::Malformed(_))));
    assert!(accept_claims("nothing", "n").is_err());
}

#[test]
fn redirect_uris_use_tls_or_stay_local() {
    for uri in ["https://client.example/cb", "http://127.0.0.1:8080/cb", "http://localhost/cb"] {
        assert!(is_acceptable_redirect_uri(uri), "{uri}");
    }
    for uri in ["http://client.example/cb", "https://client.example/cb#frag", "javascript:alert(1)", ""] {
        assert!(!is_acceptable_redirect_uri(uri), "{uri}");
    }
    assert_eq!(host("https://client.example:443/cb", "https://"), Some("client.example"));
    assert_eq!(host("http://client.example", "https://"), None);
}

fn request(name: &str, uris: &[&str]) -> Option<RegistrationRequest> {
    Some(RegistrationRequest {
        client_name: name.into(),
        redirect_uris: uris.iter().map(|u| (*u).to_owned()).collect(),
    })
}

#[test]
fn a_registration_is_bounded() {
    let mut store = Store::new();
    let done = register_as(&mut store, request("Editor", &["https://c.example/cb"]), "id".into(), 5_000_000).unwrap();
    assert_eq!(done.client_id_issued_at, 5);
    assert_eq!(done.token_endpoint_auth_method, "none");
    assert!(store.get_client("id").unwrap().is_some());
    let long = "x".repeat(257);
    let many: Vec<&str> = vec!["https://c.example/cb"; 9];
    assert!(matches!(register_as(&mut store, None, "b".into(), 1), Err(RegistrationError::InvalidClientMetadata)));
    assert!(register_as(&mut store, request(&long, &["https://c.example/cb"]), "b".into(), 1).is_err());
    assert!(register_as(&mut store, request("x", &many), "b".into(), 1).is_err());
    assert!(matches!(
        register_as(&mut store, request("x", &["http://c.example/cb"]), "b".into(), 1),
        Err(RegistrationError::InvalidRedirectUri)
    ));
}

struct Canned(Result<String, String>);

impl Fetch for Canned {
    fn get(&self, _url: &str) -> Result<String, String> {
        self.0.clone()
    }
}

#[test]
fn a_metadata_document_names_itself() {
    let url = "https://docs.example/c.json";
    let allowed = vec!["DOCS.example".to_owned()];
    let described = |id: &str| MetadataDocument {
        client_id: id.into(),
        client_name: "Docs".into(),
        redirect_uris: vec!["https://docs.example/cb".into()],
    };
    assert!(check_metadata_url(url, &allowed).is_ok());
    assert!(matches!(check_metadata_url("https://evil.example/c.json", &allowed), Err(RegistrationError::DomainNotAllowed)));
    assert!(matches!(check_metadata_url("http://docs.example/c.json", &allowed), Err(RegistrationError::DomainNotAllowed)));
    let record = client_of_document(url, Some(described(url)), 9).unwrap();
    assert_eq!((record.source.as_str(), record.created_us), ("cimd", 9));
    assert!(matches!(client_of_document(url, Some(described("x")), 9), Err(RegistrationError::MetadataMismatch)));
    assert!(matches!(client_of_document(url, None, 9), Err(RegistrationError::MalformedDocument)));
    let parse = |body: String| {
        assert_eq!(body, "{}");
        Some(described("https://docs.example/c.json"))
    };
    assert!(resolve_metadata_document(url, &allowed, &Canned(Ok("{}".into())), parse, 9).is_ok());
    let failed = resolve_metadata_document(url, &allowed, &Canned(Err("down".into())), parse, 9);
    assert!(matches!(failed, Err(RegistrationError::Fetch(m)) if m == "down"));
}
