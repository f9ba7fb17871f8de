//! Scopes and the principals file.
use mcpmem::principals::{canonical_scopes, is_known_scope, PrincipalEntry, ADMIN_SCOPE};

#[test]
fn admin_scope_is_known_and_survives_scope_set() {
    assert!(is_known_scope(ADMIN_SCOPE));
    let entry = PrincipalEntry {
        name: "ops".into(),
        iss: "https://issuer".into(),
        sub: "s1".into(),
        label: None,
        scopes: vec![ADMIN_SCOPE.to_owned()],
    };
    assert!(entry.scope_set().contains(ADMIN_SCOPE));
}

#[test]
fn tool_category_slugs_stay_canonical() {
    assert!(is_known_scope("graph-read"));
    assert!(!is_known_scope("graph-admin"));
    let entry = PrincipalEntry {
        name: "adam".into(),
        iss: "https://issuer".into(),
        sub: "s2".into(),
        label: None,
        scopes: vec!["graph-read".into(), "graph-read".into()],
    };
    assert_eq!(entry.scope_set().to_vec(), vec!["graph-read"]);
    // Canonical slugs only, in input order.
    assert_eq!(
        canonical_scopes(&vec!["graph-read".into(), "admin".into()]).unwrap(),
        vec!["graph-read", "admin"]
    );
}

#[test]
fn canonical_scopes_refuses_unknown_scopes() {
    assert!(canonical_scopes(&vec!["graph-read".into(), "everything".into()]).is_err());
}
