//! Principals that are made while the server runs, and the waiting list.
use mcpmem::principals::canonical_scopes;
use mcpmem::runtime_principals::{PrincipalsStore, WAITLIST_CAP};

fn scopes() -> Vec<String> {
    canonical_scopes(&vec!["graph-read".to_owned()]).unwrap()
}

#[test]
fn create_update_get_delete_round_trip() {
    let mut store = PrincipalsStore::new();
    store.create("iss", "sub", "ada", None, &scopes(), 1_000_000).unwrap();
    let got = store.get("iss", "sub").unwrap();
    assert_eq!(got.name, "ada");
    assert_eq!(got.created_us, 1_000_000);
    assert!(store.update("iss", "sub", "ada l", &Some("label".to_owned()), &scopes(), 2_000_000));
    let got = store.get("iss", "sub").unwrap();
    assert_eq!(got.label.as_deref(), Some("label"));
    assert_eq!(got.updated_us, 2_000_000);
    assert!(store.delete("iss", "sub"));
    assert!(!store.delete("iss", "sub"));
    assert!(store.get("iss", "sub").is_none());
}

#[test]
fn waitlist_upsert_refreshes_last_seen_but_not_first_seen() {
    let mut store = PrincipalsStore::new();
    store.record_waitlist("iss", "sub", "ada", 86_400_000_000, 1_000_000);
    store.record_waitlist("iss", "sub", "ada2", 86_400_000_000, 2_000_000);
    let e = store.waitlist_get("iss", "sub").unwrap();
    assert_eq!(e.first_seen_us, 1_000_000);
    assert_eq!(e.last_seen_us, 2_000_000);
    assert_eq!(e.name, "ada2");
}

#[test]
fn expired_entries_evict_from_first_seen() {
    let mut store = PrincipalsStore::new();
    let ttl_us = 86_400_000_000;
    let mut now = 1_000_000;
    store.record_waitlist("iss", "a", "a", ttl_us, now);
    now += ttl_us + 1;
    // A second record runs the eviction sweep.
    store.record_waitlist("iss", "b", "b", ttl_us, now);
    assert!(store.waitlist_get("iss", "a").is_none());
    assert!(store.waitlist_get("iss", "b").is_some());
}

#[test]
fn waitlist_is_capped_at_25_evicting_least_recent() {
    let mut store = PrincipalsStore::new();
    for i in 0..26 {
        let name = format!("u{i}");
        store.record_waitlist("iss", &name, &name, 86_400_000_000, 1_000_000);
    }
    let rows = store.waitlist();
    assert_eq!(rows.len(), WAITLIST_CAP);
    // u0 was first, so it is the oldest by last_seen and is gone.
    assert!(rows.iter().all(|r| r.sub != "u0"));
    assert!(rows.iter().any(|r| r.sub == "u25"));
}

#[test]
fn approve_creates_a_principal_and_removes_the_entry() {
    let mut store = PrincipalsStore::new();
    store.record_waitlist("iss", "sub", "ada", 86_400_000_000, 1_000_000);
    let scopes = scopes();
    let p = store.approve("iss", "sub", &scopes, 1_000_000).unwrap().unwrap();
    assert_eq!(p.name, "ada");
    assert_eq!(p.label, None);
    assert!(store.waitlist_get("iss", "sub").is_none());
    assert!(store.get("iss", "sub").is_some());
    // Approving a nonexistent entry is a miss, not an error.
    assert!(store.approve("iss", "nope", &scopes, 1_000_000).unwrap().is_none());
}

#[test]
fn nobody_is_made_twice() {
    let mut store = PrincipalsStore::new();
    store.create("iss", "sub", "ada", None, &scopes(), 1).unwrap();
    assert!(store.create("iss", "sub", "eve", None, &scopes(), 2).is_err());
    assert_eq!(store.get("iss", "sub").unwrap().name, "ada");
    assert!(!store.update("iss", "other", "x", &None, &scopes(), 3));
    store.create("iss", "two", "bob", None, &scopes(), 4).unwrap();
    let names: Vec<String> = store.list().into_iter().map(|p| p.name).collect();
    assert_eq!(names, vec!["ada", "bob"]);
}

#[test]
fn a_dismissed_entry_is_gone() {
    let mut store = PrincipalsStore::new();
    store.record_waitlist("iss", "sub", "ada", 10, 1);
    assert!(store.dismiss_waitlist("iss", "sub"));
    assert!(!store.dismiss_waitlist("iss", "sub"));
}
