//! Subscriptions, authorization of callers, tools and roles.
use mcpmem::authz::{
    allows_tool, bearer_principal, local_principal, machine_mutation_context, missing_scope,
    oauth_principal, request_fingerprint, Principal, PrincipalKind,
};
use mcpmem::changes::{ChangeOperation, EntityChange};
use mcpmem::crypto::sha256;
use mcpmem::graph::EntitySnapshot;
use mcpmem::order::TextSet;
use mcpmem::roles::{
    conclude, IndexerService, LifecycleState, McpTransportService, RoleSet, RuntimeComposition,
    RuntimeError, RuntimeRole, TaskEnd, Transport, ROUND_MS,
};
use mcpmem::subscriptions::{
    decode, encode_lists, SubscriptionEntry, SubscriptionRepository, SubscriptionRow,
    WebhookSubscription,
};
use mcpmem::tools::{category_of, parse_categories, scope_of, ToolCategory};

fn subscription(id: u128, consumer: &str) -> WebhookSubscription {
    WebhookSubscription {
        subscription_id: id,
        endpoint: "https://hook.example".into(),
        event_operations: vec![ChangeOperation::Create],
        entity_types: vec!["person".into()],
        ignored_origins: vec!["batch".into()],
        consumer_origin: consumer.into(),
        secret_ref: "vault/key".into(),
        enabled: true,
    }
}

fn created(kind: &str) -> EntityChange {
    EntityChange {
        operation: ChangeOperation::Create,
        before: None,
        after: Some(EntitySnapshot {
            entity_id: 1,
            name: "ada".into(),
            entity_type: kind.into(),
            observations: Vec::new(),
        }),
        relation_delta: None,
        old_name: None,
        new_name: None,
    }
}

#[test]
fn no_consumer_hears_its_own_change() {
    let mut repository = SubscriptionRepository::new();
    repository.upsert(subscription(1, "crm"), 5).unwrap();
    repository.upsert(subscription(2, "erp"), 6).unwrap();
    let heard = |origin: &str, kind: &str| -> Vec<u128> {
        repository.matching(&created(kind), origin).unwrap().iter().map(|s| s.subscription_id).collect()
    };
    assert_eq!(heard("crm", "person"), vec![2]);
    assert_eq!(heard("mcp", "person"), vec![1, 2]);
    assert!(heard("batch", "person").is_empty());
    assert!(heard("mcp", "robot").is_empty());
}

#[test]
fn an_event_is_queued_once() {
    let mut repository = SubscriptionRepository::new();
    repository.upsert(subscription(1, "crm"), 5).unwrap();
    assert_eq!(repository.enqueue_matching(77, &created("person"), "mcp").unwrap(), 1);
    assert_eq!(repository.enqueue_matching(77, &created("person"), "mcp").unwrap(), 0);
    assert_eq!(repository.enqueue_matching(78, &created("person"), "mcp").unwrap(), 1);
}

#[test]
fn subscriptions_are_kept_by_identifier() {
    let mut repository = SubscriptionRepository::new();
    repository.upsert(subscription(1, "crm"), 5).unwrap();
    repository.upsert(WebhookSubscription { enabled: false, ..subscription(1, "crm") }, 6).unwrap();
    assert_eq!(repository.list().len(), 1);
    assert!(!repository.get(1).unwrap().enabled);
    assert!(repository.upsert(WebhookSubscription { endpoint: " ".into(), ..subscription(3, "x") }, 7).is_err());
    assert!(repository.delete(1));
    assert!(!repository.delete(1));
    let row = || SubscriptionEntry { subscription: subscription(1, "crm"), created_at_us: 1, updated_at_us: 1 };
    assert!(SubscriptionRepository::from_rows(vec![row()], Vec::new()).is_some());
    assert!(SubscriptionRepository::from_rows(vec![row(), row()], Vec::new()).is_none());
}

#[test]
fn a_row_stores_one_subscription() {
    let s = subscription(0x0000_0000_0000_4000_8000_0000_0000_0001, "crm");
    let (event_operations, entity_types, ignored_origins) = encode_lists(&s);
    assert_eq!(entity_types, "[\"person\"]");
    let row = SubscriptionRow {
        subscription_id: "00000000-0000-4000-8000-000000000001".into(),
        endpoint: s.endpoint.clone(),
        event_operations,
        entity_types,
        ignored_origins,
        consumer_origin: s.consumer_origin.clone(),
        secret_ref: s.secret_ref.clone(),
        enabled: true,
    };
    let read = decode(&row).unwrap();
    assert_eq!(read.subscription_id, s.subscription_id);
    assert_eq!(read.event_operations, s.event_operations);
    assert_eq!(read.ignored_origins, vec!["batch"]);
    assert!(decode(&SubscriptionRow { entity_types: "person".into(), ..row }).is_err());
}

#[test]
fn a_tool_needs_the_scope_of_its_category() {
    assert_eq!(category_of("read_graph"), Some(ToolCategory::GraphRead));
    assert_eq!(scope_of("create_entities"), Some("graph-write"));
    assert_eq!(category_of("no_such_tool"), None);
    let reader = bearer_principal(&vec![ToolCategory::GraphRead]);
    assert!(allows_tool(&reader, "read_graph"));
    assert_eq!(missing_scope(&reader, "create_entities"), Some("graph-write"));
    assert!(allows_tool(&local_principal(), "create_entities"));
    let mut scopes = TextSet::new();
    scopes.insert("graph-write");
    let human = oauth_principal("ada", scopes);
    assert_eq!(human.kind, PrincipalKind::Human);
    assert!(allows_tool(&human, "create_entities"));
    assert_eq!(ToolCategory::parse("vectors"), Ok(ToolCategory::Vectors));
    assert!(parse_categories(&vec!["graph-read".into(), "x".into()]).is_err());
    for c in ToolCategory::all() {
        assert_eq!(ToolCategory::parse(c.slug()), Ok(c));
    }
}

#[test]
fn a_machine_writes_from_its_origins() {
    let mut scopes = TextSet::new();
    scopes.insert("memory:write");
    let mut allowed_origins = TextSet::new();
    allowed_origins.insert("crm");
    let machine = Principal { id: "crm-bot".into(), kind: PrincipalKind::Machine, scopes, allowed_origins };
    let (context, print) = machine_mutation_context(&machine, "crm", "k1".into(), 9, None, 0, b"{}").unwrap();
    assert_eq!((context.actor.as_str(), context.origin.as_str()), ("crm-bot", "crm"));
    assert_eq!(print, request_fingerprint("POST", "/api/v1/mutations", b"{}"));
    assert_eq!(print, sha256(b"POST\n/api/v1/mutations\n{}"));
    let elsewhere = machine_mutation_context(&machine, "erp", "k1".into(), 9, None, 0, b"{}");
    assert_eq!(elsewhere.unwrap_err().message(), "Invalid params: machine principal is not authorized for this origin");
    let bad = machine_mutation_context(&machine, "crm", "k1".into(), 0, None, 0, b"{}");
    assert_eq!(bad.unwrap_err().message(), "Invalid params: Invalid mutation provenance");
}

#[test]
fn the_first_role_to_end_decides() {
    let started = RuntimeComposition::started(&RoleSet::mcp_only());
    assert_eq!(started.len(), 1);
    assert_eq!((started[0].role, started[0].state), (RuntimeRole::Mcp, LifecycleState::Running));
    assert!(conclude(Some(TaskEnd::Finished)).is_ok());
    let failed = conclude(Some(TaskEnd::Failed { role: RuntimeRole::Indexer, message: "disk".into() }));
    assert!(matches!(&failed, Err(RuntimeError::RoleFailed { role: RuntimeRole::Indexer, message }) if message == "disk"));
    let broken = conclude(Some(TaskEnd::Broken { message: "panic".into() }));
    assert!(matches!(broken, Err(RuntimeError::TaskFailed { .. })));
    let service = McpTransportService::new(Transport::Http, "127.0.0.1:1".into());
    assert!(matches!(service.ended(Err("bind".into())), TaskEnd::Failed { role: RuntimeRole::Mcp, .. }));
    let indexer = IndexerService::from_environment("/m.db".into()).unwrap();
    assert!(matches!(indexer.after_round(Ok(())), Ok(wait) if wait == ROUND_MS));
    assert!(indexer.after_round(Err("x".into())).is_err());
}
