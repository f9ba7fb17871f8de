//! Mutations of the graph, their changes and the counters beside the rows.
use mcpmem::changes::{affected_names, capture, effective_changes, ChangeOperation};
use mcpmem::errors::MCSError;
use mcpmem::graph::{EntityRow, Graph, GraphStat, RelationRow, TypeRow};
use mcpmem::integrity::{
    admit_repair, audit, ensure_relation_unique_index, repair, require_integrity_check, IndexShape,
    Preflight,
};
use mcpmem::mutation::{
    execute, MutationContext, MutationRequest, MutationResult, ObservationUpdate,
};
use mcpmem::order::TextSet;
use mcpmem::service::{
    CommittedChangeSet, MutationOutcome, MutationService, ParentEvent, Surroundings,
};
use mcpmem::types::{sorted_relations, Entity, Relation};

fn empty() -> Graph {
    Graph {
        entities: Vec::new(),
        relations: Vec::new(),
        types: Vec::new(),
        stat: GraphStat { entities: Some(0), relations: Some(0), observations: Some(0) },
        next_entity_id: 1,
    }
}

fn entity(name: &str, kind: &str, observations: &[&str]) -> Entity {
    Entity {
        name: name.into(),
        entity_type: kind.into(),
        observations: observations.iter().map(|o| (*o).to_owned()).collect(),
    }
}

fn relation(from: &str, kind: &str, to: &str) -> Relation {
    Relation { from: from.into(), to: to.into(), relation_type: kind.into() }
}

fn at(now_us: i64) -> Surroundings {
    Surroundings { parent: None, now_us }
}

fn applied(service: &mut MutationService, request: MutationRequest) -> (CommittedChangeSet, MutationResult) {
    service.apply_with_result(request, MutationContext::local(), at(7)).unwrap()
}

/// Ada and Bob know each other; Ada wrote a paper.
fn people() -> MutationService {
    let mut service = MutationService::new(empty());
    applied(
        &mut service,
        MutationRequest::CreateEntities {
            entities: vec![
                entity("ada", "person", &["counts"]),
                entity("bob", "person", &[]),
                entity("paper", "document", &["long", "dull"]),
            ],
        },
    );
    applied(
        &mut service,
        MutationRequest::CreateRelations {
            relations: vec![
                relation("ada", "knows", "bob"),
                relation("bob", "knows", "ada"),
                relation("ada", "wrote", "paper"),
            ],
        },
    );
    service
}

fn row<'a>(graph: &'a Graph, name: &str) -> &'a EntityRow {
    graph.entities.iter().find(|e| e.name == name).unwrap()
}

fn counted(graph: &Graph, kind: i64, name: &str) -> i64 {
    graph.types.iter().find(|t| t.kind == kind && t.name == name).unwrap().count
}

fn assert_exact(graph: &Graph) {
    let report = audit(graph).unwrap();
    assert!(report.is_clean(), "{report:?}");
    assert_eq!(graph.stat.entities, Some(graph.entities.len() as i64));
    assert_eq!(
        graph.stat.observations,
        Some(graph.entities.iter().map(|e| e.observations.len() as i64).sum())
    );
    for e in &graph.entities {
        assert_eq!(e.obs_count, e.observations.len() as i64);
    }
}

#[test]
fn created_entities_are_read_back() {
    let mut service = MutationService::new(empty());
    let (changes, result) = applied(
        &mut service,
        MutationRequest::CreateEntities {
            entities: vec![entity("ada", "person", &["counts"]), entity("ada", "robot", &[]), entity("", "x", &[])],
        },
    );
    assert!(matches!(&result, MutationResult::Entities(made) if made.len() == 1 && made[0].name == "ada"));
    assert_eq!(changes.changes.len(), 1);
    assert_eq!(changes.changes[0].operation, ChangeOperation::Create);
    let read = service.graph.read_entity("ada").unwrap();
    assert_eq!(read.entity_type, "person");
    assert_eq!(read.observations, vec!["counts"]);
    assert!(service.graph.read_entity("bob").is_none());
    assert_exact(&service.graph);
}

#[test]
fn every_mutation_keeps_the_counters_exact() {
    let mut service = people();
    assert_exact(&service.graph);
    assert_eq!(row(&service.graph, "ada").out_deg, 2);
    assert_eq!(row(&service.graph, "ada").in_deg, 1);
    assert_eq!(counted(&service.graph, 0, "person"), 2);
    assert_eq!(counted(&service.graph, 1, "knows"), 2);
    for request in [
        MutationRequest::UpsertEntities {
            entities: vec![entity("ada", "author", &["counts", "writes"]), entity("eve", "person", &[])],
        },
        MutationRequest::AddObservations {
            observations: vec![ObservationUpdate { entity_name: "bob".into(), contents: vec!["a".into(), "a".into()] }],
        },
        MutationRequest::DeleteObservations {
            observations: vec![ObservationUpdate { entity_name: "bob".into(), contents: vec!["a".into()] }],
        },
        MutationRequest::DeleteRelations { relations: vec![relation("ada", "knows", "bob")] },
        MutationRequest::RenameEntity { old_name: "bob".into(), new_name: "robert".into() },
        MutationRequest::MergeEntities { source: "robert".into(), target: "eve".into() },
        MutationRequest::Compact,
        MutationRequest::DeleteEntities { names: vec!["paper".into()] },
        MutationRequest::Wipe,
    ] {
        applied(&mut service, request);
        assert_exact(&service.graph);
    }
    assert!(service.graph.entities.is_empty());
    assert!(service.graph.relations.is_empty());
    assert_eq!(counted(&service.graph, 0, "person"), 0);
}

#[test]
fn no_relation_is_stored_twice() {
    let mut service = people();
    let (changes, result) = applied(
        &mut service,
        MutationRequest::CreateRelations {
            relations: vec![relation("ada", "knows", "bob"), relation("ada", "knows", "nobody")],
        },
    );
    assert!(matches!(&result, MutationResult::Relations(made) if made.is_empty()));
    assert!(changes.changes.is_empty());
    assert_eq!(service.graph.relations.len(), 3);
}

#[test]
fn deleted_entities_are_gone_with_their_relations() {
    let mut service = people();
    let (changes, _) = applied(&mut service, MutationRequest::DeleteEntities { names: vec!["ada".into(), "x".into()] });
    assert!(service.graph.read_entity("ada").is_none());
    assert!(service.graph.relations.is_empty());
    let told: Vec<ChangeOperation> = changes.changes.iter().map(|c| c.operation).collect();
    assert_eq!(told, vec![ChangeOperation::Delete, ChangeOperation::Update, ChangeOperation::Update]);
    let delta = changes.changes[1].relation_delta.as_ref().unwrap();
    assert!(delta.added.is_empty());
    assert_eq!(delta.removed, vec![relation("ada", "knows", "bob"), relation("bob", "knows", "ada")]);
    assert_exact(&service.graph);
}

#[test]
fn a_renamed_entity_keeps_its_relations() {
    let mut service = people();
    let (changes, result) =
        applied(&mut service, MutationRequest::RenameEntity { old_name: "ada".into(), new_name: "lovelace".into() });
    assert!(matches!(&result, MutationResult::Entity(e) if e.name == "lovelace"));
    assert_eq!(changes.changes.len(), 1);
    assert_eq!(changes.changes[0].operation, ChangeOperation::Rename);
    assert_eq!(changes.changes[0].old_name.as_deref(), Some("ada"));
    assert_eq!(changes.changes[0].new_name.as_deref(), Some("lovelace"));
    assert!(service.graph.read_entity("ada").is_none());
    assert_eq!(
        service.graph.relations_for("lovelace"),
        vec![
            relation("bob", "knows", "lovelace"),
            relation("lovelace", "knows", "bob"),
            relation("lovelace", "wrote", "paper"),
        ]
    );
    assert_exact(&service.graph);
}

#[test]
fn a_merge_moves_observations_and_relations() {
    let mut service = people();
    let (_, result) = applied(&mut service, MutationRequest::MergeEntities { source: "ada".into(), target: "bob".into() });
    assert!(matches!(&result, MutationResult::Entity(e) if e.observations == vec!["counts"]));
    assert!(service.graph.read_entity("ada").is_none());
    assert_eq!(
        service.graph.relations_for("bob"),
        vec![relation("bob", "knows", "bob"), relation("bob", "wrote", "paper")]
    );
    assert_exact(&service.graph);
}

#[test]
fn purging_takes_what_an_entity_defines() {
    let mut service = people();
    applied(
        &mut service,
        MutationRequest::CreateRelations { relations: vec![relation("ada", "defines", "paper")] },
    );
    let (_, result) = applied(&mut service, MutationRequest::PurgeDefinedEntities { name: "ada".into() });
    assert!(matches!(result, MutationResult::Count(2)));
    assert!(service.graph.read_entity("paper").is_none());
    assert!(service.graph.read_entity("bob").is_some());
    assert_exact(&service.graph);
}

#[test]
fn a_refused_request_leaves_no_trace() {
    let mut service = people();
    let before = service.graph.entities.len();
    for (request, words) in [
        (
            MutationRequest::AddObservations {
                observations: vec![
                    ObservationUpdate { entity_name: "bob".into(), contents: vec!["kept?".into()] },
                    ObservationUpdate { entity_name: "nobody".into(), contents: vec!["x".into()] },
                ],
            },
            "Entity 'nobody' not found",
        ),
        (
            MutationRequest::RenameEntity { old_name: "ada".into(), new_name: "bob".into() },
            "Entity 'bob' already exists",
        ),
        (
            MutationRequest::MergeEntities { source: "nobody".into(), target: "bob".into() },
            "Entity 'nobody' not found",
        ),
    ] {
        let error = service.apply(request, MutationContext::local(), at(9)).unwrap_err();
        assert!(matches!(&error, MCSError::InvalidParams(m) if m == words), "{error:?}");
        assert_eq!(error.error_code(), -32602);
        assert_eq!(error.message(), format!("Invalid params: {words}"));
    }
    assert_eq!(service.graph.entities.len(), before);
    assert!(service.graph.read_entity("bob").unwrap().observations.is_empty());
}

#[test]
fn a_full_identifier_space_is_refused() {
    let mut graph = empty();
    graph.next_entity_id = i64::MAX;
    let mut service = MutationService::new(graph);
    let error = service
        .apply(
            MutationRequest::CreateEntities { entities: vec![entity("a", "t", &[])] },
            MutationContext::local(),
            at(1),
        )
        .unwrap_err();
    assert!(matches!(&error, MCSError::MemoryError(m) if m == "identifier space exhausted"));
}

#[test]
fn a_counter_out_of_range_is_refused() {
    let mut graph = empty();
    graph.stat.entities = Some(i64::MAX);
    let mut service = MutationService::new(graph);
    let error = service
        .apply(
            MutationRequest::CreateEntities { entities: vec![entity("a", "t", &[])] },
            MutationContext::local(),
            at(1),
        )
        .unwrap_err();
    assert!(matches!(&error, MCSError::MemoryError(m) if m == "counter out of range"));
    assert!(service.graph.entities.is_empty());
}

fn keyed(key: &str) -> MutationContext {
    MutationContext { idempotency_key: Some(key.into()), ..MutationContext::local() }
}

#[test]
fn a_repeated_request_is_replayed() {
    let mut service = MutationService::new(empty());
    let fingerprint = "0f".repeat(32);
    let request = || MutationRequest::CreateEntities { entities: vec![entity("ada", "person", &[])] };
    let first = service.apply_idempotent(request(), keyed("k1"), &fingerprint, at(1)).unwrap();
    assert!(!first.replayed);
    let transaction = first.changes.transaction_id;
    let other = MutationRequest::Wipe;
    let second = service.apply_idempotent(other, keyed("k1"), &fingerprint, at(2)).unwrap();
    assert!(second.replayed);
    assert_eq!(second.changes.transaction_id, transaction);
    assert_eq!(second.changes.changes, first.changes.changes);
    assert!(matches!(&second.result, MutationResult::Entities(v) if v[0].name == "ada"));
    assert_eq!(service.graph.entities.len(), 1);
    assert_eq!(service.records.len(), 1);
    let error = service.apply_idempotent(request(), keyed("k1"), &"00".repeat(32), at(3)).unwrap_err();
    assert!(matches!(&error, MCSError::InvalidParams(m) if m == "idempotency_conflict"));
}

#[test]
fn idempotent_requests_need_a_key_and_a_fingerprint() {
    let mut service = MutationService::new(empty());
    let short = service.apply_idempotent(MutationRequest::Compact, keyed("k"), "0f", at(1)).unwrap_err();
    assert!(matches!(&short, MCSError::InvalidParams(m) if m == "idempotent ingress requires a key and SHA-256 request fingerprint"));
    let bare = service
        .apply_idempotent(MutationRequest::Compact, MutationContext::local(), &"0f".repeat(32), at(1))
        .unwrap_err();
    assert!(matches!(bare, MCSError::InvalidParams(_)));
    let plain = service.apply(MutationRequest::Compact, keyed("k"), at(1)).unwrap_err();
    assert!(matches!(&plain, MCSError::InvalidParams(m) if m == "idempotent ingress requires a raw request fingerprint"));
}

#[test]
fn a_cause_must_be_the_previous_hop() {
    let mut service = MutationService::new(empty());
    let caused = || MutationContext {
        correlation_id: 5,
        causation_id: Some(9),
        hop_count: 3,
        ..MutationContext::local()
    };
    let with = |parent: Option<ParentEvent>| Surroundings { parent, now_us: 1 };
    let unknown = service.apply(MutationRequest::Compact, caused(), with(None)).unwrap_err();
    assert!(matches!(&unknown, MCSError::InvalidParams(m) if m == "unknown causation event"));
    for parent in [ParentEvent { correlation_id: 6, hop_count: 2 }, ParentEvent { correlation_id: 5, hop_count: 3 }] {
        let wrong = service.apply(MutationRequest::Compact, caused(), with(Some(parent))).unwrap_err();
        assert!(matches!(&wrong, MCSError::InvalidParams(m) if m == "invalid causation chain"));
    }
    let right = with(Some(ParentEvent { correlation_id: 5, hop_count: 2 }));
    assert!(service.apply(MutationRequest::Compact, caused(), right).is_ok());
}

#[test]
fn transactions_have_random_identifiers() {
    let mut service = MutationService::new(empty());
    let a = service.apply(MutationRequest::Compact, MutationContext::local(), at(1)).unwrap();
    let b = service.apply(MutationRequest::Compact, MutationContext::local(), at(1)).unwrap();
    assert_ne!(a.transaction_id, b.transaction_id);
    assert_eq!((a.transaction_id >> 76) & 0xf, 4);
    assert_eq!((a.transaction_id >> 62) & 0x3, 2);
}

#[test]
fn effective_changes_tell_what_differs() {
    let mut service = people();
    let request = MutationRequest::DeleteRelations { relations: vec![relation("ada", "knows", "bob")] };
    let names = affected_names(&service.graph, &request);
    assert_eq!(names.to_vec(), vec!["ada", "bob"]);
    let before = capture(&service.graph, &names);
    assert!(matches!(execute(&mut service.graph, &request, 1), Ok(MutationResult::Unit)));
    let after = capture(&service.graph, &names);
    let told = effective_changes(&before, &after);
    assert_eq!(told.len(), 2);
    assert!(told.iter().all(|c| c.operation == ChangeOperation::Update && c.before == c.after));
    let back = effective_changes(&after, &before);
    assert_eq!(back.len(), told.len());
    for (there, back) in told.iter().zip(&back) {
        assert_eq!((&there.before, &there.after), (&back.after, &back.before));
        let (x, y) = (there.relation_delta.as_ref(), back.relation_delta.as_ref());
        assert_eq!(x.map(|d| (&d.added, &d.removed)), y.map(|d| (&d.removed, &d.added)));
    }
    let nothing = effective_changes(&after, &after);
    assert!(nothing.is_empty());
    let mut one = TextSet::new();
    one.insert("paper");
    assert_eq!(capture(&service.graph, &one).relation_rows, vec![relation("ada", "wrote", "paper")]);
}

#[test]
fn relations_are_listed_in_order() {
    let sorted = sorted_relations(vec![relation("b", "x", "a"), relation("a", "y", "b"), relation("a", "x", "b")]);
    assert_eq!(sorted, vec![relation("a", "x", "b"), relation("a", "y", "b"), relation("b", "x", "a")]);
}

/// A graph with one relation stored twice and counters that are off.
fn broken() -> Graph {
    let mut service = people();
    let twin: RelationRow = RelationRow {
        from_id: service.graph.relations[0].from_id,
        to_id: service.graph.relations[0].to_id,
        type_id: service.graph.relations[0].type_id,
        created_us: 99,
    };
    service.graph.relations.push(twin);
    service.graph.entities[0].in_deg = 40;
    service.graph.types.push(TypeRow { id: 77, kind: 1, name: "ghost".into(), count: 5 });
    service.graph
}

#[test]
fn an_audit_finds_duplicates_and_drift() {
    let report = audit(&broken()).unwrap();
    assert!(!report.is_clean());
    assert_eq!(report.duplicate_groups, 1);
    assert_eq!(report.duplicate_rows, 1);
    assert_eq!(report.dangling_relation_rows, 0);
    assert_eq!(report.drift.graph_stat_relations.stored, Some(3));
    assert_eq!(report.drift.graph_stat_relations.actual, 4);
    assert_eq!(report.drift.type_dict_count, 2);
    assert_eq!(report.drift.entity_out_deg, 1);
    assert_eq!(report.drift.entity_in_deg, 2);
    let mut dangling = broken();
    dangling.relations[0].to_id = 1234;
    assert_eq!(audit(&dangling).unwrap().dangling_relation_rows, 1);
}

fn sound_files() -> Preflight {
    Preflight { backup: Some(vec!["ok".into()]), source: vec!["ok".into()], violations: false, index: None }
}

#[test]
fn a_repair_gives_a_clean_audit() {
    let mut graph = broken();
    let report = repair(&mut graph, &sound_files(), true).unwrap();
    assert_eq!(report.before.duplicate_rows, 1);
    assert!(report.after.is_clean());
    assert_eq!(graph.relations.len(), 3);
    assert!(graph.relations.iter().all(|r| r.created_us != 99));
    assert_exact(&graph);
}

#[test]
fn a_repair_is_refused_without_its_conditions() {
    let mut graph = broken();
    assert!(repair(&mut graph, &sound_files(), false).is_err());
    assert!(repair(&mut graph, &Preflight { backup: None, ..sound_files() }, true).is_err());
    assert!(repair(&mut graph, &Preflight { source: vec!["row 3 missing".into()], ..sound_files() }, true).is_err());
    assert!(repair(&mut graph, &Preflight { violations: true, ..sound_files() }, true).is_err());
    assert_eq!(graph.relations.len(), 4);
    assert!(admit_repair(true, true).is_ok());
    assert!(admit_repair(true, false).is_err());
    assert!(require_integrity_check(&vec!["ok".into()], "source").is_ok());
    assert!(require_integrity_check(&vec![], "source").is_err());
}

#[test]
fn the_unique_index_must_have_its_shape() {
    let right = IndexShape {
        unique: true,
        full: true,
        columns: vec!["from_id".into(), "to_id".into(), "type_id".into()],
    };
    let wrong = IndexShape { unique: false, full: true, columns: right.columns.clone() };
    assert!(ensure_relation_unique_index(&None).is_ok());
    assert!(ensure_relation_unique_index(&Some(right)).is_ok());
    assert!(ensure_relation_unique_index(&Some(wrong)).is_err());
}

#[test]
fn a_context_without_provenance_is_refused() {
    let local = MutationContext::local();
    assert_eq!(local.hop_count, 0);
    assert!(local.validate().is_ok());
    for bad in [
        MutationContext { actor: String::new(), ..MutationContext::local() },
        MutationContext { origin: "tab\there".into(), ..MutationContext::local() },
        MutationContext { idempotency_key: Some("x".repeat(1000)), ..MutationContext::local() },
    ] {
        let error = bad.validate().unwrap_err();
        assert!(matches!(&error, MCSError::InvalidParams(m) if m == "Invalid mutation provenance"), "{error:?}");
    }
}

#[test]
fn an_outcome_carries_what_was_committed() {
    let mut service = people();
    let fingerprint = "ab".repeat(32);
    let outcome: MutationOutcome = service
        .apply_idempotent(MutationRequest::Wipe, keyed("wipe"), &fingerprint, at(4))
        .unwrap();
    assert_eq!(outcome.changes.changes.len(), 3);
    assert!(outcome.changes.changes.iter().all(|c| c.operation == ChangeOperation::Delete));
}

fn update(name: &str, contents: &[&str]) -> ObservationUpdate {
    ObservationUpdate {
        entity_name: name.into(),
        contents: contents.iter().map(|c| (*c).to_owned()).collect(),
    }
}

#[test]
fn observations_are_added_and_forgotten() {
    let mut service = people();
    applied(
        &mut service,
        MutationRequest::AddObservations {
            observations: vec![update("ada", &["sings"]), update("bob", &["cooks"]), update("ada", &["counts"])],
        },
    );
    assert_eq!(service.graph.read_entity("ada").unwrap().observations, vec!["counts", "sings", "counts"]);
    assert_eq!(service.graph.read_entity("bob").unwrap().observations, vec!["cooks"]);
    applied(
        &mut service,
        MutationRequest::DeleteObservations { observations: vec![update("ada", &["counts", "flies"])] },
    );
    assert_eq!(service.graph.read_entity("ada").unwrap().observations, vec!["sings"]);
    assert_eq!(service.graph.read_entity("bob").unwrap().observations, vec!["cooks"]);
    assert_exact(&service.graph);
}

#[test]
fn relations_come_and_go() {
    let mut service = people();
    applied(
        &mut service,
        MutationRequest::CreateRelations {
            relations: vec![relation("bob", "read", "paper"), relation("bob", "read", "nothing")],
        },
    );
    assert!(service.graph.relations_for("bob").contains(&relation("bob", "read", "paper")));
    assert!(service.graph.relations_for("paper").contains(&relation("bob", "read", "paper")));
    applied(
        &mut service,
        MutationRequest::DeleteRelations { relations: vec![relation("bob", "knows", "ada")] },
    );
    assert!(!service.graph.relations_for("ada").contains(&relation("bob", "knows", "ada")));
    assert!(service.graph.relations_for("ada").contains(&relation("ada", "knows", "bob")));
    assert_exact(&service.graph);
}

#[test]
fn an_upsert_completes_or_creates() {
    let mut service = people();
    applied(
        &mut service,
        MutationRequest::UpsertEntities {
            entities: vec![
                entity("ada", "robot", &["counts", "beeps"]),
                entity("eve", "person", &["listens"]),
                entity("ada", "author", &[]),
            ],
        },
    );
    let ada = service.graph.read_entity("ada").unwrap();
    assert_eq!((ada.entity_type.as_str(), ada.observations), ("author", vec!["counts".to_owned(), "beeps".to_owned()]));
    assert_eq!(service.graph.read_entity("eve").unwrap().observations, vec!["listens"]);
    let mut names: Vec<&str> = service.graph.entities.iter().map(|e| e.name.as_str()).collect();
    names.sort_unstable();
    names.dedup();
    assert_eq!(names.len(), service.graph.entities.len(), "names are unique");
    assert_exact(&service.graph);
}

#[test]
fn a_repair_keeps_the_row_that_was_written_first() {
    let mut graph = people().graph;
    let kept = graph.relations[0];
    graph.relations.push(RelationRow { created_us: kept.created_us - 5, ..kept });
    graph.relations.push(RelationRow { created_us: kept.created_us + 5, ..kept });
    repair(&mut graph, &sound_files(), true).unwrap();
    let times: Vec<i64> = graph
        .relations
        .iter()
        .filter(|r| (r.from_id, r.to_id, r.type_id) == (kept.from_id, kept.to_id, kept.type_id))
        .map(|r| r.created_us)
        .collect();
    assert_eq!(times, vec![kept.created_us - 5]);
    assert_exact(&graph);
}
