//! Index jobs, rebuilds and the worker that embeds.
use mcpmem::errors::MCSError;
use mcpmem::graph::{EntityRow, Graph, GraphStat, TypeRow};
use mcpmem::index::{
    lease_until, AnnGeneration, EntityRevision, IndexJob, IndexOperation, IndexStore, JobState,
    MAX_REASON_CHARS,
};
use mcpmem::indexer::{
    accept_embedding, bedrock_payload, canonical_document, embed_with_bedrock, ollama_endpoint,
    read_reply, validate_titan_v2, BedrockReply, BedrockTransport, Embedding, IndexerWorker,
    ProviderError, ProviderKind, ProviderRegistry, ProviderSettings, Round,
};
use mcpmem::indexer_provider::LiveProvider;
use mcpmem::jobs::{
    decode_state, DistanceMetric, IndexProfile, Normalization, RegistryRow, StoreState,
};

fn profile(id: u128) -> IndexProfile {
    IndexProfile {
        id,
        store_key: "default".into(),
        provider_kind: "ollama".into(),
        model: "nomic \"v1\"".into(),
        dimensions: 2,
        representation_version: "v1".into(),
        normalization: Normalization::L2,
        distance_metric: DistanceMetric::Cosine,
        vector_encoding_version: "f32le-v1".into(),
    }
}

fn store() -> IndexStore {
    IndexStore {
        state: StoreState::LegacyCompat,
        profiles: Vec::new(),
        jobs: Vec::new(),
        revisions: vec![
            EntityRevision { entity_id: 1, revision: 3, deleted: false },
            EntityRevision { entity_id: 2, revision: 1, deleted: false },
        ],
        vectors: Vec::new(),
        generations: Vec::new(),
        live: vec![1, 2],
    }
}

fn rebuilding() -> IndexStore {
    let mut s = store();
    s.begin_rebuild(profile(7)).unwrap();
    s
}

const UNIT: [u32; 2] = [0x3f80_0000, 0];

fn claim(s: &mut IndexStore, now: i64, token: u128) -> IndexJob {
    s.claim_due_as(now, 1_000, token).unwrap().unwrap()
}

#[test]
fn a_lease_ends_after_its_duration() {
    assert_eq!(lease_until(10, 5).unwrap(), 15);
    assert!(lease_until(10, 0).is_err());
    assert!(lease_until(i64::MAX, 1).is_err());
}

#[test]
fn a_rebuild_queues_every_live_entity() {
    let mut s = rebuilding();
    assert!(matches!(s.state, StoreState::Rebuilding { serving: None, candidate: 7 }));
    let mut ids: Vec<(i64, i64)> = s.jobs.iter().map(|j| (j.entity_id, j.entity_revision)).collect();
    ids.sort_unstable();
    assert_eq!(ids, vec![(1, 3), (2, 1)]);
    assert!(s.begin_rebuild(profile(8)).is_err());
    assert!(s.begin_rebuild(IndexProfile { dimensions: 0, ..profile(9) }).is_err());
}

#[test]
fn a_new_claim_fences_the_old_lease() {
    let mut s = rebuilding();
    let old = claim(&mut s, 10, 100);
    assert!(matches!(s.renew(&old, 20, 1_000), Ok(true)));
    let other = claim(&mut s, 30, 200);
    assert_ne!(other.entity_id, old.entity_id);
    assert!(s.claim_due_as(40, 1_000, 300).unwrap().is_none());
    let new = claim(&mut s, 5_000, 400);
    assert_eq!(new.entity_id, old.entity_id);
    assert!(new.lease.epoch > old.lease.epoch);
    assert!(matches!(s.renew(&old, 5_001, 1_000), Ok(false)));
    assert!(!s.retry(&old, 5_001, 9_000, "late", false));
    let stale = s.commit_vector(&old, 5_001, Some(&UNIT.to_vec()), true, "indexer");
    assert!(!matches!(stale, Ok(true)), "a replaced lease cannot complete");
    assert!(matches!(s.commit_vector(&new, 5_001, Some(&UNIT.to_vec()), true, "indexer"), Ok(true)));
}

#[test]
fn a_random_claim_is_held() {
    let mut s = rebuilding();
    let job = s.claim_due(10, 1_000).unwrap().unwrap();
    assert_ne!(job.lease.token, 0);
    assert_eq!(job.lease.until_us, 1_010);
    assert_eq!(s.jobs.iter().filter(|j| j.state == JobState::Leased).count(), 1);
    assert!(s.claim_due(10, -1).is_err());
}

#[test]
fn a_failed_job_comes_back_later() {
    let mut s = rebuilding();
    let job = claim(&mut s, 10, 1);
    assert!(s.retry(&job, 20, 500, &"x".repeat(MAX_REASON_CHARS + 9), false));
    let row = s.jobs.iter().find(|j| j.entity_id == job.entity_id).unwrap();
    assert_eq!(row.state, JobState::Pending);
    assert_eq!(row.last_error.as_ref().unwrap().len(), MAX_REASON_CHARS);
    let other = claim(&mut s, 21, 2);
    assert_ne!(other.entity_id, job.entity_id);
    assert!(s.claim_due_as(22, 10, 3).unwrap().is_none());
    assert_eq!(claim(&mut s, 500, 4).entity_id, job.entity_id);
    let dead = claim(&mut s, 5_000, 5);
    assert!(s.retry(&dead, 5_001, 5_002, "no", true));
    assert_eq!(s.jobs.iter().filter(|j| j.state == JobState::Dead).count(), 1);
}

fn indexed(s: &mut IndexStore) {
    for n in 0..2 {
        let job = claim(s, 10, n + 1);
        assert!(matches!(s.commit_vector(&job, 11, Some(&UNIT.to_vec()), true, "indexer"), Ok(true)));
    }
}

#[test]
fn only_a_complete_index_takes_over() {
    let mut s = rebuilding();
    let job = claim(&mut s, 10, 1);
    assert!(matches!(s.commit_vector(&job, 11, Some(&UNIT.to_vec()), true, "indexer"), Ok(true)));
    assert!(s.activate(7).is_err());
    let mut s = rebuilding();
    indexed(&mut s);
    assert!(s.verify_vectors_current(7).is_ok());
    assert!(s.activate(7).is_err(), "nothing was scanned or published yet");
    s.verify_full_scan(7).unwrap();
    let generation: AnnGeneration = s.generation(7).unwrap();
    assert!(s.mark_published(7, generation.durable_generation));
    s.activate(7).unwrap();
    assert_eq!(s.state.serving_profile(), Some(7));
    assert_eq!(s.profile(7).unwrap().model, "nomic \"v1\"");
    assert!(s.profile(8).is_none());
}

#[test]
fn a_change_voids_the_scan() {
    let mut s = rebuilding();
    indexed(&mut s);
    s.verify_full_scan(7).unwrap();
    let generation = s.generation(7).unwrap().durable_generation;
    s.mark_published(7, generation);
    s.enqueue_change(1, 4, false);
    assert!(s.activate(7).is_err());
    assert!(s.verify_vectors_current(7).is_err());
}

#[test]
fn completion_is_idempotent() {
    let mut s = rebuilding();
    let job = claim(&mut s, 10, 1);
    assert!(matches!(s.commit_vector(&job, 11, Some(&UNIT.to_vec()), true, "indexer"), Ok(true)));
    let generation = s.generation(7).unwrap().durable_generation;
    assert!(s.commit_vector(&job, 12, Some(&UNIT.to_vec()), true, "indexer").is_ok());
    assert_eq!(s.generation(7).unwrap().durable_generation, generation);
    assert_eq!(s.vectors.len(), 1);
    assert_eq!(s.vectors[0].blob, vec![0, 0, 0x80, 0x3f, 0, 0, 0, 0]);
}

#[test]
fn vectors_must_fit_their_profile() {
    let p = profile(7);
    assert!(p.validate_vector(&UNIT.to_vec(), true).is_ok());
    for (vector, unit, words) in [
        (vec![0], true, "vector dimensions or finite-value validation failed"),
        (vec![0x7f80_0000, 0], true, "vector dimensions or finite-value validation failed"),
        (UNIT.to_vec(), false, "vector is not L2 normalized"),
    ] {
        let error = p.validate_vector(&vector, unit).unwrap_err();
        assert!(matches!(&error, MCSError::InvalidParams(m) if m == words), "{error:?}");
    }
    let mut s = rebuilding();
    let job = claim(&mut s, 10, 1);
    assert!(s.commit_vector(&job, 11, Some(&vec![0]), true, "indexer").is_err());
}

#[test]
fn a_fingerprint_is_of_what_the_profile_says() {
    let canonical = r#"{"dimensions":2,"distance_metric":"Cosine","model":"nomic \"v1\"","normalization":"L2","provider_kind":"ollama","representation_version":"v1","store_key":"default","vector_encoding_version":"f32le-v1"}"#;
    assert_eq!(profile(7).fingerprint().unwrap(), mcpmem::crypto::sha256(canonical.as_bytes()));
    assert_eq!(profile(7).fingerprint().unwrap(), profile(8).fingerprint().unwrap());
    assert!(IndexProfile { store_key: "other".into(), ..profile(7) }.fingerprint().is_err());
}

#[test]
fn a_failed_rebuild_keeps_what_serves() {
    let mut s = rebuilding();
    s.fail_rebuild(7, "no provider").unwrap();
    assert!(matches!(&s.state, StoreState::Failed { serving: None, candidate: 7, reason } if reason == "no provider"));
    assert!(s.fail_rebuild(9, "x").is_err());
}

#[test]
fn states_are_decoded_from_their_rows() {
    let id = "00000000-0000-4000-8000-000000000007";
    let row = |state: &str, serving: Option<&str>, candidate: Option<&str>| RegistryRow {
        state: state.into(),
        serving: serving.map(str::to_owned),
        candidate: candidate.map(str::to_owned),
        reason: None,
    };
    let active = decode_state(&row("Active", Some(id), None)).unwrap();
    assert_eq!(active.serving_profile(), Some(0x0000_0000_0000_4000_8000_0000_0000_0007));
    assert!(active.is_writable(0x0000_0000_0000_4000_8000_0000_0000_0007));
    assert!(active.ensure_legacy_writes().is_err());
    assert!(decode_state(&row("Active", Some("not a uuid"), None)).is_err());
    assert!(decode_state(&row("somewhere", None, None)).is_err());
    assert!(StoreState::LegacyCompat.ensure_legacy_writes().is_ok());
}

fn graph() -> Graph {
    Graph {
        entities: vec![EntityRow {
            id: 1,
            name: "ada".into(),
            type_id: 5,
            observations: vec!["counts".into()],
            obs_count: 1,
            out_deg: 0,
            in_deg: 0,
            created_us: 1,
            updated_us: 1,
            flags: 0,
        }],
        relations: Vec::new(),
        types: vec![TypeRow { id: 5, kind: 0, name: "person".into(), count: 1 }],
        stat: GraphStat { entities: Some(1), relations: Some(0), observations: Some(1) },
        next_entity_id: 2,
    }
}

#[test]
fn a_document_is_of_the_expected_revision() {
    let s = store();
    let document = canonical_document(&graph(), &s.revisions, 1, 3).unwrap();
    assert_eq!(document.name, "ada");
    assert!(document.text().contains("counts"));
    assert!(canonical_document(&graph(), &s.revisions, 1, 2).is_none());
    assert!(canonical_document(&graph(), &s.revisions, 9, 1).is_none());
}

#[test]
fn a_round_embeds_commits_or_retries() {
    let mut s = rebuilding();
    let worker = IndexerWorker::new("/m.db".into(), (), 10_000);
    let mut embedded = 0;
    for n in 0..2 {
        let round = worker.begin_round_as(&mut s, &graph(), 10, 10, n + 1).unwrap();
        match round {
            Round::Embed { job, document } => {
                assert_eq!((job.entity_id, document.name.as_str()), (1, "ada"));
                let vector = Embedding { bits: UNIT.to_vec(), unit: true };
                let outcome = worker.complete(&mut s, &job, Ok(vec![vector]), 11, 11);
                let report = worker.settle(&mut s, &job, outcome, 12);
                assert_eq!((report.claimed, report.committed, report.retried), (1, 1, 0));
                embedded += 1;
            }
            Round::Skip(job) => {
                assert_eq!(job.entity_id, 2);
            }
            Round::Idle | Round::Lost(_) | Round::Remove(_) => panic!("an upsert is due"),
        }
    }
    assert_eq!(embedded, 1);
    let mut s = rebuilding();
    if let Round::Embed { job, .. } = worker.begin_round_as(&mut s, &graph(), 10, 10, 1).unwrap() {
        let outcome = worker.complete(&mut s, &job, Err(ProviderError::Request("down".into())), 11, 11);
        let report = worker.settle(&mut s, &job, outcome, 12);
        assert_eq!((report.committed, report.retried), (0, 1));
        let row = s.jobs.iter().find(|j| j.entity_id == 1).unwrap();
        assert_eq!(row.next_attempt_us, 1_000_012);
    }
}

#[test]
fn a_lost_lease_leaves_the_jobs_alone() {
    let mut s = rebuilding();
    let worker = IndexerWorker::new("/m.db".into(), (), 10_000);
    let job = match worker.begin_round_as(&mut s, &graph(), 10, 10, 1).unwrap() {
        Round::Embed { job, .. } => job,
        _ => panic!("an upsert is due"),
    };
    let rows = |s: &IndexStore| -> Vec<(i64, i64, i64)> {
        s.jobs.iter().map(|j| (j.entity_id, j.lease_epoch, j.lease_until_us)).collect()
    };
    let before = rows(&s);
    let late = before[0].2 + 1;
    let vector = Embedding { bits: UNIT.to_vec(), unit: true };
    assert_eq!(worker.complete(&mut s, &job, Ok(vec![vector]), late, late), Ok(false));
    assert_eq!(rows(&s), before);
    assert!(s.vectors.is_empty());
}

#[test]
fn deletions_are_queued_and_removed() {
    let mut s = rebuilding();
    indexed(&mut s);
    s.revisions[0] = EntityRevision { entity_id: 1, revision: 4, deleted: true };
    s.live.retain(|id| *id != 1);
    s.enqueue_change(1, 4, true);
    let worker = IndexerWorker::new("/m.db".into(), (), 10_000);
    match worker.begin_round_as(&mut s, &graph(), 50, 50, 9).unwrap() {
        Round::Remove(job) => {
            assert_eq!(job.operation, IndexOperation::Delete);
            assert!(matches!(worker.remove(&mut s, &job, 51), Ok(true)));
        }
        _ => panic!("a removal is due"),
    }
    assert!(s.vectors.iter().all(|v| v.entity_id != 1));
}

#[test]
fn no_provider_is_configured_by_default() {
    let none = ProviderSettings::default();
    assert!(none.ollama_url.is_none() && none.openai_url.is_none() && none.openai_api_key.is_none());
    assert!(!none.bedrock);
}

fn settings(ollama: Option<&str>, url: Option<&str>, key: Option<&str>) -> ProviderSettings {
    ProviderSettings {
        ollama_url: ollama.map(str::to_owned),
        openai_url: url.map(str::to_owned),
        openai_api_key: key.map(str::to_owned),
        bedrock: false,
    }
}

#[test]
fn a_registry_serves_what_is_configured() {
    let registry = ProviderRegistry::from_settings(settings(Some("http://localhost:11434"), None, None)).unwrap();
    assert_eq!(registry.dispatch("ollama").unwrap(), ProviderKind::Ollama);
    assert!(registry.supports_provider_kind("ollama"));
    assert!(!registry.supports_provider_kind("bedrock"));
    assert!(matches!(registry.dispatch("bedrock"), Err(ProviderError::Request(m)) if m == "Bedrock provider is not configured"));
    assert!(matches!(registry.dispatch("x"), Err(ProviderError::Request(m)) if m == "unsupported embedding provider 'x'"));
    for (s, words) in [
        (settings(None, Some("https://api"), None), "OpenAI-compatible URL and API key must be configured together"),
        (settings(Some("http://user:pw@localhost"), None, None), "Ollama URL must not contain credentials"),
    ] {
        match ProviderRegistry::from_settings(s) {
            Err(ProviderError::Request(m)) => assert_eq!(m, words),
            _ => panic!("{words}"),
        }
    }
    assert!(ProviderRegistry::from_settings(settings(Some("not a url"), None, None)).is_err());
    assert_eq!(ollama_endpoint("http://localhost:11434/base/").unwrap(), "http://localhost:11434/base/api/embed");
}

#[test]
fn a_provider_is_published_once() {
    let mut live = LiveProvider::new();
    assert!(!live.is_configured());
    live.init(ProviderRegistry { ollama: Some("http://a".into()), openai: None, bedrock: false });
    live.init(ProviderRegistry { ollama: Some("http://b".into()), openai: None, bedrock: true });
    assert!(live.is_configured());
    assert_eq!(live.get().unwrap().ollama.as_deref(), Some("http://a"));
}

#[test]
fn a_reply_holds_vectors_of_numbers() {
    let good = Some(vec![Some(vec![Some(1), Some(2)])]);
    assert_eq!(read_reply(&good, "missing", "no list").unwrap(), vec![vec![1, 2]]);
    for (reply, words) in [
        (None, "missing"),
        (Some(vec![None]), "no list"),
        (Some(vec![Some(vec![Some(1), None])]), "embedding contains non-number"),
    ] {
        assert!(matches!(read_reply(&reply, "missing", "no list"), Err(ProviderError::Response(m)) if m == words));
    }
}

struct Echo;

impl BedrockTransport for Echo {
    fn invoke(&self, model_id: &str, payload: &str, _timeout_ms: u64) -> Result<String, ProviderError> {
        assert!(model_id.starts_with("amazon.titan-embed-text-v2:"));
        Ok(payload.to_owned())
    }
}

#[test]
fn bedrock_takes_titan_profiles() {
    let titan = IndexProfile {
        model: "amazon.titan-embed-text-v2:0".into(),
        dimensions: 256,
        normalization: Normalization::Plain,
        ..profile(7)
    };
    assert!(validate_titan_v2(&titan).is_ok());
    assert!(validate_titan_v2(&profile(7)).is_err());
    let payload = bedrock_payload("say \"hi\"", 256);
    assert!(payload.contains(r#""say \"hi\"""#), "{payload}");
    assert!(payload.contains("256"));
    let read = |reply: String| {
        assert!(reply.contains("word"));
        BedrockReply::Vector(Embedding { bits: vec![0; 256], unit: false })
    };
    let out = embed_with_bedrock(&Echo, &titan, &vec!["word".into()], 10, read).unwrap();
    assert_eq!(out.len(), 1);
    let texts = vec!["good".into(), "first".into(), "second".into()];
    let picky = |reply: String| {
        if reply.contains("good") {
            BedrockReply::Vector(Embedding { bits: vec![0; 256], unit: false })
        } else if reply.contains("first") {
            BedrockReply::Missing
        } else {
            BedrockReply::NotJson
        }
    };
    let told = embed_with_bedrock(&Echo, &titan, &texts, 10, picky).err().unwrap().message();
    assert_eq!(told, accept_embedding(BedrockReply::Missing, &titan).err().unwrap().message());
    assert_ne!(told, accept_embedding(BedrockReply::NotJson, &titan).err().unwrap().message());
    for reply in [BedrockReply::NotJson, BedrockReply::Missing, BedrockReply::NonNumber] {
        assert!(accept_embedding(reply, &titan).is_err());
    }
}
