//! The configuration: flags, environment and file.
use mcpmem::args::{Args, VecIndex, VecMetric, VecQuant};
use mcpmem::config::{
    normalize_https_url, resolve_read_pool_size, Build, Config, Environment, Files,
};
use mcpmem::config_file::{
    indexer_settings, invalid_file, read_secret_file, unreadable_file, wanted_key_file,
    ExplicitArgs, FileConfig, OAuthSection, ServerSection, VectorsSection,
};
use mcpmem::indexer::ProviderSettings;
use mcpmem::order::TextSet;
use mcpmem::principals::{load, PrincipalEntry, PrincipalsFile};
use mcpmem::roles::{Compiled, RoleSet, RuntimeRole, Transport};
use mcpmem::storage::{Durability, SqliteTuning};
use mcpmem::tools::ToolCategory;

fn environment() -> Environment {
    Environment { memory_file: None, auth_token: None, durability: None, tls_cert: None, tls_key: None }
}

fn files() -> Files {
    Files {
        auth_token: Err("no such file".into()),
        principals: PrincipalsFile::Unreadable("no such file".into()),
        client_secret: Err("no such file".into()),
    }
}

fn build() -> Build {
    Build { roles: Compiled { indexer: true, webhooks: false }, oauth: true }
}

fn configured(args: &Args, env: &Environment, files: Files) -> Result<Config, String> {
    Config::from_args(args, env, files, build(), &vec!["chatgpt.com".to_owned()], Some(8)).map_err(|e| e.message())
}

fn explicit(names: &[&str]) -> ExplicitArgs {
    let list: Vec<String> = names.iter().map(|n| (*n).to_owned()).collect();
    ExplicitArgs { explicit: TextSet::from_list(&list) }
}

#[test]
fn test_resolve_read_pool_size_auto_scales_within_bounds() {
    for available in [None, Some(1), Some(3), Some(16), Some(32), Some(33), Some(400)] {
        let auto = resolve_read_pool_size(0, available);
        assert!((1..=32).contains(&auto), "auto pool {auto} out of [1,32]");
        assert_eq!(auto, available.unwrap_or(4).clamp(1, 32));
    }
}

#[test]
fn test_resolve_read_pool_size_honours_explicit_values() {
    assert_eq!(resolve_read_pool_size(1, Some(4)), 1);
    assert_eq!(resolve_read_pool_size(8, Some(4)), 8);
    // A huge explicit value is honoured (only the auto path is clamped).
    assert_eq!(resolve_read_pool_size(100, Some(4)), 100);
}

#[test]
fn reports_the_field_on_a_bad_enum_value() {
    let file = FileConfig {
        vectors: VectorsSection { index: Some("quantum".into()), ..VectorsSection::default() },
        ..FileConfig::default()
    };
    let mut args = Args::default();
    let error = file
        .apply(&mut args, &explicit(&[]), &environment())
        .expect_err("an unknown backend must be rejected");
    assert!(error.message().contains("vectors.index"), "{}", error.message());
}

#[test]
fn an_empty_secret_file_is_an_error() {
    let error = read_secret_file("indexer.openai-api-key-file", "key", &Ok("   \n".to_owned()))
        .expect_err("an empty secret file must be rejected");
    assert!(error.message().contains("is empty"), "{}", error.message());
    assert_eq!(read_secret_file("f", "key", &Ok(" sk \n".to_owned())).unwrap(), "sk");
    assert!(read_secret_file("f", "key", &Err("denied".to_owned())).unwrap_err().message().contains("denied"));
}

#[test]
fn the_command_line_outranks_the_file() {
    let file = FileConfig {
        server: ServerSection {
            bind: Some("0.0.0.0:9".into()),
            transport: Some("HTTP".into()),
            ..ServerSection::default()
        },
        ..FileConfig::default()
    };
    let mut args = Args::default();
    args.bind = "127.0.0.1:1".into();
    file.apply(&mut args, &explicit(&["bind"]), &environment()).unwrap();
    assert_eq!(args.bind, "127.0.0.1:1");
    assert_eq!(args.transport, Transport::Http);
    let mut args = Args::default();
    file.apply(&mut args, &explicit(&[]), &environment()).unwrap();
    assert_eq!(args.bind, "0.0.0.0:9");
}

#[test]
fn the_environment_outranks_the_file() {
    let file = FileConfig {
        server: ServerSection { memory_file: Some("/from/file".into()), ..ServerSection::default() },
        ..FileConfig::default()
    };
    let mut args = Args::default();
    let env = Environment { memory_file: Some("/from/env".into()), ..environment() };
    file.apply(&mut args, &explicit(&[]), &env).unwrap();
    assert_ne!(args.memory_file.as_deref(), Some("/from/file"));
    assert_eq!(configured(&args, &env, files()).unwrap().memory_file_path, "/from/env");
    let mut args = Args::default();
    file.apply(&mut args, &explicit(&[]), &environment()).unwrap();
    assert_eq!(configured(&args, &environment(), files()).unwrap().memory_file_path, "/from/file");
}

#[test]
fn the_file_is_named_by_flag_or_variable() {
    let mut args = Args::default();
    assert_eq!(FileConfig::resolve_path(&args, &None), None);
    assert_eq!(FileConfig::resolve_path(&args, &Some("/env.toml".into())).as_deref(), Some("/env.toml"));
    args.config = Some("/flag.toml".into());
    assert_eq!(FileConfig::resolve_path(&args, &Some("/env.toml".into())).as_deref(), Some("/flag.toml"));
}

#[test]
fn a_file_that_does_not_parse_is_placed_without_its_text() {
    let source = "[server]\nbind = \"a\"\nsecret = hunter2\n";
    let error = invalid_file("/c.toml", source, Some(21), "expected a string").message();
    assert_eq!(error, "Invalid params: invalid config file '/c.toml' at line 3: expected a string");
    assert!(unreadable_file("/c.toml", "denied").message().contains("/c.toml"));
}

#[test]
fn defaults_are_those_of_the_flags() {
    let config = configured(&Args::default(), &environment(), files()).unwrap();
    assert_eq!(config.transport, Transport::Stdio);
    assert_eq!(config.read_pool_size, 8);
    assert!(config.auth_token.is_none());
    assert!(config.oauth.is_none());
    assert!(config.enabled_categories.is_empty());
    assert_eq!(config.roles.roles(), &[RuntimeRole::Mcp]);
    let tuning = config.sqlite_tuning();
    assert_eq!(tuning.mmap_size, config.mmap_size);
    assert_eq!(SqliteTuning::default().page_size, tuning.page_size);
}

#[test]
fn an_auth_token_file_never_disables_authentication() {
    let mut args = Args::default();
    args.auth_token_file = Some("/token".into());
    let missing = configured(&args, &environment(), files());
    assert!(missing.is_err());
    let empty = configured(&args, &environment(), Files { auth_token: Ok(" \n".into()), ..files() });
    assert!(empty.is_err());
    let read = configured(&args, &environment(), Files { auth_token: Ok(" t0k \n".into()), ..files() }).unwrap();
    assert_eq!(read.auth_token.as_deref(), Some("t0k"));
}

fn oauth_args() -> Args {
    let mut args = Args::default();
    args.transport = Transport::Http;
    args.public_url = Some("https://mem.example.com/".into());
    args.oidc_issuer = Some("https://idp.example".into());
    args.oidc_client_id = Some("id".into());
    args.principals_file = Some("/principals.toml".into());
    args.tls_cert = Some("/cert.pem".into());
    args.tls_key = Some("/key.pem".into());
    args
}

fn entry(name: &str, sub: &str, scope: &str) -> PrincipalEntry {
    PrincipalEntry {
        name: name.into(),
        iss: "https://idp.example".into(),
        sub: sub.into(),
        label: None,
        scopes: vec![scope.into()],
    }
}

#[test]
fn oauth_runs_over_tls_only() {
    let good = || Files { principals: PrincipalsFile::Entries(vec![entry("ada", "1", "graph-read")]), ..files() };
    let config = configured(&oauth_args(), &environment(), good()).unwrap();
    let oauth = config.oauth.unwrap();
    assert_eq!(oauth.public_url, "https://mem.example.com");
    assert_eq!(oauth.cimd_allowed_domains, vec!["chatgpt.com"]);
    let mut plain = oauth_args();
    plain.public_url = Some("http://mem.example.com".into());
    assert!(configured(&plain, &environment(), good()).is_err());
    let mut bare = oauth_args();
    bare.tls_key = None;
    bare.tls_cert = None;
    assert!(configured(&bare, &environment(), good()).unwrap_err().contains("needs TLS"));
    assert!(configured(&oauth_args(), &environment(), files()).is_err());
    assert!(normalize_https_url("--public-url", "ftp://x").is_err());
    assert_eq!(normalize_https_url("--public-url", "https://x.example//").unwrap(), "https://x.example");
}

#[test]
fn principals_are_loaded_with_distinct_identities() {
    let ok = load("/p", PrincipalsFile::Entries(vec![entry("ada", "1", "graph-read"), entry("bob", "2", "admin")])).unwrap();
    assert_eq!(ok.len(), 2);
    for bad in [
        PrincipalsFile::Unreadable("gone".into()),
        PrincipalsFile::Invalid("line 1".into()),
        PrincipalsFile::Entries(vec![entry("ada", "1", "graph-read"), entry("eve", "1", "graph-read")]),
        PrincipalsFile::Entries(vec![entry("ada", "1", "everything")]),
    ] {
        assert!(load("/p", bad).is_err());
    }
}

#[test]
fn roles_are_distinct_and_carried() {
    let carried = Compiled { indexer: true, webhooks: false };
    let set = RoleSet::parse_csv("mcp, indexer", carried).unwrap();
    assert!(set.holds(RuntimeRole::Indexer));
    for (input, words) in [
        ("", "at least one"),
        ("mcp,,indexer", "empty"),
        ("mcp,mcp", "mcp"),
        ("mcp,robot", "robot"),
        ("webhooks", "webhooks"),
    ] {
        let error = RoleSet::parse_csv(input, carried).unwrap_err().message();
        assert!(error.to_lowercase().contains(words), "{input:?}: {error}");
    }
    assert_eq!(RoleSet::mcp_only().roles(), &[RuntimeRole::Mcp]);
}

#[test]
fn spellings_are_read() {
    assert_eq!(VecIndex::parse("HNSW"), Some(VecIndex::Hnsw));
    assert_eq!(VecMetric::parse("l2sq"), Some(VecMetric::L2sq));
    assert_eq!(VecQuant::parse("bf16"), Some(VecQuant::Bf16));
    assert_eq!(VecQuant::parse("f64"), None);
    assert_eq!(Transport::parse("stdio"), Some(Transport::Stdio));
    assert_eq!(Durability::parse("sync"), Ok(Durability::Sync));
    assert!(Durability::parse("maybe").is_err());
    let mut args = Args::default();
    args.enable_all = true;
    assert_eq!(args.enabled_categories(), ToolCategory::all());
}

#[test]
fn the_indexer_layers_its_settings() {
    let file = FileConfig {
        indexer: mcpmem::config_file::IndexerSection {
            ollama_url: Some("http://file:1".into()),
            openai_url: Some("http://file:2".into()),
            openai_api_key_file: Some("/key".into()),
        },
        ..FileConfig::default()
    };
    assert!(!file.indexer.is_empty());
    let environment = ProviderSettings::from_environment(Some("http://env:1".into()), None, None);
    assert_eq!(wanted_key_file(Some(&file), &environment).as_deref(), Some("/key"));
    let settings = indexer_settings(Some(&file), environment, &Ok("sk\n".into())).unwrap();
    assert_eq!(settings.ollama_url.as_deref(), Some("http://env:1"));
    assert_eq!(settings.openai_url.as_deref(), Some("http://file:2"));
    assert_eq!(settings.openai_api_key.as_deref(), Some("sk"));
    let section = OAuthSection::default();
    assert!(section.public_url.is_none());
}
