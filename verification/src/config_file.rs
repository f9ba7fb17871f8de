//! The configuration file.
//!
//! The file is the source of lowest priority: a flag on the command line comes
//! first, then an environment variable, then the file, then the default. A
//! value of the file is applied only where its flag is absent and, for a
//! setting that reads a variable, where that variable is unset.
//!
//! The file never carries a secret. It names the file that holds one.
use vstd::prelude::*;
use vstd::utf8::encode_utf8;

use crate::args::{Args, VecIndex, VecMetric, VecQuant};
use crate::config;
use crate::config::{Environment, FileText};
use crate::errors::{invalid, MCSError, Result};
use crate::indexer;
use crate::indexer::ProviderSettings;
use crate::order::TextSet;
use crate::roles::Transport;
use crate::text;
use crate::text::{copy_texts, decimal_of, trim};

verus! {

/// Environment variable naming the configuration file.
pub const CONFIG_PATH_ENV: &'static str = "MCP_MEMORY_CONFIG";

/// Environment variable naming the memory file.
pub const MEMORY_FILE_ENV: &'static str = "MEMORY_FILE_PATH";

/// Environment variable holding the bearer token.
pub const AUTH_TOKEN_ENV: &'static str = "MCP_MEMORY_AUTH_TOKEN";

/// Environment variable naming how writes are made durable.
pub const DURABILITY_ENV: &'static str = "MCP_MEMORY_DURABILITY";

/// Environment variable naming the certificate.
pub const TLS_CERT_ENV: &'static str = "MCP_TLS_CERT";

/// Environment variable naming the private key.
pub const TLS_KEY_ENV: &'static str = "MCP_TLS_KEY";

/// The identifiers of the settings that the command line carries. Any other
/// came from a default, so that the file may fill it.
pub struct ExplicitArgs {
    pub explicit: TextSet,
}

impl ExplicitArgs {
    /// The command line does not carry the setting.
    pub open spec fn is_absent(self, id: Seq<char>) -> bool {
        !self.explicit@.contains(id)
    }

    /// Whether the command line does not carry the setting.
    pub fn absent(&self, id: &str) -> (r: bool)
        ensures
            r == self.is_absent(id@),
    {
        !self.explicit.contains(id)
    }
}

/// The variable is unset. An empty one counts as unset, since every setting
/// that reads one ignores an empty value; otherwise each source would defer to
/// the other and neither would apply.
pub open spec fn unset(value: Option<String>) -> bool {
    config::filled(value) is None
}

/// Whether the variable is unset or empty.
pub fn value_absent(value: &Option<String>) -> (r: bool)
    ensures
        r == unset(*value),
{
    match value {
        Some(v) => v.as_str().is_empty(),
        None => true,
    }
}

/// The slot once a value was offered to it.
pub open spec fn put<T>(slot: T, value: Option<T>, allow: bool) -> T {
    match value {
        Some(v) => if allow {
            v
        } else {
            slot
        },
        None => slot,
    }
}

fn assign<T>(slot: &mut T, value: Option<T>, allow: bool)
    ensures
        *final(slot) == put(*old(slot), value, allow),
{
    if allow {
        if let Some(v) = value {
            *slot = v;
        }
    }
}

/// The list once another was offered to it. An empty one changes nothing.
pub open spec fn put_list(slot: Seq<Seq<char>>, value: Option<Vec<String>>, allow: bool) -> Seq<
    Seq<char>,
> {
    match value {
        Some(v) => if allow && v@.len() > 0 {
            text::texts(v@)
        } else {
            slot
        },
        None => slot,
    }
}

fn assign_vec(slot: &mut Vec<String>, value: Option<Vec<String>>, allow: bool)
    ensures
        text::texts(final(slot)@) == put_list(text::texts(old(slot)@), value, allow),
{
    match value {
        Some(v) => {
            if allow && v.len() > 0 {
                *slot = v;
            }
        },
        None => {},
    }
}

/// The value as one that may be absent.
pub open spec fn wrapped(value: Option<String>) -> Option<Option<String>> {
    match value {
        Some(v) => Some(Some(v)),
        None => None,
    }
}

fn wrap(value: &Option<String>) -> (r: Option<Option<String>>)
    ensures
        r == wrapped(*value),
{
    match value {
        Some(v) => Some(Some(v.clone())),
        None => None,
    }
}

fn copy_opt(value: &Option<String>) -> (r: Option<String>)
    ensures
        r == *value,
{
    match value {
        Some(v) => Some(v.clone()),
        None => None,
    }
}

fn copy_list(value: &Option<Vec<String>>) -> (r: Option<Vec<String>>)
    ensures
        r is Some <==> *value is Some,
        r matches Some(v) ==> text::texts(v@) == text::texts((*value)->0@) && v@.len()
            == (*value)->0@.len(),
{
    match value {
        Some(v) => {
            let c: Vec<String> = copy_texts(v);
            assert(text::texts(c@).len() == text::texts(v@).len());
            Some(c)
        },
        None => None,
    }
}

// ---------------------------------------------------------------------------
// The file
// ---------------------------------------------------------------------------

/// The whole file. Every section and every key is optional.
#[derive(Debug)]
pub struct FileConfig {
    pub server: ServerSection,
    pub storage: StorageSection,
    pub tools: ToolsSection,
    pub vectors: VectorsSection,
    pub security: SecuritySection,
    pub oauth: OAuthSection,
    pub indexer: IndexerSection,
}

#[derive(Debug)]
pub struct ServerSection {
    pub memory_file: Option<String>,
    pub transport: Option<String>,
    pub bind: Option<String>,
    pub log_level: Option<String>,
    pub roles: Option<Vec<String>>,
    pub legacy_observations: Option<bool>,
    pub stdio_concurrency: Option<usize>,
    pub read_pool_size: Option<usize>,
}

impl ServerSection {
    /// The section sets nothing.
    pub open spec fn blank(self) -> bool {
        &&& self.memory_file is None
        &&& self.transport is None
        &&& self.bind is None
        &&& self.log_level is None
        &&& self.roles is None
        &&& self.legacy_observations is None
        &&& self.stdio_concurrency is None
        &&& self.read_pool_size is None
    }
}

impl Default for ServerSection {
    fn default() -> (r: Self)
        ensures
            r.blank(),
    {
        ServerSection {
            memory_file: None,
            transport: None,
            bind: None,
            log_level: None,
            roles: None,
            legacy_observations: None,
            stdio_concurrency: None,
            read_pool_size: None,
        }
    }
}

#[derive(Debug)]
pub struct StorageSection {
    pub durability: Option<String>,
    pub mmap_size: Option<i64>,
    pub page_size: Option<i64>,
    pub cache_size_mb: Option<i64>,
    pub busy_timeout_ms: Option<u64>,
    pub wal_flush_ms: Option<u64>,
    pub lru_cache_size: Option<usize>,
}

impl StorageSection {
    /// The section sets nothing.
    pub open spec fn blank(self) -> bool {
        &&& self.durability is None
        &&& self.mmap_size is None
        &&& self.page_size is None
        &&& self.cache_size_mb is None
        &&& self.busy_timeout_ms is None
        &&& self.wal_flush_ms is None
        &&& self.lru_cache_size is None
    }
}

impl Default for StorageSection {
    fn default() -> (r: Self)
        ensures
            r.blank(),
    {
        StorageSection {
            durability: None,
            mmap_size: None,
            page_size: None,
            cache_size_mb: None,
            busy_timeout_ms: None,
            wal_flush_ms: None,
            lru_cache_size: None,
        }
    }
}

#[derive(Debug)]
pub struct ToolsSection {
    pub all: Option<bool>,
    pub graph_read: Option<bool>,
    pub graph_write: Option<bool>,
    pub vectors: Option<bool>,
    pub code: Option<bool>,
}

impl ToolsSection {
    /// The section sets nothing.
    pub open spec fn blank(self) -> bool {
        &&& self.all is None
        &&& self.graph_read is None
        &&& self.graph_write is None
        &&& self.vectors is None
        &&& self.code is None
    }
}

impl Default for ToolsSection {
    fn default() -> (r: Self)
        ensures
            r.blank(),
    {
        ToolsSection {
            all: None,
            graph_read: None,
            graph_write: None,
            vectors: None,
            code: None,
        }
    }
}

#[derive(Debug)]
pub struct VectorsSection {
    pub embedding_dims: Option<u32>,
    pub code_embedding_dims: Option<u32>,
    pub index: Option<String>,
    pub metric: Option<String>,
    pub quantization: Option<String>,
    pub connectivity: Option<usize>,
    pub expansion_add: Option<usize>,
    pub expansion_search: Option<usize>,
    pub ivf_nlist: Option<usize>,
    pub ivf_nprobe: Option<usize>,
    pub tq_bits: Option<u32>,
}

impl VectorsSection {
    /// The section sets nothing.
    pub open spec fn blank(self) -> bool {
        &&& self.embedding_dims is None
        &&& self.code_embedding_dims is None
        &&& self.index is None
        &&& self.metric is None
        &&& self.quantization is None
        &&& self.connectivity is None
        &&& self.expansion_add is None
        &&& self.expansion_search is None
        &&& self.ivf_nlist is None
        &&& self.ivf_nprobe is None
        &&& self.tq_bits is None
    }
}

impl Default for VectorsSection {
    fn default() -> (r: Self)
        ensures
            r.blank(),
    {
        VectorsSection {
            embedding_dims: None,
            code_embedding_dims: None,
            index: None,
            metric: None,
            quantization: None,
            connectivity: None,
            expansion_add: None,
            expansion_search: None,
            ivf_nlist: None,
            ivf_nprobe: None,
            tq_bits: None,
        }
    }
}

#[derive(Debug)]
pub struct SecuritySection {
    pub auth_token_file: Option<String>,
    pub static_bearer_scopes: Option<Vec<String>>,
    pub tls_cert: Option<String>,
    pub tls_key: Option<String>,
}

impl SecuritySection {
    /// The section sets nothing.
    pub open spec fn blank(self) -> bool {
        &&& self.auth_token_file is None
        &&& self.static_bearer_scopes is None
        &&& self.tls_cert is None
        &&& self.tls_key is None
    }
}

impl Default for SecuritySection {
    fn default() -> (r: Self)
        ensures
            r.blank(),
    {
        SecuritySection {
            auth_token_file: None,
            static_bearer_scopes: None,
            tls_cert: None,
            tls_key: None,
        }
    }
}

#[derive(Debug)]
pub struct OAuthSection {
    pub public_url: Option<String>,
    pub issuer: Option<String>,
    pub client_id: Option<String>,
    pub client_secret_file: Option<String>,
    pub principals_file: Option<String>,
    pub cimd_allowed_domains: Option<Vec<String>>,
    pub trust_forwarded_proto: Option<bool>,
}

impl OAuthSection {
    /// The section sets nothing.
    pub open spec fn blank(self) -> bool {
        &&& self.public_url is None
        &&& self.issuer is None
        &&& self.client_id is None
        &&& self.client_secret_file is None
        &&& self.principals_file is None
        &&& self.cimd_allowed_domains is None
        &&& self.trust_forwarded_proto is None
    }
}

impl Default for OAuthSection {
    fn default() -> (r: Self)
        ensures
            r.blank(),
    {
        OAuthSection {
            public_url: None,
            issuer: None,
            client_id: None,
            client_secret_file: None,
            principals_file: None,
            cimd_allowed_domains: None,
            trust_forwarded_proto: None,
        }
    }
}

/// Settings for the embedding worker.
#[derive(Debug)]
pub struct IndexerSection {
    pub ollama_url: Option<String>,
    pub openai_url: Option<String>,
    pub openai_api_key_file: Option<String>,
}

impl Default for IndexerSection {
    fn default() -> (r: Self)
        ensures
            r.blank(),
    {
        IndexerSection {
            ollama_url: None,
            openai_url: None,
            openai_api_key_file: None,
        }
    }
}

impl Default for FileConfig {
    fn default() -> (r: Self)
        ensures
            r.server.blank() && r.storage.blank() && r.tools.blank() && r.vectors.blank(),
            r.security.blank() && r.oauth.blank() && r.indexer.blank(),
    {
        FileConfig {
            server: ServerSection::default(),
            storage: StorageSection::default(),
            tools: ToolsSection::default(),
            vectors: VectorsSection::default(),
            security: SecuritySection::default(),
            oauth: OAuthSection::default(),
            indexer: IndexerSection::default(),
        }
    }
}

impl IndexerSection {
    /// The section sets nothing.
    pub open spec fn blank(self) -> bool {
        self.ollama_url is None && self.openai_url is None && self.openai_api_key_file is None
    }

    /// Whether the section sets nothing.
    pub fn is_empty(&self) -> (r: bool)
        ensures
            r == self.blank(),
    {
        self.ollama_url.is_none() && self.openai_url.is_none() && self.openai_api_key_file.is_none()
    }
}

/// What the file does to the settings of the memory file when it is their
/// turn; otherwise it leaves them.
pub open spec fn layers_memory(
    before: Args,
    after: Args,
    file: FileConfig,
    cli: ExplicitArgs,
    env: Environment,
    on: bool,
) -> bool {
    &&& after.memory_file == put(before.memory_file, wrapped(file.server.memory_file), on && cli.is_absent("memory_file"@) && unset(env.memory_file))
}

/// What the file does to the settings of the server when it is their
/// turn; otherwise it leaves them.
pub open spec fn layers_server(
    before: Args,
    after: Args,
    file: FileConfig,
    cli: ExplicitArgs,
    env: Environment,
    on: bool,
) -> bool {
    &&& after.transport == put(before.transport, match file.server.transport { Some(s) => Transport::named(s@), None => None }, on && cli.is_absent("transport"@))
    &&& after.bind == put(before.bind, file.server.bind, on && cli.is_absent("bind"@))
    &&& after.log_level == put(before.log_level, file.server.log_level, on && cli.is_absent("log_level"@))
    &&& text::texts(after.roles@) == put_list(text::texts(before.roles@), file.server.roles, on && cli.is_absent("roles"@))
    &&& after.legacy_observations == put(before.legacy_observations, file.server.legacy_observations, on && cli.is_absent("legacy_observations"@))
    &&& after.stdio_concurrency == put(before.stdio_concurrency, file.server.stdio_concurrency, on && cli.is_absent("stdio_concurrency"@))
    &&& after.read_pool_size == put(before.read_pool_size, file.server.read_pool_size, on && cli.is_absent("read_pool_size"@))
}

/// What the file does to the settings of the store when it is their
/// turn; otherwise it leaves them.
pub open spec fn layers_storage(
    before: Args,
    after: Args,
    file: FileConfig,
    cli: ExplicitArgs,
    env: Environment,
    on: bool,
) -> bool {
    &&& after.durability == put(before.durability, wrapped(file.storage.durability), on && cli.is_absent("durability"@) && unset(env.durability))
    &&& after.mmap_size == put(before.mmap_size, file.storage.mmap_size, on && cli.is_absent("mmap_size"@))
    &&& after.page_size == put(before.page_size, file.storage.page_size, on && cli.is_absent("page_size"@))
    &&& after.cache_size_mb == put(before.cache_size_mb, file.storage.cache_size_mb, on && cli.is_absent("cache_size_mb"@))
    &&& after.busy_timeout_ms == put(before.busy_timeout_ms, file.storage.busy_timeout_ms, on && cli.is_absent("busy_timeout_ms"@))
    &&& after.wal_flush_ms == put(before.wal_flush_ms, file.storage.wal_flush_ms, on && cli.is_absent("wal_flush_ms"@))
    &&& after.lru_cache_size == put(before.lru_cache_size, file.storage.lru_cache_size, on && cli.is_absent("lru_cache_size"@))
}

/// What the file does to the settings of the tools when it is their
/// turn; otherwise it leaves them.
pub open spec fn layers_tools(
    before: Args,
    after: Args,
    file: FileConfig,
    cli: ExplicitArgs,
    env: Environment,
    on: bool,
) -> bool {
    &&& after.enable_all == put(before.enable_all, file.tools.all, on && cli.is_absent("enable_all"@))
    &&& after.enable_graph_read == put(before.enable_graph_read, file.tools.graph_read, on && cli.is_absent("enable_graph_read"@))
    &&& after.enable_graph_write == put(before.enable_graph_write, file.tools.graph_write, on && cli.is_absent("enable_graph_write"@))
    &&& after.enable_vectors == put(before.enable_vectors, file.tools.vectors, on && cli.is_absent("enable_vectors"@))
    &&& after.enable_code == put(before.enable_code, file.tools.code, on && cli.is_absent("enable_code"@))
}

/// What the file does to the settings of the dimensions of vectors when it is their
/// turn; otherwise it leaves them.
pub open spec fn layers_dims(
    before: Args,
    after: Args,
    file: FileConfig,
    cli: ExplicitArgs,
    env: Environment,
    on: bool,
) -> bool {
    &&& after.embedding_dims == put(before.embedding_dims, file.vectors.embedding_dims, on && cli.is_absent("embedding_dims"@))
    &&& after.code_embedding_dims == put(before.code_embedding_dims, file.vectors.code_embedding_dims, on && cli.is_absent("code_embedding_dims"@))
}

/// What the file does to the settings of the index of vectors when it is their
/// turn; otherwise it leaves them.
pub open spec fn layers_index(
    before: Args,
    after: Args,
    file: FileConfig,
    cli: ExplicitArgs,
    env: Environment,
    on: bool,
) -> bool {
    &&& after.vec_index == put(before.vec_index, match file.vectors.index { Some(s) => VecIndex::named(s@), None => None }, on && cli.is_absent("vec_index"@))
}

/// What the file does to the settings of the metric of vectors when it is their
/// turn; otherwise it leaves them.
pub open spec fn layers_metric(
    before: Args,
    after: Args,
    file: FileConfig,
    cli: ExplicitArgs,
    env: Environment,
    on: bool,
) -> bool {
    &&& after.vec_metric == put(before.vec_metric, match file.vectors.metric { Some(s) => VecMetric::named(s@), None => None }, on && cli.is_absent("vec_metric"@))
}

/// What the file does to the settings of the tuning of vectors when it is their
/// turn; otherwise it leaves them.
pub open spec fn layers_tuning(
    before: Args,
    after: Args,
    file: FileConfig,
    cli: ExplicitArgs,
    env: Environment,
    on: bool,
) -> bool {
    &&& after.vec_quantization == put(before.vec_quantization, match file.vectors.quantization { Some(s) => VecQuant::named(s@), None => None }, on && cli.is_absent("vec_quantization"@))
    &&& after.vec_connectivity == put(before.vec_connectivity, file.vectors.connectivity, on && cli.is_absent("vec_connectivity"@))
    &&& after.vec_expansion_add == put(before.vec_expansion_add, file.vectors.expansion_add, on && cli.is_absent("vec_expansion_add"@))
    &&& after.vec_expansion_search == put(before.vec_expansion_search, file.vectors.expansion_search, on && cli.is_absent("vec_expansion_search"@))
    &&& after.ivf_nlist == put(before.ivf_nlist, file.vectors.ivf_nlist, on && cli.is_absent("ivf_nlist"@))
    &&& after.ivf_nprobe == put(before.ivf_nprobe, file.vectors.ivf_nprobe, on && cli.is_absent("ivf_nprobe"@))
    &&& after.tq_bits == put(before.tq_bits, file.vectors.tq_bits, on && cli.is_absent("tq_bits"@))
}

/// What the file does to the settings of the token file when it is their
/// turn; otherwise it leaves them.
pub open spec fn layers_token(
    before: Args,
    after: Args,
    file: FileConfig,
    cli: ExplicitArgs,
    env: Environment,
    on: bool,
) -> bool {
    &&& after.auth_token_file == put(before.auth_token_file, wrapped(file.security.auth_token_file), on && cli.is_absent("auth_token_file"@) && cli.is_absent("auth_token"@) && unset(env.auth_token))
}

/// What the file does to the settings of the security of the server when it is their
/// turn; otherwise it leaves them.
pub open spec fn layers_security(
    before: Args,
    after: Args,
    file: FileConfig,
    cli: ExplicitArgs,
    env: Environment,
    on: bool,
) -> bool {
    &&& text::texts(after.static_bearer_scopes@) == put_list(text::texts(before.static_bearer_scopes@), file.security.static_bearer_scopes, on && cli.is_absent("static_bearer_scopes"@))
    &&& after.tls_cert == put(before.tls_cert, wrapped(file.security.tls_cert), on && cli.is_absent("tls_cert"@) && unset(env.tls_cert))
    &&& after.tls_key == put(before.tls_key, wrapped(file.security.tls_key), on && cli.is_absent("tls_key"@) && unset(env.tls_key))
}

/// What the file does to the settings of the authorization server when it is their
/// turn; otherwise it leaves them.
pub open spec fn layers_oauth(
    before: Args,
    after: Args,
    file: FileConfig,
    cli: ExplicitArgs,
    env: Environment,
    on: bool,
) -> bool {
    &&& after.public_url == put(before.public_url, wrapped(file.oauth.public_url), on && cli.is_absent("public_url"@))
    &&& after.oidc_issuer == put(before.oidc_issuer, wrapped(file.oauth.issuer), on && cli.is_absent("oidc_issuer"@))
    &&& after.oidc_client_id == put(before.oidc_client_id, wrapped(file.oauth.client_id), on && cli.is_absent("oidc_client_id"@))
    &&& after.oidc_client_secret_file == put(before.oidc_client_secret_file, wrapped(file.oauth.client_secret_file), on && cli.is_absent("oidc_client_secret_file"@))
    &&& after.principals_file == put(before.principals_file, wrapped(file.oauth.principals_file), on && cli.is_absent("principals_file"@))
    &&& text::texts(after.cimd_allowed_domains@) == put_list(text::texts(before.cimd_allowed_domains@), file.oauth.cimd_allowed_domains, on && cli.is_absent("cimd_allowed_domains"@))
    &&& after.oauth_trust_forwarded_proto == put(before.oauth_trust_forwarded_proto, file.oauth.trust_forwarded_proto, on && cli.is_absent("oauth_trust_forwarded_proto"@))
}

/// How many groups of settings there are.
pub const GROUPS: usize = 11;

/// The two agree on the settings of a group; past the last group on those that
/// the file cannot set.
#[verifier::opaque]
pub open spec fn group_same(group: int, a: Args, b: Args) -> bool {
    if group == 0 {
        a.memory_file == b.memory_file
    } else if group == 1 {
        a.transport == b.transport && a.bind == b.bind && a.log_level == b.log_level && a.roles@ == b.roles@ && a.legacy_observations == b.legacy_observations && a.stdio_concurrency == b.stdio_concurrency && a.read_pool_size == b.read_pool_size
    } else if group == 2 {
        a.durability == b.durability && a.mmap_size == b.mmap_size && a.page_size == b.page_size && a.cache_size_mb == b.cache_size_mb && a.busy_timeout_ms == b.busy_timeout_ms && a.wal_flush_ms == b.wal_flush_ms && a.lru_cache_size == b.lru_cache_size
    } else if group == 3 {
        a.enable_all == b.enable_all && a.enable_graph_read == b.enable_graph_read && a.enable_graph_write == b.enable_graph_write && a.enable_vectors == b.enable_vectors && a.enable_code == b.enable_code
    } else if group == 4 {
        a.embedding_dims == b.embedding_dims && a.code_embedding_dims == b.code_embedding_dims
    } else if group == 5 {
        a.vec_index == b.vec_index
    } else if group == 6 {
        a.vec_metric == b.vec_metric
    } else if group == 7 {
        a.vec_quantization == b.vec_quantization && a.vec_connectivity == b.vec_connectivity && a.vec_expansion_add == b.vec_expansion_add && a.vec_expansion_search == b.vec_expansion_search && a.ivf_nlist == b.ivf_nlist && a.ivf_nprobe == b.ivf_nprobe && a.tq_bits == b.tq_bits
    } else if group == 8 {
        a.auth_token_file == b.auth_token_file
    } else if group == 9 {
        a.static_bearer_scopes@ == b.static_bearer_scopes@ && a.tls_cert == b.tls_cert && a.tls_key == b.tls_key
    } else if group == 10 {
        a.public_url == b.public_url && a.oidc_issuer == b.oidc_issuer && a.oidc_client_id == b.oidc_client_id && a.oidc_client_secret_file == b.oidc_client_secret_file && a.principals_file == b.principals_file && a.cimd_allowed_domains@ == b.cimd_allowed_domains@ && a.oauth_trust_forwarded_proto == b.oauth_trust_forwarded_proto
    } else {
        a.config == b.config && a.auth_token == b.auth_token
    }
}

/// What the file does to the settings of a group.
#[verifier::opaque]
pub open spec fn group_layers(
    group: int,
    before: Args,
    after: Args,
    file: FileConfig,
    cli: ExplicitArgs,
    env: Environment,
    on: bool,
) -> bool {
    if group == 0 {
        layers_memory(before, after, file, cli, env, on)
    } else if group == 1 {
        layers_server(before, after, file, cli, env, on)
    } else if group == 2 {
        layers_storage(before, after, file, cli, env, on)
    } else if group == 3 {
        layers_tools(before, after, file, cli, env, on)
    } else if group == 4 {
        layers_dims(before, after, file, cli, env, on)
    } else if group == 5 {
        layers_index(before, after, file, cli, env, on)
    } else if group == 6 {
        layers_metric(before, after, file, cli, env, on)
    } else if group == 7 {
        layers_tuning(before, after, file, cli, env, on)
    } else if group == 8 {
        layers_token(before, after, file, cli, env, on)
    } else if group == 9 {
        layers_security(before, after, file, cli, env, on)
    } else if group == 10 {
        layers_oauth(before, after, file, cli, env, on)
    } else {
        after.config == before.config && after.auth_token == before.auth_token
    }
}

/// What holds of settings holds of others that agree with them.
proof fn lemma_layers_before(
    group: int,
    before: Args,
    middle: Args,
    after: Args,
    file: FileConfig,
    cli: ExplicitArgs,
    env: Environment,
)
    requires
        group_same(group, before, middle),
        group_layers(group, middle, after, file, cli, env, true),
    ensures
        group_layers(group, before, after, file, cli, env, true),
{
    reveal(group_same);
    reveal(group_layers);
    if group == 0 {
    } else if group == 1 {
    } else if group == 2 {
    } else if group == 3 {
    } else if group == 4 {
    } else if group == 5 {
    } else if group == 6 {
    } else if group == 7 {
    } else if group == 8 {
    } else if group == 9 {
    } else if group == 10 {
    } else {
    }
}

/// What holds of settings holds of others that agree with them.
proof fn lemma_layers_after(
    group: int,
    before: Args,
    middle: Args,
    after: Args,
    file: FileConfig,
    cli: ExplicitArgs,
    env: Environment,
)
    requires
        group_layers(group, before, middle, file, cli, env, true),
        group_same(group, middle, after),
    ensures
        group_layers(group, before, after, file, cli, env, true),
{
    reveal(group_same);
    reveal(group_layers);
    if group == 0 {
    } else if group == 1 {
    } else if group == 2 {
    } else if group == 3 {
    } else if group == 4 {
    } else if group == 5 {
    } else if group == 6 {
    } else if group == 7 {
    } else if group == 8 {
    } else if group == 9 {
    } else if group == 10 {
    } else {
    }
}

/// Settings that agree are left alone.
proof fn lemma_layers_none(
    group: int,
    before: Args,
    after: Args,
    file: FileConfig,
    cli: ExplicitArgs,
    env: Environment,
)
    requires
        group_same(group, before, after),
    ensures
        group_layers(group, before, after, file, cli, env, false),
{
    reveal(group_same);
    reveal(group_layers);
    if group == 0 {
    } else if group == 1 {
    } else if group == 2 {
    } else if group == 3 {
    } else if group == 4 {
    } else if group == 5 {
    } else if group == 6 {
    } else if group == 7 {
    } else if group == 8 {
    } else if group == 9 {
    } else if group == 10 {
    } else {
    }
}

proof fn lemma_same_transitive(group: int, a: Args, b: Args, c: Args)
    requires
        group_same(group, a, b),
        group_same(group, b, c),
    ensures
        group_same(group, a, c),
{
    reveal(group_same);
}

/// One more group is filled.
proof fn lemma_step(
    n: int,
    start: Args,
    middle: Args,
    after: Args,
    file: FileConfig,
    cli: ExplicitArgs,
    env: Environment,
)
    requires
        0 <= n,
        forall|g: int| 0 <= g < n ==> #[trigger] group_layers(g, start, middle, file, cli, env, true),
        forall|g: int| n <= g ==> #[trigger] group_same(g, start, middle),
        group_layers(n, middle, after, file, cli, env, true),
        forall|g: int| 0 <= g && g != n ==> #[trigger] group_same(g, middle, after),
    ensures
        forall|g: int| 0 <= g < n + 1 ==> #[trigger] group_layers(g, start, after, file, cli, env, true),
        forall|g: int| n + 1 <= g ==> #[trigger] group_same(g, start, after),
{
    assert forall|g: int| 0 <= g < n + 1 implies #[trigger] group_layers(
        g,
        start,
        after,
        file,
        cli,
        env,
        true,
    ) by {
        if g < n {
            assert(group_same(g, middle, after));
            lemma_layers_after(g, start, middle, after, file, cli, env);
        } else {
            assert(group_same(g, start, middle));
            lemma_layers_before(g, start, middle, after, file, cli, env);
        }
    }
    assert forall|g: int| n + 1 <= g implies #[trigger] group_same(g, start, after) by {
        assert(group_same(g, start, middle));
        assert(group_same(g, middle, after));
        lemma_same_transitive(g, start, middle, after);
    }
}

/// The groups from there on are left.
proof fn lemma_stop(
    n: int,
    start: Args,
    after: Args,
    file: FileConfig,
    cli: ExplicitArgs,
    env: Environment,
)
    requires
        forall|g: int| 0 <= g < n ==> #[trigger] group_layers(g, start, after, file, cli, env, true),
        forall|g: int| n <= g ==> #[trigger] group_same(g, start, after),
    ensures
        file.layers(start, after, cli, env, n),
{
    assert forall|g: int| n <= g <= GROUPS implies #[trigger] group_layers(
        g,
        start,
        after,
        file,
        cli,
        env,
        false,
    ) by {
        assert(group_same(g, start, after));
        lemma_layers_none(g, start, after, file, cli, env);
    }
}

/// The words for a name that is not known.
pub open spec fn variant_fault(field: Seq<char>, value: Seq<char>) -> Seq<char> {
    "config '"@ + field + "': invalid variant: "@ + value
}

fn bad_variant(field: &str, value: &str) -> (r: MCSError)
    ensures
        r matches MCSError::InvalidParams(m) && m@ == variant_fault(field@, value@),
{
    invalid(&"config '".to_owned().concat(field).concat("': invalid variant: ").concat(value))
}

impl FileConfig {
    /// How many groups of settings are filled before a fault stops that, and
    /// the words for the fault; with none, all are.
    pub open spec fn fault(self) -> (int, Seq<char>) {
        if self.server.transport matches Some(s) && Transport::named(s@) is None {
            (1, variant_fault("server.transport"@, self.server.transport->0@))
        } else if self.vectors.index matches Some(s) && VecIndex::named(s@) is None {
            (5, variant_fault("vectors.index"@, self.vectors.index->0@))
        } else if self.vectors.metric matches Some(s) && VecMetric::named(s@) is None {
            (6, variant_fault("vectors.metric"@, self.vectors.metric->0@))
        } else if self.vectors.quantization matches Some(s) && VecQuant::named(s@) is None {
            (7, variant_fault("vectors.quantization"@, self.vectors.quantization->0@))
        } else if self.security.static_bearer_scopes matches Some(v) && v@.len() == 0 {
            (
                9,
                "config 'security.static-bearer-scopes': an empty list grants every scope; omit the key instead"@,
            )
        } else {
            (GROUPS as int, Seq::empty())
        }
    }

    /// What filling that many groups of settings does. The others, and what
    /// the file cannot set, stay.
    pub open spec fn layers(
        self,
        before: Args,
        after: Args,
        cli: ExplicitArgs,
        env: Environment,
        groups: int,
    ) -> bool {
        &&& forall|g: int|
            0 <= g < groups ==> #[trigger] group_layers(g, before, after, self, cli, env, true)
        &&& forall|g: int|
            groups <= g <= GROUPS ==> #[trigger] group_layers(g, before, after, self, cli, env, false)
    }

    /// Fills the settings of the memory file.
    fn fill_memory(&self, args: &mut Args, cli: &ExplicitArgs, env: &Environment)
        ensures
            group_layers(0, *old(args), *final(args), *self, *cli, *env, true),
            forall|g: int| 0 <= g && g != 0 ==> #[trigger] group_same(g, *old(args), *final(args)),
    {
        proof {
            reveal(group_layers);
            reveal(group_same);
        }
        let allow: bool = cli.absent("memory_file") && value_absent(&env.memory_file);
        assign(&mut args.memory_file, wrap(&self.server.memory_file), allow);
    }

    /// Fills the settings of the server.
    fn fill_server(&self, args: &mut Args, transport: Option<Transport>, cli: &ExplicitArgs, env: &Environment)
        requires
            transport == (match self.server.transport {
                Some(s) => Transport::named(s@),
                None => None,
            }),
        ensures
            group_layers(1, *old(args), *final(args), *self, *cli, *env, true),
            forall|g: int| 0 <= g && g != 1 ==> #[trigger] group_same(g, *old(args), *final(args)),
    {
        proof {
            reveal(group_layers);
            reveal(group_same);
        }
        let allow: bool = cli.absent("transport");
        assign(&mut args.transport, transport, allow);
        let allow: bool = cli.absent("bind");
        assign(&mut args.bind, copy_opt(&self.server.bind), allow);
        let allow: bool = cli.absent("log_level");
        assign(&mut args.log_level, copy_opt(&self.server.log_level), allow);
        let allow: bool = cli.absent("roles");
        assign_vec(&mut args.roles, copy_list(&self.server.roles), allow);
        let allow: bool = cli.absent("legacy_observations");
        assign(&mut args.legacy_observations, self.server.legacy_observations, allow);
        let allow: bool = cli.absent("stdio_concurrency");
        assign(&mut args.stdio_concurrency, self.server.stdio_concurrency, allow);
        let allow: bool = cli.absent("read_pool_size");
        assign(&mut args.read_pool_size, self.server.read_pool_size, allow);
    }

    /// Fills the settings of the store.
    fn fill_storage(&self, args: &mut Args, cli: &ExplicitArgs, env: &Environment)
        ensures
            group_layers(2, *old(args), *final(args), *self, *cli, *env, true),
            forall|g: int| 0 <= g && g != 2 ==> #[trigger] group_same(g, *old(args), *final(args)),
    {
        proof {
            reveal(group_layers);
            reveal(group_same);
        }
        let allow: bool = cli.absent("durability") && value_absent(&env.durability);
        assign(&mut args.durability, wrap(&self.storage.durability), allow);
        let allow: bool = cli.absent("mmap_size");
        assign(&mut args.mmap_size, self.storage.mmap_size, allow);
        let allow: bool = cli.absent("page_size");
        assign(&mut args.page_size, self.storage.page_size, allow);
        let allow: bool = cli.absent("cache_size_mb");
        assign(&mut args.cache_size_mb, self.storage.cache_size_mb, allow);
        let allow: bool = cli.absent("busy_timeout_ms");
        assign(&mut args.busy_timeout_ms, self.storage.busy_timeout_ms, allow);
        let allow: bool = cli.absent("wal_flush_ms");
        assign(&mut args.wal_flush_ms, self.storage.wal_flush_ms, allow);
        let allow: bool = cli.absent("lru_cache_size");
        assign(&mut args.lru_cache_size, self.storage.lru_cache_size, allow);
    }

    /// Fills the settings of the tools.
    fn fill_tools(&self, args: &mut Args, cli: &ExplicitArgs, env: &Environment)
        ensures
            group_layers(3, *old(args), *final(args), *self, *cli, *env, true),
            forall|g: int| 0 <= g && g != 3 ==> #[trigger] group_same(g, *old(args), *final(args)),
    {
        proof {
            reveal(group_layers);
            reveal(group_same);
        }
        let allow: bool = cli.absent("enable_all");
        assign(&mut args.enable_all, self.tools.all, allow);
        let allow: bool = cli.absent("enable_graph_read");
        assign(&mut args.enable_graph_read, self.tools.graph_read, allow);
        let allow: bool = cli.absent("enable_graph_write");
        assign(&mut args.enable_graph_write, self.tools.graph_write, allow);
        let allow: bool = cli.absent("enable_vectors");
        assign(&mut args.enable_vectors, self.tools.vectors, allow);
        let allow: bool = cli.absent("enable_code");
        assign(&mut args.enable_code, self.tools.code, allow);
    }

    /// Fills the settings of the dimensions of vectors.
    fn fill_dims(&self, args: &mut Args, cli: &ExplicitArgs, env: &Environment)
        ensures
            group_layers(4, *old(args), *final(args), *self, *cli, *env, true),
            forall|g: int| 0 <= g && g != 4 ==> #[trigger] group_same(g, *old(args), *final(args)),
    {
        proof {
            reveal(group_layers);
            reveal(group_same);
        }
        let allow: bool = cli.absent("embedding_dims");
        assign(&mut args.embedding_dims, self.vectors.embedding_dims, allow);
        let allow: bool = cli.absent("code_embedding_dims");
        assign(&mut args.code_embedding_dims, self.vectors.code_embedding_dims, allow);
    }

    /// Fills the settings of the index of vectors.
    fn fill_index(&self, args: &mut Args, vec_index: Option<VecIndex>, cli: &ExplicitArgs, env: &Environment)
        requires
            vec_index == (match self.vectors.index {
                Some(s) => VecIndex::named(s@),
                None => None,
            }),
        ensures
            group_layers(5, *old(args), *final(args), *self, *cli, *env, true),
            forall|g: int| 0 <= g && g != 5 ==> #[trigger] group_same(g, *old(args), *final(args)),
    {
        proof {
            reveal(group_layers);
            reveal(group_same);
        }
        let allow: bool = cli.absent("vec_index");
        assign(&mut args.vec_index, vec_index, allow);
    }

    /// Fills the settings of the metric of vectors.
    fn fill_metric(&self, args: &mut Args, vec_metric: Option<VecMetric>, cli: &ExplicitArgs, env: &Environment)
        requires
            vec_metric == (match self.vectors.metric {
                Some(s) => VecMetric::named(s@),
                None => None,
            }),
        ensures
            group_layers(6, *old(args), *final(args), *self, *cli, *env, true),
            forall|g: int| 0 <= g && g != 6 ==> #[trigger] group_same(g, *old(args), *final(args)),
    {
        proof {
            reveal(group_layers);
            reveal(group_same);
        }
        let allow: bool = cli.absent("vec_metric");
        assign(&mut args.vec_metric, vec_metric, allow);
    }

    /// Fills the settings of the tuning of vectors.
    fn fill_tuning(&self, args: &mut Args, vec_quantization: Option<VecQuant>, cli: &ExplicitArgs, env: &Environment)
        requires
            vec_quantization == (match self.vectors.quantization {
                Some(s) => VecQuant::named(s@),
                None => None,
            }),
        ensures
            group_layers(7, *old(args), *final(args), *self, *cli, *env, true),
            forall|g: int| 0 <= g && g != 7 ==> #[trigger] group_same(g, *old(args), *final(args)),
    {
        proof {
            reveal(group_layers);
            reveal(group_same);
        }
        let allow: bool = cli.absent("vec_quantization");
        assign(&mut args.vec_quantization, vec_quantization, allow);
        let allow: bool = cli.absent("vec_connectivity");
        assign(&mut args.vec_connectivity, self.vectors.connectivity, allow);
        let allow: bool = cli.absent("vec_expansion_add");
        assign(&mut args.vec_expansion_add, self.vectors.expansion_add, allow);
        let allow: bool = cli.absent("vec_expansion_search");
        assign(&mut args.vec_expansion_search, self.vectors.expansion_search, allow);
        let allow: bool = cli.absent("ivf_nlist");
        assign(&mut args.ivf_nlist, self.vectors.ivf_nlist, allow);
        let allow: bool = cli.absent("ivf_nprobe");
        assign(&mut args.ivf_nprobe, self.vectors.ivf_nprobe, allow);
        let allow: bool = cli.absent("tq_bits");
        assign(&mut args.tq_bits, self.vectors.tq_bits, allow);
    }

    /// Fills the settings of the token file.
    fn fill_token(&self, args: &mut Args, cli: &ExplicitArgs, env: &Environment)
        ensures
            group_layers(8, *old(args), *final(args), *self, *cli, *env, true),
            forall|g: int| 0 <= g && g != 8 ==> #[trigger] group_same(g, *old(args), *final(args)),
    {
        proof {
            reveal(group_layers);
            reveal(group_same);
        }
        let allow: bool = cli.absent("auth_token_file") && cli.absent("auth_token") && value_absent(&env.auth_token);
        assign(&mut args.auth_token_file, wrap(&self.security.auth_token_file), allow);
    }

    /// Fills the settings of the security of the server.
    fn fill_security(&self, args: &mut Args, cli: &ExplicitArgs, env: &Environment)
        ensures
            group_layers(9, *old(args), *final(args), *self, *cli, *env, true),
            forall|g: int| 0 <= g && g != 9 ==> #[trigger] group_same(g, *old(args), *final(args)),
    {
        proof {
            reveal(group_layers);
            reveal(group_same);
        }
        let allow: bool = cli.absent("static_bearer_scopes");
        assign_vec(&mut args.static_bearer_scopes, copy_list(&self.security.static_bearer_scopes), allow);
        let allow: bool = cli.absent("tls_cert") && value_absent(&env.tls_cert);
        assign(&mut args.tls_cert, wrap(&self.security.tls_cert), allow);
        let allow: bool = cli.absent("tls_key") && value_absent(&env.tls_key);
        assign(&mut args.tls_key, wrap(&self.security.tls_key), allow);
    }

    /// Fills the settings of the authorization server.
    fn fill_oauth(&self, args: &mut Args, cli: &ExplicitArgs, env: &Environment)
        ensures
            group_layers(10, *old(args), *final(args), *self, *cli, *env, true),
            forall|g: int| 0 <= g && g != 10 ==> #[trigger] group_same(g, *old(args), *final(args)),
    {
        proof {
            reveal(group_layers);
            reveal(group_same);
        }
        let allow: bool = cli.absent("public_url");
        assign(&mut args.public_url, wrap(&self.oauth.public_url), allow);
        let allow: bool = cli.absent("oidc_issuer");
        assign(&mut args.oidc_issuer, wrap(&self.oauth.issuer), allow);
        let allow: bool = cli.absent("oidc_client_id");
        assign(&mut args.oidc_client_id, wrap(&self.oauth.client_id), allow);
        let allow: bool = cli.absent("oidc_client_secret_file");
        assign(&mut args.oidc_client_secret_file, wrap(&self.oauth.client_secret_file), allow);
        let allow: bool = cli.absent("principals_file");
        assign(&mut args.principals_file, wrap(&self.oauth.principals_file), allow);
        let allow: bool = cli.absent("cimd_allowed_domains");
        assign_vec(&mut args.cimd_allowed_domains, copy_list(&self.oauth.cimd_allowed_domains), allow);
        let allow: bool = cli.absent("oauth_trust_forwarded_proto");
        assign(&mut args.oauth_trust_forwarded_proto, self.oauth.trust_forwarded_proto, allow);
    }

    /// Fills every setting that the command line left at its default. A fault
    /// leaves the settings that come after it as they were.
    pub fn apply(&self, args: &mut Args, cli: &ExplicitArgs, env: &Environment) -> (r: Result<()>)
        ensures
            self.layers(*old(args), *final(args), *cli, *env, self.fault().0),
            r is Ok <==> self.fault().0 == GROUPS,
            r matches Err(e) ==> (e matches MCSError::InvalidParams(m) && m@ == self.fault().1),
    {
        let ghost start = *args;
        proof {
            reveal(group_same);
        }
        let ghost before = *args;
        self.fill_memory(args, cli, env);
        proof {
            lemma_step(0, start, before, *args, *self, *cli, *env);
        }
        let transport: Option<Transport> = match &self.server.transport {
            None => None,
            Some(s) => match Transport::parse(s) {
                Some(x) => Some(x),
                None => {
                    proof {
                        lemma_stop(1, start, *args, *self, *cli, *env);
                    }
                    return Err(bad_variant("server.transport", s));
                },
            },
        };
        let ghost before = *args;
        self.fill_server(args, transport, cli, env);
        proof {
            lemma_step(1, start, before, *args, *self, *cli, *env);
        }
        let ghost before = *args;
        self.fill_storage(args, cli, env);
        proof {
            lemma_step(2, start, before, *args, *self, *cli, *env);
        }
        let ghost before = *args;
        self.fill_tools(args, cli, env);
        proof {
            lemma_step(3, start, before, *args, *self, *cli, *env);
        }
        let ghost before = *args;
        self.fill_dims(args, cli, env);
        proof {
            lemma_step(4, start, before, *args, *self, *cli, *env);
        }
        let vec_index: Option<VecIndex> = match &self.vectors.index {
            None => None,
            Some(s) => match VecIndex::parse(s) {
                Some(x) => Some(x),
                None => {
                    proof {
                        lemma_stop(5, start, *args, *self, *cli, *env);
                    }
                    return Err(bad_variant("vectors.index", s));
                },
            },
        };
        let ghost before = *args;
        self.fill_index(args, vec_index, cli, env);
        proof {
            lemma_step(5, start, before, *args, *self, *cli, *env);
        }
        let vec_metric: Option<VecMetric> = match &self.vectors.metric {
            None => None,
            Some(s) => match VecMetric::parse(s) {
                Some(x) => Some(x),
                None => {
                    proof {
                        lemma_stop(6, start, *args, *self, *cli, *env);
                    }
                    return Err(bad_variant("vectors.metric", s));
                },
            },
        };
        let ghost before = *args;
        self.fill_metric(args, vec_metric, cli, env);
        proof {
            lemma_step(6, start, before, *args, *self, *cli, *env);
        }
        let vec_quantization: Option<VecQuant> = match &self.vectors.quantization {
            None => None,
            Some(s) => match VecQuant::parse(s) {
                Some(x) => Some(x),
                None => {
                    proof {
                        lemma_stop(7, start, *args, *self, *cli, *env);
                    }
                    return Err(bad_variant("vectors.quantization", s));
                },
            },
        };
        let ghost before = *args;
        self.fill_tuning(args, vec_quantization, cli, env);
        proof {
            lemma_step(7, start, before, *args, *self, *cli, *env);
        }
        let ghost before = *args;
        self.fill_token(args, cli, env);
        proof {
            lemma_step(8, start, before, *args, *self, *cli, *env);
        }
        if let Some(v) = &self.security.static_bearer_scopes {
            if v.len() == 0 {
                proof {
                    lemma_stop(9, start, *args, *self, *cli, *env);
                }
                return Err(
                    invalid(
                        "config 'security.static-bearer-scopes': an empty list grants every scope; omit the key instead",
                    ),
                );
            }
        }
        let ghost before = *args;
        self.fill_security(args, cli, env);
        proof {
            lemma_step(9, start, before, *args, *self, *cli, *env);
        }
        let ghost before = *args;
        self.fill_oauth(args, cli, env);
        proof {
            lemma_step(10, start, before, *args, *self, *cli, *env);
        }
        proof {
            lemma_stop(11, start, *args, *self, *cli, *env);
        }
        Ok(())
    }

    /// The file that is named: by the flag, else by the variable unless it is
    /// empty. No other place is searched.
    pub fn resolve_path(args: &Args, variable: &Option<String>) -> (r: Option<String>)
        ensures
            text::opt_text(r) == (match args.config {
                Some(p) => Some(p@),
                None => config::filled(*variable),
            }),
    {
        match &args.config {
            Some(p) => Some(p.clone()),
            None => match variable {
                Some(v) => if v.as_str().is_empty() {
                    None
                } else {
                    Some(v.clone())
                },
                None => None,
            },
        }
    }
}

/// A setting that the command line carries is never changed by the file.
pub proof fn law_the_command_line_outranks_the_file(
    file: FileConfig,
    before: Args,
    after: Args,
    cli: ExplicitArgs,
    env: Environment,
    groups: int,
)
    requires
        file.layers(before, after, cli, env, groups),
    ensures
        !cli.is_absent("memory_file"@) ==> after.memory_file == before.memory_file,
        !cli.is_absent("transport"@) ==> after.transport == before.transport,
        !cli.is_absent("bind"@) ==> after.bind == before.bind,
        !cli.is_absent("log_level"@) ==> after.log_level == before.log_level,
        !cli.is_absent("roles"@) ==> text::texts(after.roles@) == text::texts(before.roles@),
        !cli.is_absent("legacy_observations"@) ==> after.legacy_observations == before.legacy_observations,
        !cli.is_absent("stdio_concurrency"@) ==> after.stdio_concurrency == before.stdio_concurrency,
        !cli.is_absent("read_pool_size"@) ==> after.read_pool_size == before.read_pool_size,
        !cli.is_absent("durability"@) ==> after.durability == before.durability,
        !cli.is_absent("mmap_size"@) ==> after.mmap_size == before.mmap_size,
        !cli.is_absent("page_size"@) ==> after.page_size == before.page_size,
        !cli.is_absent("cache_size_mb"@) ==> after.cache_size_mb == before.cache_size_mb,
        !cli.is_absent("busy_timeout_ms"@) ==> after.busy_timeout_ms == before.busy_timeout_ms,
        !cli.is_absent("wal_flush_ms"@) ==> after.wal_flush_ms == before.wal_flush_ms,
        !cli.is_absent("lru_cache_size"@) ==> after.lru_cache_size == before.lru_cache_size,
        !cli.is_absent("enable_all"@) ==> after.enable_all == before.enable_all,
        !cli.is_absent("enable_graph_read"@) ==> after.enable_graph_read == before.enable_graph_read,
        !cli.is_absent("enable_graph_write"@) ==> after.enable_graph_write == before.enable_graph_write,
        !cli.is_absent("enable_vectors"@) ==> after.enable_vectors == before.enable_vectors,
        !cli.is_absent("enable_code"@) ==> after.enable_code == before.enable_code,
        !cli.is_absent("embedding_dims"@) ==> after.embedding_dims == before.embedding_dims,
        !cli.is_absent("code_embedding_dims"@) ==> after.code_embedding_dims == before.code_embedding_dims,
        !cli.is_absent("vec_index"@) ==> after.vec_index == before.vec_index,
        !cli.is_absent("vec_metric"@) ==> after.vec_metric == before.vec_metric,
        !cli.is_absent("vec_quantization"@) ==> after.vec_quantization == before.vec_quantization,
        !cli.is_absent("vec_connectivity"@) ==> after.vec_connectivity == before.vec_connectivity,
        !cli.is_absent("vec_expansion_add"@) ==> after.vec_expansion_add == before.vec_expansion_add,
        !cli.is_absent("vec_expansion_search"@) ==> after.vec_expansion_search == before.vec_expansion_search,
        !cli.is_absent("ivf_nlist"@) ==> after.ivf_nlist == before.ivf_nlist,
        !cli.is_absent("ivf_nprobe"@) ==> after.ivf_nprobe == before.ivf_nprobe,
        !cli.is_absent("tq_bits"@) ==> after.tq_bits == before.tq_bits,
        !cli.is_absent("auth_token_file"@) ==> after.auth_token_file == before.auth_token_file,
        !cli.is_absent("auth_token"@) ==> after.auth_token_file == before.auth_token_file,
        !cli.is_absent("static_bearer_scopes"@) ==> text::texts(after.static_bearer_scopes@)
            == text::texts(before.static_bearer_scopes@),
        !cli.is_absent("tls_cert"@) ==> after.tls_cert == before.tls_cert,
        !cli.is_absent("tls_key"@) ==> after.tls_key == before.tls_key,
        !cli.is_absent("public_url"@) ==> after.public_url == before.public_url,
        !cli.is_absent("oidc_issuer"@) ==> after.oidc_issuer == before.oidc_issuer,
        !cli.is_absent("oidc_client_id"@) ==> after.oidc_client_id == before.oidc_client_id,
        !cli.is_absent("oidc_client_secret_file"@) ==> after.oidc_client_secret_file == before.oidc_client_secret_file,
        !cli.is_absent("principals_file"@) ==> after.principals_file == before.principals_file,
        !cli.is_absent("cimd_allowed_domains"@) ==> text::texts(after.cimd_allowed_domains@)
            == text::texts(before.cimd_allowed_domains@),
        !cli.is_absent("oauth_trust_forwarded_proto"@) ==> after.oauth_trust_forwarded_proto == before.oauth_trust_forwarded_proto,
{
    reveal(group_layers);
    assert(group_layers(0, before, after, file, cli, env, 0 < groups));
    assert(group_layers(1, before, after, file, cli, env, 1 < groups));
    assert(group_layers(2, before, after, file, cli, env, 2 < groups));
    assert(group_layers(3, before, after, file, cli, env, 3 < groups));
    assert(group_layers(4, before, after, file, cli, env, 4 < groups));
    assert(group_layers(5, before, after, file, cli, env, 5 < groups));
    assert(group_layers(6, before, after, file, cli, env, 6 < groups));
    assert(group_layers(7, before, after, file, cli, env, 7 < groups));
    assert(group_layers(8, before, after, file, cli, env, 8 < groups));
    assert(group_layers(9, before, after, file, cli, env, 9 < groups));
    assert(group_layers(10, before, after, file, cli, env, 10 < groups));
}

/// A setting whose variable is set is never changed by the file.
pub proof fn law_the_environment_outranks_the_file(
    file: FileConfig,
    before: Args,
    after: Args,
    cli: ExplicitArgs,
    env: Environment,
    groups: int,
)
    requires
        file.layers(before, after, cli, env, groups),
    ensures
        !unset(env.memory_file) ==> after.memory_file == before.memory_file,
        !unset(env.durability) ==> after.durability == before.durability,
        !unset(env.auth_token) ==> after.auth_token_file == before.auth_token_file,
        !unset(env.tls_cert) ==> after.tls_cert == before.tls_cert,
        !unset(env.tls_key) ==> after.tls_key == before.tls_key,
{
    reveal(group_layers);
    assert(group_layers(0, before, after, file, cli, env, 0 < groups));
    assert(group_layers(2, before, after, file, cli, env, 2 < groups));
    assert(group_layers(8, before, after, file, cli, env, 8 < groups));
    assert(group_layers(9, before, after, file, cli, env, 9 < groups));
}

// ---------------------------------------------------------------------------
// Faults in the file
// ---------------------------------------------------------------------------

/// How many lines the bytes hold: a last one without a line feed counts.
pub open spec fn line_count(bytes: Seq<u8>) -> nat
    decreases bytes.len(),
{
    if bytes.len() == 0 {
        0
    } else if bytes.len() == 1 || bytes[bytes.len() - 2] == 10 {
        line_count(bytes.drop_last()) + 1
    } else {
        line_count(bytes.drop_last())
    }
}

fn count_lines(bytes: &[u8], n: usize) -> (r: u64)
    requires
        n <= bytes@.len(),
    ensures
        r == line_count(bytes@.take(n as int)),
{
    let mut count: u64 = 0;
    let mut i: usize = 0;
    while i < n
        invariant
            i <= n <= bytes@.len(),
            count <= i,
            count == line_count(bytes@.take(i as int)),
        decreases n - i,
    {
        assert(bytes@.take(i + 1).drop_last() =~= bytes@.take(i as int));
        if i == 0 || bytes[i - 1] == 10 {
            count += 1;
        }
        i += 1;
    }
    count
}

/// The error for a file that does not parse: the message and the number of
/// lines before the fault, without the offending line, which may hold a
/// secret. `start` is where the fault begins, in bytes, if that is known.
pub fn invalid_file(path: &str, source: &str, start: Option<usize>, message: &str) -> (r: MCSError)
    ensures
        r matches MCSError::InvalidParams(m) && m@ == "invalid config file '"@ + path@ + "' at line "@
            + text::decimal(
            match start {
                None => 0,
                Some(n) => line_count(
                    encode_utf8(source@).take(
                        if n <= encode_utf8(source@).len() {
                            n as int
                        } else {
                            encode_utf8(source@).len() as int
                        },
                    ),
                ),
            },
        ) + ": "@ + message@,
{
    let bytes: &[u8] = source.as_bytes();
    let line: u64 = match start {
        None => 0,
        Some(n) => if n <= bytes.len() {
            count_lines(bytes, n)
        } else {
            count_lines(bytes, bytes.len())
        },
    };
    invalid(
        &"invalid config file '".to_owned().concat(path).concat("' at line ").concat(
            &decimal_of(line),
        ).concat(": ").concat(message),
    )
}

/// The error for a file that cannot be read.
pub fn unreadable_file(path: &str, error: &str) -> (r: MCSError)
    ensures
        r matches MCSError::InvalidParams(m) && m@ == "cannot read config file '"@ + path@ + "': "@
            + error@,
{
    invalid(&"cannot read config file '".to_owned().concat(path).concat("': ").concat(error))
}

/// The secret in a file, without the space around it, or what is wrong with the
/// file.
pub open spec fn secret_in(field: Seq<char>, path: Seq<char>, file: FileText) -> std::result::Result<
    Seq<char>,
    Seq<char>,
> {
    match file {
        Err(e) => Err("config '"@ + field + "': cannot read '"@ + path + "': "@ + e@),
        Ok(t) => if text::trimmed(t@).len() == 0 {
            Err("config '"@ + field + "': '"@ + path + "' is empty"@)
        } else {
            Ok(text::trimmed(t@))
        },
    }
}

/// The secret in the file that a setting names, given what came of reading
/// it.
pub fn read_secret_file(field: &str, path: &str, file: &FileText) -> (r: Result<String>)
    ensures
        match secret_in(field@, path@, *file) {
            Err(why) => r matches Err(MCSError::InvalidParams(m)) && m@ == why,
            Ok(secret) => r matches Ok(s) && s@ == secret,
        },
{
    match file {
        Err(e) => Err(
            invalid(
                &"config '".to_owned().concat(field).concat("': cannot read '").concat(path).concat(
                    "': ",
                ).concat(e),
            ),
        ),
        Ok(t) => {
            let secret: String = trim(t);
            if secret.as_str().is_empty() {
                Err(
                    invalid(
                        &"config '".to_owned().concat(field).concat("': '").concat(path).concat(
                            "' is empty",
                        ),
                    ),
                )
            } else {
                Ok(secret)
            }
        },
    }
}

// ---------------------------------------------------------------------------
// The embedding worker
// ---------------------------------------------------------------------------

/// The settings answer every question that the file could.
pub open spec fn complete(s: ProviderSettings) -> bool {
    s.ollama_url is Some && s.openai_url is Some && s.openai_api_key is Some
}

/// The file with the key that has to be read: the one that the configuration
/// names, where the environment leaves the key open.
pub open spec fn key_file_of(file: Option<&FileConfig>, environment: ProviderSettings) -> Option<String> {
    match file {
        None => None,
        Some(f) => if complete(environment) || environment.openai_api_key is Some {
            None
        } else {
            f.indexer.openai_api_key_file
        },
    }
}

/// The file with the key that has to be read, if any. A file that nobody needs
/// cannot stop a start.
pub fn wanted_key_file(file: Option<&FileConfig>, environment: &ProviderSettings) -> (r: Option<String>)
    ensures
        r == key_file_of(file, *environment),
{
    match file {
        None => None,
        Some(f) => if environment.is_complete() || environment.openai_api_key.is_some() {
            None
        } else {
            copy_opt(&f.indexer.openai_api_key_file)
        },
    }
}

/// The settings of the embedding worker: the environment with the file under
/// it. `key` is what came of reading the file with the key, where one has to
/// be read.
pub fn indexer_settings(file: Option<&FileConfig>, environment: ProviderSettings, key: &FileText) -> (r: Result<
    ProviderSettings,
>)
    ensures
        match key_file_of(file, environment) {
            Some(path) => match secret_in("indexer.openai-api-key-file"@, path@, *key) {
                Err(why) => r matches Err(MCSError::InvalidParams(m)) && m@ == why,
                Ok(_) => r is Ok,
            },
            None => r is Ok,
        },
        r matches Ok(s) ==> (match file {
            None => s == environment,
            Some(f) => if complete(environment) {
                s == environment
            } else {
                &&& s.ollama_url == indexer::either(environment.ollama_url, f.indexer.ollama_url)
                &&& s.openai_url == indexer::either(environment.openai_url, f.indexer.openai_url)
                &&& s.bedrock == environment.bedrock
                &&& match key_file_of(file, environment) {
                    Some(_) => s.openai_api_key matches Some(k) && k@ == text::trimmed((*key)->Ok_0@),
                    None => s.openai_api_key == environment.openai_api_key,
                }
            },
        }),
{
    let f: &FileConfig = match file {
        None => {
            return Ok(environment);
        },
        Some(f) => f,
    };
    if environment.is_complete() {
        return Ok(environment);
    }
    let openai_api_key: Option<String> = match wanted_key_file(file, &environment) {
        Some(path) => match read_secret_file("indexer.openai-api-key-file", &path, key) {
            Ok(s) => Some(s),
            Err(e) => {
                return Err(e);
            },
        },
        None => None,
    };
    Ok(
        environment.or(
            ProviderSettings {
                ollama_url: copy_opt(&f.indexer.ollama_url),
                openai_url: copy_opt(&f.indexer.openai_url),
                openai_api_key,
                bedrock: false,
            },
        ),
    )
}

/// A setting of the file applies where neither the command line nor a variable
/// speaks of it, each of them for itself; and what the file leaves out stays.
#[verifier::rlimit(40)]
pub proof fn law_the_file_fills_what_is_open(
    file: FileConfig,
    before: Args,
    after: Args,
    cli: ExplicitArgs,
    env: Environment,
)
    requires
        file.layers(before, after, cli, env, 11),
    ensures
        file.server.memory_file is Some && cli.is_absent("memory_file"@) && unset(env.memory_file) ==> after.memory_file == file.server.memory_file,
        file.server.memory_file is None ==> after.memory_file == before.memory_file,
        (file.server.transport matches Some(v) && Transport::named(v@) is Some && cli.is_absent("transport"@)) ==> Some(after.transport)
            == Transport::named(file.server.transport->0@),
        file.server.transport is None ==> after.transport == before.transport,
        file.server.bind is Some && cli.is_absent("bind"@) ==> Some(after.bind) == file.server.bind,
        file.server.bind is None ==> after.bind == before.bind,
        file.server.log_level is Some && cli.is_absent("log_level"@) ==> Some(after.log_level) == file.server.log_level,
        file.server.log_level is None ==> after.log_level == before.log_level,
        (file.server.roles matches Some(v) && v@.len() > 0 && cli.is_absent("roles"@)) ==> text::texts(after.roles@) == text::texts(
            file.server.roles->0@,
        ),
        file.server.roles is None ==> text::texts(after.roles@) == text::texts(before.roles@),
        file.server.legacy_observations is Some && cli.is_absent("legacy_observations"@) ==> Some(after.legacy_observations) == file.server.legacy_observations,
        file.server.legacy_observations is None ==> after.legacy_observations == before.legacy_observations,
        file.server.stdio_concurrency is Some && cli.is_absent("stdio_concurrency"@) ==> Some(after.stdio_concurrency) == file.server.stdio_concurrency,
        file.server.stdio_concurrency is None ==> after.stdio_concurrency == before.stdio_concurrency,
        file.server.read_pool_size is Some && cli.is_absent("read_pool_size"@) ==> Some(after.read_pool_size) == file.server.read_pool_size,
        file.server.read_pool_size is None ==> after.read_pool_size == before.read_pool_size,
        file.storage.durability is Some && cli.is_absent("durability"@) && unset(env.durability) ==> after.durability == file.storage.durability,
        file.storage.durability is None ==> after.durability == before.durability,
        file.storage.mmap_size is Some && cli.is_absent("mmap_size"@) ==> Some(after.mmap_size) == file.storage.mmap_size,
        file.storage.mmap_size is None ==> after.mmap_size == before.mmap_size,
        file.storage.page_size is Some && cli.is_absent("page_size"@) ==> Some(after.page_size) == file.storage.page_size,
        file.storage.page_size is None ==> after.page_size == before.page_size,
        file.storage.cache_size_mb is Some && cli.is_absent("cache_size_mb"@) ==> Some(after.cache_size_mb) == file.storage.cache_size_mb,
        file.storage.cache_size_mb is None ==> after.cache_size_mb == before.cache_size_mb,
        file.storage.busy_timeout_ms is Some && cli.is_absent("busy_timeout_ms"@) ==> Some(after.busy_timeout_ms) == file.storage.busy_timeout_ms,
        file.storage.busy_timeout_ms is None ==> after.busy_timeout_ms == before.busy_timeout_ms,
        file.storage.wal_flush_ms is Some && cli.is_absent("wal_flush_ms"@) ==> Some(after.wal_flush_ms) == file.storage.wal_flush_ms,
        file.storage.wal_flush_ms is None ==> after.wal_flush_ms == before.wal_flush_ms,
        file.storage.lru_cache_size is Some && cli.is_absent("lru_cache_size"@) ==> Some(after.lru_cache_size) == file.storage.lru_cache_size,
        file.storage.lru_cache_size is None ==> after.lru_cache_size == before.lru_cache_size,
        file.tools.all is Some && cli.is_absent("enable_all"@) ==> Some(after.enable_all) == file.tools.all,
        file.tools.all is None ==> after.enable_all == before.enable_all,
        file.tools.graph_read is Some && cli.is_absent("enable_graph_read"@) ==> Some(after.enable_graph_read) == file.tools.graph_read,
        file.tools.graph_read is None ==> after.enable_graph_read == before.enable_graph_read,
        file.tools.graph_write is Some && cli.is_absent("enable_graph_write"@) ==> Some(after.enable_graph_write) == file.tools.graph_write,
        file.tools.graph_write is None ==> after.enable_graph_write == before.enable_graph_write,
        file.tools.vectors is Some && cli.is_absent("enable_vectors"@) ==> Some(after.enable_vectors) == file.tools.vectors,
        file.tools.vectors is None ==> after.enable_vectors == before.enable_vectors,
        file.tools.code is Some && cli.is_absent("enable_code"@) ==> Some(after.enable_code) == file.tools.code,
        file.tools.code is None ==> after.enable_code == before.enable_code,
        file.vectors.embedding_dims is Some && cli.is_absent("embedding_dims"@) ==> Some(after.embedding_dims) == file.vectors.embedding_dims,
        file.vectors.embedding_dims is None ==> after.embedding_dims == before.embedding_dims,
        file.vectors.code_embedding_dims is Some && cli.is_absent("code_embedding_dims"@) ==> Some(after.code_embedding_dims) == file.vectors.code_embedding_dims,
        file.vectors.code_embedding_dims is None ==> after.code_embedding_dims == before.code_embedding_dims,
        (file.vectors.index matches Some(v) && VecIndex::named(v@) is Some && cli.is_absent("vec_index"@)) ==> Some(after.vec_index)
            == VecIndex::named(file.vectors.index->0@),
        file.vectors.index is None ==> after.vec_index == before.vec_index,
        (file.vectors.metric matches Some(v) && VecMetric::named(v@) is Some && cli.is_absent("vec_metric"@)) ==> Some(after.vec_metric)
            == VecMetric::named(file.vectors.metric->0@),
        file.vectors.metric is None ==> after.vec_metric == before.vec_metric,
        (file.vectors.quantization matches Some(v) && VecQuant::named(v@) is Some && cli.is_absent("vec_quantization"@)) ==> Some(after.vec_quantization)
            == VecQuant::named(file.vectors.quantization->0@),
        file.vectors.quantization is None ==> after.vec_quantization == before.vec_quantization,
        file.vectors.connectivity is Some && cli.is_absent("vec_connectivity"@) ==> Some(after.vec_connectivity) == file.vectors.connectivity,
        file.vectors.connectivity is None ==> after.vec_connectivity == before.vec_connectivity,
        file.vectors.expansion_add is Some && cli.is_absent("vec_expansion_add"@) ==> Some(after.vec_expansion_add) == file.vectors.expansion_add,
        file.vectors.expansion_add is None ==> after.vec_expansion_add == before.vec_expansion_add,
        file.vectors.expansion_search is Some && cli.is_absent("vec_expansion_search"@) ==> Some(after.vec_expansion_search) == file.vectors.expansion_search,
        file.vectors.expansion_search is None ==> after.vec_expansion_search == before.vec_expansion_search,
        file.vectors.ivf_nlist is Some && cli.is_absent("ivf_nlist"@) ==> Some(after.ivf_nlist) == file.vectors.ivf_nlist,
        file.vectors.ivf_nlist is None ==> after.ivf_nlist == before.ivf_nlist,
        file.vectors.ivf_nprobe is Some && cli.is_absent("ivf_nprobe"@) ==> Some(after.ivf_nprobe) == file.vectors.ivf_nprobe,
        file.vectors.ivf_nprobe is None ==> after.ivf_nprobe == before.ivf_nprobe,
        file.vectors.tq_bits is Some && cli.is_absent("tq_bits"@) ==> Some(after.tq_bits) == file.vectors.tq_bits,
        file.vectors.tq_bits is None ==> after.tq_bits == before.tq_bits,
        file.security.auth_token_file is Some && cli.is_absent("auth_token_file"@) && cli.is_absent("auth_token"@) && unset(env.auth_token) ==> after.auth_token_file == file.security.auth_token_file,
        file.security.auth_token_file is None ==> after.auth_token_file == before.auth_token_file,
        (file.security.static_bearer_scopes matches Some(v) && v@.len() > 0 && cli.is_absent("static_bearer_scopes"@)) ==> text::texts(after.static_bearer_scopes@) == text::texts(
            file.security.static_bearer_scopes->0@,
        ),
        file.security.static_bearer_scopes is None ==> text::texts(after.static_bearer_scopes@) == text::texts(before.static_bearer_scopes@),
        file.security.tls_cert is Some && cli.is_absent("tls_cert"@) && unset(env.tls_cert) ==> after.tls_cert == file.security.tls_cert,
        file.security.tls_cert is None ==> after.tls_cert == before.tls_cert,
        file.security.tls_key is Some && cli.is_absent("tls_key"@) && unset(env.tls_key) ==> after.tls_key == file.security.tls_key,
        file.security.tls_key is None ==> after.tls_key == before.tls_key,
        file.oauth.public_url is Some && cli.is_absent("public_url"@) ==> after.public_url == file.oauth.public_url,
        file.oauth.public_url is None ==> after.public_url == before.public_url,
        file.oauth.issuer is Some && cli.is_absent("oidc_issuer"@) ==> after.oidc_issuer == file.oauth.issuer,
        file.oauth.issuer is None ==> after.oidc_issuer == before.oidc_issuer,
        file.oauth.client_id is Some && cli.is_absent("oidc_client_id"@) ==> after.oidc_client_id == file.oauth.client_id,
        file.oauth.client_id is None ==> after.oidc_client_id == before.oidc_client_id,
        file.oauth.client_secret_file is Some && cli.is_absent("oidc_client_secret_file"@) ==> after.oidc_client_secret_file == file.oauth.client_secret_file,
        file.oauth.client_secret_file is None ==> after.oidc_client_secret_file == before.oidc_client_secret_file,
        file.oauth.principals_file is Some && cli.is_absent("principals_file"@) ==> after.principals_file == file.oauth.principals_file,
        file.oauth.principals_file is None ==> after.principals_file == before.principals_file,
        (file.oauth.cimd_allowed_domains matches Some(v) && v@.len() > 0 && cli.is_absent("cimd_allowed_domains"@)) ==> text::texts(after.cimd_allowed_domains@) == text::texts(
            file.oauth.cimd_allowed_domains->0@,
        ),
        file.oauth.cimd_allowed_domains is None ==> text::texts(after.cimd_allowed_domains@) == text::texts(before.cimd_allowed_domains@),
        file.oauth.trust_forwarded_proto is Some && cli.is_absent("oauth_trust_forwarded_proto"@) ==> Some(after.oauth_trust_forwarded_proto) == file.oauth.trust_forwarded_proto,
        file.oauth.trust_forwarded_proto is None ==> after.oauth_trust_forwarded_proto == before.oauth_trust_forwarded_proto,
        after.config == before.config && after.auth_token == before.auth_token,
{
    reveal(group_layers);
    assert(group_layers(0, before, after, file, cli, env, true));
    assert(group_layers(1, before, after, file, cli, env, true));
    assert(group_layers(2, before, after, file, cli, env, true));
    assert(group_layers(3, before, after, file, cli, env, true));
    assert(group_layers(4, before, after, file, cli, env, true));
    assert(group_layers(5, before, after, file, cli, env, true));
    assert(group_layers(6, before, after, file, cli, env, true));
    assert(group_layers(7, before, after, file, cli, env, true));
    assert(group_layers(8, before, after, file, cli, env, true));
    assert(group_layers(9, before, after, file, cli, env, true));
    assert(group_layers(10, before, after, file, cli, env, true));
    assert(group_layers(11, before, after, file, cli, env, false));
}

/// A file is applied whole exactly where every name in it is known and its list of
/// scopes, if it has one, is not empty.
pub proof fn law_which_files_are_applied_whole(file: FileConfig)
    ensures
        file.fault().0 == GROUPS <==> {
            &&& file.server.transport matches Some(s) ==> Transport::named(s@) is Some
            &&& file.vectors.index matches Some(s) ==> VecIndex::named(s@) is Some
            &&& file.vectors.metric matches Some(s) ==> VecMetric::named(s@) is Some
            &&& file.vectors.quantization matches Some(s) ==> VecQuant::named(s@) is Some
            &&& file.security.static_bearer_scopes matches Some(v) ==> v@.len() > 0
        },
        GROUPS == 11,
{
}

/// How many line feeds the bytes hold.
pub open spec fn line_feeds(bytes: Seq<u8>) -> nat
    decreases bytes.len(),
{
    if bytes.len() == 0 {
        0
    } else {
        line_feeds(bytes.drop_last()) + (if bytes.last() == 10 {
            1nat
        } else {
            0nat
        })
    }
}

/// Every line feed ends a line, and what stands behind the last one is a line of
/// its own.
pub proof fn law_line_feeds_end_lines(bytes: Seq<u8>)
    ensures
        line_count(bytes) == line_feeds(bytes) + (if bytes.len() > 0 && bytes.last() != 10 {
            1nat
        } else {
            0nat
        }),
    decreases bytes.len(),
{
    if bytes.len() > 0 {
        let front = bytes.drop_last();
        law_line_feeds_end_lines(front);
        if bytes.len() > 1 {
            assert(front.last() == bytes[bytes.len() - 2]);
        }
    }
}

/// The key is read from the file that the configuration names exactly where the
/// environment has no key.
pub proof fn law_a_key_file_is_read_where_it_is_needed(file: FileConfig, environment: ProviderSettings)
    ensures
        environment.openai_api_key is None ==> key_file_of(Some(&file), environment)
            == file.indexer.openai_api_key_file,
        environment.openai_api_key is Some ==> key_file_of(Some(&file), environment) is None,
        key_file_of(None, environment) is None,
{
}

} // verus!
