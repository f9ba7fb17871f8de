//! The worker that embeds what changed: which provider it asks for what, and
//! what becomes of the answer.
use vstd::prelude::*;

use crate::errors::{memory, MCSError, Result};
use crate::graph;
use crate::graph::{EntityModel, Graph, GraphModel, TypeModel};
use crate::index;
use crate::index::{EntityRevision, IndexJob, IndexOperation, IndexStore};
use crate::jobs;
use crate::jobs::{quote_json, IndexProfile, Normalization};
use crate::rebuild;
use crate::rebuild::find_revision;
use crate::text;
use crate::text::{copy_texts, decimal_of, join, same, starts_with};

verus! {

/// What an entity is embedded as.
#[derive(Debug)]
pub struct CanonicalDocument {
    pub entity_id: i64,
    pub revision: i64,
    pub name: String,
    pub entity_type: String,
    pub observations: Vec<String>,
}

/// What a [`CanonicalDocument`] holds.
#[verifier::ext_equal]
pub struct DocumentData {
    pub entity_id: int,
    pub revision: int,
    pub name: Seq<char>,
    pub entity_type: Seq<char>,
    pub observations: Seq<Seq<char>>,
}

impl View for CanonicalDocument {
    type V = DocumentData;

    open spec fn view(&self) -> DocumentData {
        DocumentData {
            entity_id: self.entity_id as int,
            revision: self.revision as int,
            name: self.name@,
            entity_type: self.entity_type@,
            observations: text::texts(self.observations@),
        }
    }
}

impl DocumentData {
    /// The lines of the document: its name, its type and its observations.
    pub open spec fn lines(self) -> Seq<Seq<char>> {
        seq![self.name, self.entity_type] + self.observations
    }
}

impl CanonicalDocument {
    /// The text that is embedded.
    pub fn text(&self) -> (r: String)
        ensures
            r@ == text::joined(self@.lines(), "\n"@),
    {
        let mut lines: Vec<String> = Vec::new();
        lines.push(self.name.clone());
        lines.push(self.entity_type.clone());
        let mut i: usize = 0;
        assert(text::texts(lines@) =~= self@.lines().take(2));
        while i < self.observations.len()
            invariant
                i <= self.observations@.len(),
                text::texts(lines@) == self@.lines().take(i + 2),
            decreases self.observations@.len() - i,
        {
            let ghost done = text::texts(lines@);
            lines.push(self.observations[i].clone());
            assert(text::texts(lines@) =~= done.push(self.observations@[i as int]@));
            assert(self@.lines().take(i + 3) =~= self@.lines().take(i + 2).push(
                self.observations@[i as int]@,
            ));
            i += 1;
        }
        assert(self@.lines().take((self.observations@.len() + 2) as int) =~= self@.lines());
        join(&lines, "\n")
    }
}

#[derive(Debug)]
pub enum ProviderError {
    Request(String),
    Response(String),
}

impl ProviderError {
    /// The error in words.
    pub open spec fn says(self) -> Seq<char> {
        match self {
            ProviderError::Request(m) => "provider request failed: "@ + m@,
            ProviderError::Response(m) => "provider response malformed: "@ + m@,
        }
    }

    /// The error in words.
    pub fn message(&self) -> (r: String)
        ensures
            r@ == self.says(),
    {
        match self {
            ProviderError::Request(m) => "provider request failed: ".to_owned().concat(m),
            ProviderError::Response(m) => "provider response malformed: ".to_owned().concat(m),
        }
    }
}

/// A vector by the bits of its components, and whether its length is one,
/// within the tolerance.
#[derive(Debug)]
pub struct Embedding {
    pub bits: Vec<u32>,
    pub unit: bool,
}

/// Turns texts into vectors.
pub trait EmbeddingProvider {
    fn embed_texts(&self, profile: &IndexProfile, texts: &Vec<String>) -> std::result::Result<
        Vec<Embedding>,
        ProviderError,
    >;
}

// ---------------------------------------------------------------------------
// Which providers are configured
// ---------------------------------------------------------------------------

/// Environment variable holding the Ollama base URL.
pub const OLLAMA_URL_ENV: &'static str = "MCP_MEMORY_OLLAMA_URL";

/// Environment variable holding the OpenAI-compatible embeddings endpoint.
pub const OPENAI_URL_ENV: &'static str = "MCP_MEMORY_OPENAI_URL";

/// Environment variable holding the key for that endpoint.
pub const OPENAI_API_KEY_ENV: &'static str = "MCP_MEMORY_OPENAI_API_KEY";

/// Which embedding services the worker may call. An absent field means that
/// the provider is not configured.
pub struct ProviderSettings {
    pub ollama_url: Option<String>,
    pub openai_url: Option<String>,
    pub openai_api_key: Option<String>,
    /// Whether the deployment wants the Bedrock provider, which reads the
    /// standard AWS chain.
    pub bedrock: bool,
}

impl Default for ProviderSettings {
    fn default() -> (r: Self)
        ensures
            r.ollama_url is None && r.openai_url is None && r.openai_api_key is None && !r.bedrock,
    {
        ProviderSettings { ollama_url: None, openai_url: None, openai_api_key: None, bedrock: false }
    }
}

/// The value, unless it is empty.
pub open spec fn unless_empty(value: Option<String>) -> Option<String> {
    match value {
        Some(v) => if v@.len() == 0 {
            None
        } else {
            Some(v)
        },
        None => None,
    }
}

fn keep_unless_empty(value: Option<String>) -> (r: Option<String>)
    ensures
        r == unless_empty(value),
{
    match value {
        Some(v) => if v.as_str().is_empty() {
            None
        } else {
            Some(v)
        },
        None => None,
    }
}

/// The first of the two that is there.
pub open spec fn either(a: Option<String>, b: Option<String>) -> Option<String> {
    if a is Some {
        a
    } else {
        b
    }
}

fn pick(a: Option<String>, b: Option<String>) -> (r: Option<String>)
    ensures
        r == either(a, b),
{
    match a {
        Some(v) => Some(v),
        None => b,
    }
}

impl ProviderSettings {
    /// The settings that the three variables give, in the order of their
    /// names above. An empty variable counts as unset.
    pub fn from_environment(
        ollama_url: Option<String>,
        openai_url: Option<String>,
        openai_api_key: Option<String>,
    ) -> (r: Self)
        ensures
            r.ollama_url == unless_empty(ollama_url),
            r.openai_url == unless_empty(openai_url),
            r.openai_api_key == unless_empty(openai_api_key),
            !r.bedrock,
    {
        ProviderSettings {
            ollama_url: keep_unless_empty(ollama_url),
            openai_url: keep_unless_empty(openai_url),
            openai_api_key: keep_unless_empty(openai_api_key),
            bedrock: false,
        }
    }

    /// Whether no source of lower priority has to be read.
    pub fn is_complete(&self) -> (r: bool)
        ensures
            r == (self.ollama_url is Some && self.openai_url is Some && self.openai_api_key is Some),
    {
        self.ollama_url.is_some() && self.openai_url.is_some() && self.openai_api_key.is_some()
    }

    /// Fills only the fields that this value leaves empty.
    pub fn or(self, lower: Self) -> (r: Self)
        ensures
            r.ollama_url == either(self.ollama_url, lower.ollama_url),
            r.openai_url == either(self.openai_url, lower.openai_url),
            r.openai_api_key == either(self.openai_api_key, lower.openai_api_key),
            r.bedrock == (self.bedrock || lower.bedrock),
    {
        ProviderSettings {
            ollama_url: pick(self.ollama_url, lower.ollama_url),
            openai_url: pick(self.openai_url, lower.openai_url),
            openai_api_key: pick(self.openai_api_key, lower.openai_api_key),
            bedrock: self.bedrock || lower.bedrock,
        }
    }
}

/// The user name and the password that `url::Url` reads from a URL; nothing
/// where the text is no URL.
pub uninterp spec fn url_credentials(s: Seq<char>) -> Option<(Seq<char>, Option<Seq<char>>)>;

/// `url::Url::parse`, `username` and `password`: the user name, which is empty
/// where there is none, and the password of a URL; or why the text is no URL.
#[verifier::external_body]
pub(crate) fn read_credentials(s: &str) -> (r: std::result::Result<(String, Option<String>), String>)
    ensures
        match r {
            Ok((user, password)) => url_credentials(s@) == Some((user@, text::opt_text(password))),
            Err(_) => url_credentials(s@) is None,
        },
{
    match url::Url::parse(s) {
        Ok(u) => Ok((u.username().to_owned(), u.password().map(|p| p.to_owned()))),
        Err(e) => Err(e.to_string()),
    }
}

/// The URL that `url::Url::join` makes of a base and a reference; nothing
/// where there is none.
pub uninterp spec fn joined_url(base: Seq<char>, reference: Seq<char>) -> Option<Seq<char>>;

/// `url::Url::parse` and `url::Url::join`: a reference as seen from a base.
#[verifier::external_body]
pub(crate) fn join_url(base: &str, reference: &str) -> (r: std::result::Result<String, String>)
    ensures
        match r {
            Ok(u) => joined_url(base@, reference@) == Some(u@),
            Err(_) => joined_url(base@, reference@) is None,
        },
{
    match url::Url::parse(base).and_then(|u| u.join(reference)) {
        Ok(u) => Ok(u.into()),
        Err(e) => Err(e.to_string()),
    }
}

/// The URL can be the base URL of a provider: it carries no credentials.
pub open spec fn plain_endpoint(s: Seq<char>) -> bool {
    url_credentials(s) matches Some(c) && c.0.len() == 0 && c.1 is None
}

/// Accepts the credentials that were read from the base URL of Ollama.
pub fn accept_credentials(read: std::result::Result<(String, Option<String>), String>) -> (r: std::result::Result<
    (),
    ProviderError,
>)
    ensures
        match read {
            Err(e) => r matches Err(ProviderError::Request(m)) && m == e,
            Ok((user, password)) => if user@.len() > 0 || password is Some {
                r matches Err(ProviderError::Request(m)) && m@ == "Ollama URL must not contain credentials"@
            } else {
                r is Ok
            },
        },
{
    match read {
        Err(e) => Err(ProviderError::Request(e)),
        Ok((user, password)) => if !user.as_str().is_empty() || password.is_some() {
            Err(ProviderError::Request("Ollama URL must not contain credentials".to_owned()))
        } else {
            Ok(())
        },
    }
}

/// The providers that are configured: where each of them is reached.
pub struct ProviderRegistry {
    pub ollama: Option<String>,
    /// The endpoint and its key.
    pub openai: Option<(String, String)>,
    pub bedrock: bool,
}

/// Which provider answers.
#[derive(Clone, Copy, Debug, PartialEq, Eq, Structural)]
pub enum ProviderKind {
    Ollama,
    OpenAi,
    Bedrock,
}

/// The provider that a profile's kind names.
pub open spec fn kind_named(kind: Seq<char>) -> Option<ProviderKind> {
    if kind == "ollama"@ {
        Some(ProviderKind::Ollama)
    } else if kind == "openai"@ || kind == "openai-compatible"@ {
        Some(ProviderKind::OpenAi)
    } else if kind == "bedrock"@ {
        Some(ProviderKind::Bedrock)
    } else {
        None
    }
}

fn read_kind(kind: &str) -> (r: Option<ProviderKind>)
    ensures
        r == kind_named(kind@),
{
    if same(kind, "ollama") {
        Some(ProviderKind::Ollama)
    } else if same(kind, "openai") || same(kind, "openai-compatible") {
        Some(ProviderKind::OpenAi)
    } else if same(kind, "bedrock") {
        Some(ProviderKind::Bedrock)
    } else {
        None
    }
}

impl ProviderRegistry {
    /// The provider is configured.
    pub open spec fn offers(self, kind: ProviderKind) -> bool {
        match kind {
            ProviderKind::Ollama => self.ollama is Some,
            ProviderKind::OpenAi => self.openai is Some,
            ProviderKind::Bedrock => self.bedrock,
        }
    }

    fn has(&self, kind: ProviderKind) -> (r: bool)
        ensures
            r == self.offers(kind),
    {
        match kind {
            ProviderKind::Ollama => self.ollama.is_some(),
            ProviderKind::OpenAi => self.openai.is_some(),
            ProviderKind::Bedrock => self.bedrock,
        }
    }

    /// The registry that the settings describe. The base URL of Ollama must
    /// be one, without credentials; the other endpoint and its key come
    /// together or not at all.
    pub fn from_settings(settings: ProviderSettings) -> (r: std::result::Result<Self, ProviderError>)
        ensures
            r is Ok <==> (settings.ollama_url matches Some(u) ==> plain_endpoint(u@)) && (
            settings.openai_url is Some <==> settings.openai_api_key is Some),
            match r {
                Ok(registry) => {
                    &&& registry.ollama == settings.ollama_url
                    &&& registry.openai is Some <==> settings.openai_url is Some
                    &&& registry.openai matches Some(p) ==> settings.openai_url == Some(p.0)
                        && settings.openai_api_key == Some(p.1)
                    &&& registry.bedrock == settings.bedrock
                },
                Err(e) => {
                    &&& e is Request
                    &&& (settings.ollama_url matches Some(u) ==> plain_endpoint(u@)) ==> e->Request_0@
                        == "OpenAI-compatible URL and API key must be configured together"@
                    &&& (settings.ollama_url matches Some(u) && url_credentials(u@) is Some
                        && !plain_endpoint(u@)) ==> e->Request_0@
                        == "Ollama URL must not contain credentials"@
                },
            },
    {
        if let Some(u) = &settings.ollama_url {
            match accept_credentials(read_credentials(u)) {
                Ok(_) => {},
                Err(e) => {
                    return Err(e);
                },
            }
        }
        let openai: Option<(String, String)> = match (settings.openai_url, settings.openai_api_key) {
            (Some(u), Some(k)) => Some((u, k)),
            (None, None) => None,
            _ => {
                return Err(
                    ProviderError::Request(
                        "OpenAI-compatible URL and API key must be configured together".to_owned(),
                    ),
                );
            },
        };
        Ok(ProviderRegistry { ollama: settings.ollama_url, openai, bedrock: settings.bedrock })
    }

    /// Whether the registry could serve a profile of that provider kind.
    pub fn supports_provider_kind(&self, kind: &str) -> (r: bool)
        ensures
            r == (kind_named(kind@) matches Some(k) && self.offers(k)),
    {
        match read_kind(kind) {
            Some(k) => self.has(k),
            None => false,
        }
    }

    /// The provider that a profile is sent to. A kind that is unknown or not
    /// configured is refused; it is never sent to another provider.
    pub fn dispatch(&self, kind: &str) -> (r: std::result::Result<ProviderKind, ProviderError>)
        ensures
            match kind_named(kind@) {
                Some(k) => if self.offers(k) {
                    r == Ok::<ProviderKind, ProviderError>(k)
                } else {
                    r matches Err(ProviderError::Request(m)) && m@ == (match k {
                        ProviderKind::Ollama => "Ollama provider is not configured"@,
                        ProviderKind::OpenAi => "OpenAI-compatible provider is not configured"@,
                        ProviderKind::Bedrock => "Bedrock provider is not configured"@,
                    })
                },
                None => r matches Err(ProviderError::Request(m)) && m@
                    == "unsupported embedding provider '"@ + kind@ + "'"@,
            },
    {
        match read_kind(kind) {
            Some(k) => if self.has(k) {
                Ok(k)
            } else {
                let m: &str = match k {
                    ProviderKind::Ollama => "Ollama provider is not configured",
                    ProviderKind::OpenAi => "OpenAI-compatible provider is not configured",
                    ProviderKind::Bedrock => "Bedrock provider is not configured",
                };
                Err(ProviderError::Request(m.to_owned()))
            },
            None => Err(
                ProviderError::Request(
                    "unsupported embedding provider '".to_owned().concat(kind).concat("'"),
                ),
            ),
        }
    }
}

/// Where Ollama answers, as seen from its base URL.
pub fn ollama_endpoint(base: &str) -> (r: std::result::Result<String, ProviderError>)
    ensures
        match r {
            Ok(u) => joined_url(base@, "api/embed"@) == Some(u@),
            Err(e) => joined_url(base@, "api/embed"@) is None && e is Request,
        },
{
    match join_url(base, "api/embed") {
        Ok(u) => Ok(u),
        Err(e) => Err(ProviderError::Request(e)),
    }
}

// ---------------------------------------------------------------------------
// What a provider answers
// ---------------------------------------------------------------------------

/// What stands where a list of vectors is expected in an answer: nothing; or a
/// list, in which an item is no list, or a list of numbers by their bits, in
/// which an item is no number.
pub type Reply = Option<Vec<Option<Vec<Option<u32>>>>>;

/// The numbers of a list in which every item is one.
pub open spec fn all_numbers(v: Seq<Option<u32>>) -> Option<Seq<u32>> {
    if forall|i: int| 0 <= i < v.len() ==> (#[trigger] v[i]) is Some {
        Some(v.map_values(|x: Option<u32>| x->0))
    } else {
        None
    }
}

/// The item at `i` is no list of numbers, and all before it are.
pub open spec fn first_fault(v: Seq<Option<Vec<Option<u32>>>>, i: int) -> bool {
    &&& 0 <= i < v.len()
    &&& !(v[i] matches Some(x) && all_numbers(x@) is Some)
    &&& forall|j: int|
        0 <= j < i ==> ((#[trigger] v[j]) matches Some(x) && all_numbers(x@) is Some)
}

fn read_numbers(v: &Vec<Option<u32>>) -> (r: Option<Vec<u32>>)
    ensures
        match r {
            Some(n) => all_numbers(v@) == Some(n@),
            None => all_numbers(v@) is None,
        },
{
    let mut out: Vec<u32> = Vec::new();
    let mut i: usize = 0;
    while i < v.len()
        invariant
            i <= v@.len(),
            out@.len() == i,
            forall|j: int| 0 <= j < i ==> (#[trigger] v@[j]) == Some(out@[j]),
        decreases v@.len() - i,
    {
        match v[i] {
            Some(x) => {
                out.push(x);
            },
            None => {
                assert(!(v@[i as int] is Some));
                return None;
            },
        }
        i += 1;
    }
    assert(out@ =~= v@.map_values(|x: Option<u32>| x->0));
    Some(out)
}

/// The vectors of an answer, or what is wrong with the first item that is
/// none. `missing` and `not_a_list` are the words for an answer without a
/// list, and for an item that is no list.
pub fn read_reply(reply: &Reply, missing: &str, not_a_list: &str) -> (r: std::result::Result<
    Vec<Vec<u32>>,
    ProviderError,
>)
    ensures
        match *reply {
            None => r matches Err(ProviderError::Response(m)) && m@ == missing@,
            Some(v) => match r {
                Ok(out) => {
                    &&& out@.len() == v@.len()
                    &&& forall|i: int|
                        0 <= i < v@.len() ==> ((#[trigger] v@[i]) matches Some(x) && all_numbers(x@)
                            == Some(out@[i]@))
                },
                Err(ProviderError::Response(m)) => exists|i: int|
                    #[trigger] first_fault(v@, i) && m@ == (if v@[i] is None {
                        not_a_list@
                    } else {
                        "embedding contains non-number"@
                    }),
                Err(ProviderError::Request(_)) => false,
            },
        },
{
    let v: &Vec<Option<Vec<Option<u32>>>> = match reply {
        Some(v) => v,
        None => {
            return Err(ProviderError::Response(missing.to_owned()));
        },
    };
    let mut out: Vec<Vec<u32>> = Vec::new();
    let mut i: usize = 0;
    while i < v.len()
        invariant
            i <= v@.len(),
            *reply == Some(*v),
            out@.len() == i,
            forall|j: int|
                0 <= j < i ==> ((#[trigger] v@[j]) matches Some(x) && all_numbers(x@) == Some(
                    out@[j]@,
                )),
        decreases v@.len() - i,
    {
        match &v[i] {
            None => {
                assert(first_fault(v@, i as int));
                return Err(ProviderError::Response(not_a_list.to_owned()));
            },
            Some(x) => match read_numbers(x) {
                Some(n) => {
                    out.push(n);
                },
                None => {
                    assert(first_fault(v@, i as int));
                    return Err(ProviderError::Response("embedding contains non-number".to_owned()));
                },
            },
        }
        i += 1;
    }
    Ok(out)
}

// ---------------------------------------------------------------------------
// Bedrock
// ---------------------------------------------------------------------------

/// What the names of the models begin with that Bedrock is asked for.
pub const TITAN_TEXT_EMBEDDINGS_V2: &'static str = "amazon.titan-embed-text-v2:";

/// The synchronous boundary around Bedrock.
pub trait BedrockTransport {
    fn invoke(&self, model_id: &str, payload: &str, timeout_ms: u64) -> std::result::Result<
        String,
        ProviderError,
    >;
}

/// Bedrock can serve the profile.
pub open spec fn titan_profile(profile: IndexProfile) -> bool {
    &&& TITAN_TEXT_EMBEDDINGS_V2@.is_prefix_of(profile.model@)
    &&& profile.dimensions == 256 || profile.dimensions == 512 || profile.dimensions == 1024
}

/// What is wrong with a profile that Bedrock cannot serve.
pub open spec fn titan_fault(profile: IndexProfile) -> Seq<char> {
    if !TITAN_TEXT_EMBEDDINGS_V2@.is_prefix_of(profile.model@) {
        "Bedrock V1 supports Titan Text Embeddings V2 models only"@
    } else {
        "Titan Text Embeddings V2 dimensions must be 256, 512, or 1024"@
    }
}

/// Accepts a profile that Bedrock can serve.
pub fn validate_titan_v2(profile: &IndexProfile) -> (r: std::result::Result<(), ProviderError>)
    ensures
        r is Ok <==> titan_profile(*profile),
        r matches Err(e) ==> (e matches ProviderError::Request(m) && m@ == titan_fault(*profile)),
{
    if !starts_with(&profile.model, TITAN_TEXT_EMBEDDINGS_V2) {
        return Err(
            ProviderError::Request(
                "Bedrock V1 supports Titan Text Embeddings V2 models only".to_owned(),
            ),
        );
    }
    if profile.dimensions != 256 && profile.dimensions != 512 && profile.dimensions != 1024 {
        return Err(
            ProviderError::Request(
                "Titan Text Embeddings V2 dimensions must be 256, 512, or 1024".to_owned(),
            ),
        );
    }
    Ok(())
}

/// What Bedrock is sent for a text: JSON with its keys in order.
pub open spec fn payload_of(t: Seq<char>, dimensions: nat) -> Seq<char> {
    "{\"dimensions\":"@ + text::decimal(dimensions) + ",\"inputText\":"@ + jobs::json_string(t)
        + ",\"normalize\":false}"@
}

/// What Bedrock is sent for a text.
pub fn bedrock_payload(t: &str, dimensions: u32) -> (r: String)
    ensures
        r@ == payload_of(t@, dimensions as nat),
{
    "{\"dimensions\":".to_owned().concat(&decimal_of(dimensions as u64)).concat(
        ",\"inputText\":",
    ).concat(&quote_json(t)).concat(",\"normalize\":false}")
}

/// What a text holds that Bedrock answered.
pub enum BedrockReply {
    /// The text is not JSON.
    NotJson,
    /// It has no list of numbers for a vector.
    Missing,
    /// An item of the list is no number.
    NonNumber,
    Vector(Embedding),
}

/// What comes of a reply: its vector, if that is one of the profile.
pub open spec fn embedding_taken(
    reply: BedrockReply,
    profile: IndexProfile,
    r: std::result::Result<Embedding, ProviderError>,
) -> bool {
    match reply {
        BedrockReply::NotJson => r matches Err(ProviderError::Response(m)) && m@
            == "Bedrock response is not valid JSON"@,
        BedrockReply::Missing => r matches Err(ProviderError::Response(m)) && m@
            == "Bedrock response missing embedding"@,
        BedrockReply::NonNumber => r matches Err(ProviderError::Response(m)) && m@
            == "Bedrock embedding contains non-number"@,
        BedrockReply::Vector(v) => if profile.fits(v.bits@) && (profile.normalization
            == Normalization::L2 ==> v.unit) {
            r == Ok::<Embedding, ProviderError>(v)
        } else {
            r matches Err(ProviderError::Response(m)) && m@ == "Bedrock embedding dimensions are invalid"@
        },
    }
}

/// Takes what Bedrock answered for one text.
pub fn accept_embedding(reply: BedrockReply, profile: &IndexProfile) -> (r: std::result::Result<
    Embedding,
    ProviderError,
>)
    ensures
        embedding_taken(reply, *profile, r),
{
    match reply {
        BedrockReply::NotJson => Err(
            ProviderError::Response("Bedrock response is not valid JSON".to_owned()),
        ),
        BedrockReply::Missing => Err(
            ProviderError::Response("Bedrock response missing embedding".to_owned()),
        ),
        BedrockReply::NonNumber => Err(
            ProviderError::Response("Bedrock embedding contains non-number".to_owned()),
        ),
        BedrockReply::Vector(v) => match profile.validate_vector(&v.bits, v.unit) {
            Ok(_) => Ok(v),
            Err(_) => Err(
                ProviderError::Response("Bedrock embedding dimensions are invalid".to_owned()),
            ),
        },
    }
}

/// What embedding one text gives: the transport is handed the profile's model and
/// the text's payload, its answer is read, and the reply is taken. A failure of
/// the transport is passed on.
pub open spec fn embedded_by<T: BedrockTransport, P: Fn(String) -> BedrockReply>(
    transport: &T,
    profile: IndexProfile,
    t: Seq<char>,
    timeout_ms: u64,
    read: P,
    r: std::result::Result<Embedding, ProviderError>,
) -> bool {
    exists|model: &str, payload: &str, answer: std::result::Result<String, ProviderError>|
        {
            &&& model@ == profile.model@
            &&& payload@ == payload_of(t, profile.dimensions as nat)
            &&& #[trigger] call_ensures(T::invoke, (transport, model, payload, timeout_ms), answer)
            &&& match answer {
                Err(e) => r == Err::<Embedding, ProviderError>(e),
                Ok(a) => exists|reply: BedrockReply| #[trigger]
                    call_ensures(read, (a,), reply) && embedding_taken(reply, profile, r),
            }
        }
}

/// One text was embedded.
pub open spec fn gave_a_vector<T: BedrockTransport, P: Fn(String) -> BedrockReply>(
    transport: &T,
    profile: IndexProfile,
    t: Seq<char>,
    timeout_ms: u64,
    read: P,
) -> bool {
    exists|v: Embedding| #[trigger] embedded_by(transport, profile, t, timeout_ms, read, Ok(v))
}

/// Embeds texts one by one through Bedrock, with a function that reads an
/// answer. The first text that fails ends it.
pub fn embed_with_bedrock<T: BedrockTransport, P: Fn(String) -> BedrockReply>(
    transport: &T,
    profile: &IndexProfile,
    texts: &Vec<String>,
    timeout_ms: u64,
    read: P,
) -> (r: std::result::Result<Vec<Embedding>, ProviderError>)
    requires
        forall|s: String| #[trigger] call_requires(read, (s,)),
    ensures
        !titan_profile(*profile) ==> (r matches Err(ProviderError::Request(m)) && m@ == titan_fault(*profile)),
        titan_profile(*profile) ==> match r {
            Ok(v) => {
                &&& v@.len() == texts@.len()
                &&& forall|i: int|
                    0 <= i < v@.len() ==> embedded_by(
                        transport,
                        *profile,
                        texts@[i]@,
                        timeout_ms,
                        read,
                        Ok(#[trigger] v@[i]),
                    )
            },
            Err(e) => exists|i: int|
                {
                    &&& 0 <= i < texts@.len()
                    &&& embedded_by(transport, *profile, (#[trigger] texts@[i])@, timeout_ms, read, Err(e))
                    &&& forall|j: int|
                        0 <= j < i ==> gave_a_vector(
                            transport,
                            *profile,
                            (#[trigger] texts@[j])@,
                            timeout_ms,
                            read,
                        )
                },
        },
        r matches Ok(v) ==> forall|i: int|
            0 <= i < v@.len() ==> profile.fits((#[trigger] v@[i]).bits@) && (profile.normalization
                == Normalization::L2 ==> v@[i].unit),
{
    match validate_titan_v2(profile) {
        Ok(_) => {},
        Err(e) => {
            return Err(e);
        },
    }
    let mut out: Vec<Embedding> = Vec::new();
    let mut i: usize = 0;
    while i < texts.len()
        invariant
            i <= texts@.len(),
            titan_profile(*profile),
            out@.len() == i,
            forall|s: String| #[trigger] call_requires(read, (s,)),
            forall|j: int|
                0 <= j < i ==> embedded_by(
                    transport,
                    *profile,
                    texts@[j]@,
                    timeout_ms,
                    read,
                    Ok(#[trigger] out@[j]),
                ),
            forall|j: int|
                0 <= j < i ==> profile.fits((#[trigger] out@[j]).bits@) && (profile.normalization
                    == Normalization::L2 ==> out@[j].unit),
        decreases texts@.len() - i,
    {
        assert forall|j: int| 0 <= j < i implies gave_a_vector(
            transport,
            *profile,
            (#[trigger] texts@[j])@,
            timeout_ms,
            read,
        ) by {
            assert(embedded_by(transport, *profile, texts@[j]@, timeout_ms, read, Ok(out@[j])));
        }
        let payload: String = bedrock_payload(&texts[i], profile.dimensions);
        let model: &str = &profile.model;
        let sent: &str = &payload;
        let answer: std::result::Result<String, ProviderError> = transport.invoke(model, sent, timeout_ms);
        assert(call_ensures(T::invoke, (transport, model, sent, timeout_ms), answer));
        let text: String = match answer {
            Ok(s) => s,
            Err(e) => {
                assert(embedded_by(transport, *profile, texts@[i as int]@, timeout_ms, read, Err(e)));
                return Err(e);
            },
        };
        let reply: BedrockReply = read(text);
        let ghost taken = reply;
        assert(call_ensures(read, (text,), taken));
        let r: std::result::Result<Embedding, ProviderError> = accept_embedding(reply, profile);
        assert(embedded_by(transport, *profile, texts@[i as int]@, timeout_ms, read, r));
        match r {
            Ok(v) => {
                out.push(v);
            },
            Err(e) => {
                return Err(e);
            },
        }
        i += 1;
    }
    Ok(out)
}

// ---------------------------------------------------------------------------
// The worker
// ---------------------------------------------------------------------------

/// How long a job is claimed for.
pub const LEASE_US: i64 = 30_000_000;

/// How long a job waits after a failure.
pub const RETRY_US: i64 = 1_000_000;

#[derive(Clone, Copy, Debug, PartialEq, Eq, Structural)]
pub struct RunReport {
    pub claimed: usize,
    pub committed: usize,
    pub retried: usize,
}

impl Default for RunReport {
    fn default() -> (r: Self)
        ensures
            r == (RunReport { claimed: 0, committed: 0, retried: 0 }),
    {
        RunReport { claimed: 0, committed: 0, retried: 0 }
    }
}

pub struct IndexerWorker<P> {
    pub database: String,
    pub provider: P,
    pub timeout_ms: u64,
    pub lease_us: i64,
}

/// The document of a live entity at the revision; nothing where the entity is
/// not live or has another revision.
pub open spec fn document_of(
    g: GraphModel,
    revisions: Seq<EntityRevision>,
    entity_id: int,
    expected: int,
) -> Option<DocumentData> {
    match rebuild::first_where(g.entities, |e: EntityModel| e.id == entity_id && e.flags == 0) {
        None => None,
        Some(e) => match rebuild::first_where(g.types, |t: TypeModel| t.id == e.type_id) {
            None => None,
            Some(t) => match rebuild::first_where(
                revisions,
                |r: EntityRevision| r.entity_id == entity_id,
            ) {
                Some(r) => if r.revision == expected {
                    Some(
                        DocumentData {
                            entity_id,
                            revision: expected,
                            name: e.name,
                            entity_type: t.name,
                            observations: e.observations,
                        },
                    )
                } else {
                    None
                },
                None => None,
            },
        },
    }
}

/// The document of an entity, as it is embedded.
pub fn canonical_document(
    g: &Graph,
    revisions: &Vec<EntityRevision>,
    entity_id: i64,
    expected_revision: i64,
) -> (r: Option<CanonicalDocument>)
    ensures
        match r {
            Some(d) => document_of(g@, revisions@, entity_id as int, expected_revision as int) == Some(d@),
            None => document_of(g@, revisions@, entity_id as int, expected_revision as int) is None,
        },
{
    let ghost p = |e: EntityModel| e.id == entity_id as int && e.flags == 0;
    let mut i: usize = 0;
    while i < g.entities.len() && !(g.entities[i].id == entity_id && g.entities[i].flags == 0)
        invariant
            i <= g.entities@.len(),
            p == (|e: EntityModel| e.id == entity_id as int && e.flags == 0),
            forall|j: int| 0 <= j < i ==> !p(#[trigger] g@.entities[j]),
        decreases g.entities@.len() - i,
    {
        assert(g@.entities[i as int] == g.entities@[i as int]@);
        i += 1;
    }
    if i == g.entities.len() {
        assert(forall|j: int| !rebuild::is_first(g@.entities, p, j));
        return None;
    }
    assert(g@.entities[i as int] == g.entities@[i as int]@);
    proof {
        rebuild::lemma_first(g@.entities, p, i as int);
    }
    let type_id: i64 = g.entities[i].type_id;
    let ghost q = |t: TypeModel| t.id == type_id as int;
    let mut k: usize = 0;
    while k < g.types.len() && g.types[k].id != type_id
        invariant
            k <= g.types@.len(),
            q == (|t: TypeModel| t.id == type_id as int),
            forall|j: int| 0 <= j < k ==> !q(#[trigger] g@.types[j]),
        decreases g.types@.len() - k,
    {
        assert(g@.types[k as int] == g.types@[k as int]@);
        k += 1;
    }
    if k == g.types.len() {
        assert(forall|j: int| !rebuild::is_first(g@.types, q, j));
        return None;
    }
    assert(g@.types[k as int] == g.types@[k as int]@);
    proof {
        rebuild::lemma_first(g@.types, q, k as int);
    }
    match find_revision(revisions, entity_id) {
        Some(r) => if r.revision == expected_revision {
            let d: CanonicalDocument = CanonicalDocument {
                entity_id,
                revision: expected_revision,
                name: g.entities[i].name.clone(),
                entity_type: g.types[k].name.clone(),
                observations: copy_texts(&g.entities[i].observations),
            };
            Some(d)
        } else {
            None
        },
        None => None,
    }
}

/// What the worker does next.
pub enum Round {
    /// No job is due.
    Idle,
    /// Another worker has taken the job.
    Lost(IndexJob),
    /// The entity is gone, and its vector is to be removed.
    Remove(IndexJob),
    /// The entity has changed since.
    Skip(IndexJob),
    /// The document is to be embedded.
    Embed { job: IndexJob, document: CanonicalDocument },
}

/// The job that a claim of the row makes.
pub open spec fn job_of(row: index::JobRow, token: u128, until: int) -> IndexJob {
    IndexJob {
        entity_id: row.entity_id,
        entity_revision: row.entity_revision,
        profile_id: row.profile_id,
        operation: row.operation,
        lease: index::Lease {
            token,
            epoch: (row.lease_epoch + 1) as i64,
            until_us: until as i64,
        },
        attempts: (row.attempts + 1) as i64,
    }
}

/// The profile is stored.
pub open spec fn profile_known(store: IndexStore, id: u128) -> bool {
    rebuild::first_where(store.profiles@, |p: index::ProfileRow| p.profile.id == id) is Some
}

/// What a claimed job asks for.
pub open spec fn asks_for(
    round: Round,
    job: IndexJob,
    g: GraphModel,
    revisions: Seq<EntityRevision>,
) -> bool {
    match job.operation {
        IndexOperation::Delete => round == Round::Remove(job),
        IndexOperation::Upsert => match document_of(
            g,
            revisions,
            job.entity_id as int,
            job.entity_revision as int,
        ) {
            Some(d) => round matches Round::Embed { job: j, document } && j == job && document@ == d,
            None => round == Round::Skip(job),
        },
    }
}

/// How the first half of a round ends for the job that was claimed at `i`.
pub open spec fn begun(
    before: IndexStore,
    after: IndexStore,
    g: GraphModel,
    i: int,
    token: u128,
    until: int,
    fresh: int,
    lease_us: int,
    r: Result<Round>,
) -> bool {
    let job = job_of(before.jobs@[i], token, until);
    let jobs = before.jobs@.update(i, index::claimed(before.jobs@[i], token, until));
    if !profile_known(before, job.profile_id) {
        after.jobs@ == jobs && (r matches Err(MCSError::MemoryError(m)) && m@ == "unknown profile"@)
    } else {
        match index::lease_end(fresh, lease_us) {
            None => after.jobs@ == jobs && (r matches Err(MCSError::InvalidParams(m)) && m@
                == "invalid lease duration"@),
            Some(longer) => {
                &&& after.jobs@ == index::renewed_jobs(jobs, job, fresh, longer)
                &&& r matches Ok(round)
                &&& if index::held(jobs, job, fresh) {
                    asks_for(round, job, g, before.revisions@)
                } else {
                    round == Round::Lost(job)
                }
            },
        }
    }
}

/// What a round under a token begins with: the job that is due next, with what
/// it asks for; nothing to do where none is due; an error where the lease would
/// have no end.
pub open spec fn round_begun(
    before: IndexStore,
    after: IndexStore,
    g: GraphModel,
    now: int,
    fresh: int,
    lease_us: int,
    token: u128,
    r: Result<Round>,
) -> bool {
    match index::lease_end(now, lease_us) {
        None => after.jobs@ == before.jobs@ && (r matches Err(MCSError::InvalidParams(m)) && m@
            == "invalid lease duration"@),
        Some(until) => {
            ||| r == Ok::<Round, MCSError>(Round::Idle) && after.jobs@ == before.jobs@ && forall|j: int|
                0 <= j < before.jobs@.len() ==> !index::due(#[trigger] before.jobs@[j], now, before.state)
            ||| exists|i: int|
                #[trigger] index::claimable(before.jobs@, now, before.state, i) && begun(
                    before,
                    after,
                    g,
                    i,
                    token,
                    until,
                    fresh,
                    lease_us,
                    r,
                )
        },
    }
}

/// What is said of a completion that is refused with an error.
pub open spec fn refusal_text(verdict: rebuild::Verdict) -> Seq<char> {
    match verdict {
        rebuild::Verdict::UnknownProfile => "Memory error: "@ + "unknown profile"@,
        rebuild::Verdict::Mismatch => "Invalid params: "@ + "vector payload does not match job operation"@,
        rebuild::Verdict::Misshapen => "Invalid params: "@
            + "vector dimensions or finite-value validation failed"@,
        _ => "Invalid params: "@ + "vector is not L2 normalized"@,
    }
}

impl<P> IndexerWorker<P> {
    pub fn new(database: String, provider: P, timeout_ms: u64) -> (r: Self)
        ensures
            r.database == database,
            r.provider == provider,
            r.timeout_ms == timeout_ms,
            r.lease_us == LEASE_US,
    {
        IndexerWorker { database, provider, timeout_ms, lease_us: LEASE_US }
    }

    /// The worker with another length of its leases.
    pub fn with_lease_us(self, lease_us: i64) -> (r: Self)
        ensures
            r.lease_us == lease_us,
            r.database == self.database,
            r.provider == self.provider,
            r.timeout_ms == self.timeout_ms,
    {
        IndexerWorker {
            database: self.database,
            provider: self.provider,
            timeout_ms: self.timeout_ms,
            lease_us,
        }
    }

    /// The first half of a round: claims the job that is due first, under the
    /// given token, renews the lease at the time `fresh`, and tells what the
    /// job asks for.
    pub fn begin_round_as(
        &self,
        store: &mut IndexStore,
        g: &Graph,
        now: i64,
        fresh: i64,
        token: u128,
    ) -> (r: Result<Round>)
        requires
            old(store).within_limits(),
        ensures
            final(store).same_but_jobs(*old(store)),
            round_begun(
                *old(store),
                *final(store),
                g@,
                now as int,
                fresh as int,
                self.lease_us as int,
                token,
                r,
            ),
    {
        let ghost before = *store;
        let claim: Result<Option<IndexJob>> = store.claim_due_as(now, self.lease_us, token);
        let job: IndexJob = match claim {
            Err(e) => {
                return Err(e);
            },
            Ok(None) => {
                return Ok(Round::Idle);
            },
            Ok(Some(job)) => job,
        };
        let ghost until = index::lease_end(now as int, self.lease_us as int)->0;
        let ghost jobs = store.jobs@;
        let ghost i = choose|i: int|
            {
                let row = before.jobs@[i];
                &&& #[trigger] index::claimable(before.jobs@, now as int, before.state, i)
                &&& jobs == before.jobs@.update(i, index::claimed(row, token, until))
                &&& job.entity_id == row.entity_id
                &&& job.entity_revision == row.entity_revision
                &&& job.profile_id == row.profile_id
                &&& job.operation == row.operation
                &&& job.lease == (index::Lease {
                    token,
                    epoch: (row.lease_epoch + 1) as i64,
                    until_us: until as i64,
                })
                &&& job.attempts == row.attempts + 1
            };
        assert(job == job_of(before.jobs@[i], token, until));
        assert(index::claimable(before.jobs@, now as int, before.state, i));
        if store.profile(job.profile_id).is_none() {
            let r: Result<Round> = Err(memory("unknown profile"));
            assert(begun(before, *store, g@, i, token, until, fresh as int, self.lease_us as int, r));
            return r;
        }
        match store.renew(&job, fresh, self.lease_us) {
            Err(e) => {
                let r: Result<Round> = Err(e);
                assert(begun(before, *store, g@, i, token, until, fresh as int, self.lease_us as int, r));
                return r;
            },
            Ok(false) => {
                let r: Result<Round> = Ok(Round::Lost(job));
                assert(begun(before, *store, g@, i, token, until, fresh as int, self.lease_us as int, r));
                return r;
            },
            Ok(true) => {},
        }
        let r: Result<Round> = match job.operation {
            IndexOperation::Delete => Ok(Round::Remove(job)),
            IndexOperation::Upsert => match canonical_document(
                g,
                &store.revisions,
                job.entity_id,
                job.entity_revision,
            ) {
                Some(document) => Ok(Round::Embed { job, document }),
                None => Ok(Round::Skip(job)),
            },
        };
        assert(begun(before, *store, g@, i, token, until, fresh as int, self.lease_us as int, r));
        r
    }

    /// The first half of a round, under a random token.
    pub fn begin_round(&self, store: &mut IndexStore, g: &Graph, now: i64, fresh: i64) -> (r: Result<
        Round,
    >)
        requires
            old(store).within_limits(),
        ensures
            final(store).same_but_jobs(*old(store)),
            exists|token: u128|
                crate::ids::is_random_uuid(token) && #[trigger] round_begun(
                    *old(store),
                    *final(store),
                    g@,
                    now as int,
                    fresh as int,
                    self.lease_us as int,
                    token,
                    r,
                ),
    {
        self.begin_round_as(store, g, now, fresh, crate::ids::random_uuid())
    }

    /// Stores what was embedded for the job, once the lease was renewed at the
    /// time `before_commit`. The answer tells whether the job is done; the
    /// words of an error are kept with the job.
    pub fn complete(
        &self,
        store: &mut IndexStore,
        job: &IndexJob,
        embedded: std::result::Result<Vec<Embedding>, ProviderError>,
        before_commit: i64,
        commit_now: i64,
    ) -> (r: std::result::Result<bool, String>)
        requires
            old(store).within_limits(),
        ensures
            final(store).state == old(store).state,
            final(store).profiles@ == old(store).profiles@,
            final(store).revisions@ == old(store).revisions@,
            final(store).live@ == old(store).live@,
            match embedded {
                Err(e) => *final(store) == *old(store) && (r matches Err(why) && why@ == e.says()),
                Ok(vectors) => if vectors@.len() != 1 {
                    *final(store) == *old(store) && (r matches Err(why) && why@
                        == "provider returned wrong embedding count"@)
                } else {
                    match index::lease_end(before_commit as int, self.lease_us as int) {
                        None => final(store).jobs@ == old(store).jobs@ && final(store).vectors@ == old(
                            store,
                        ).vectors@ && final(store).generations@ == old(store).generations@ && (
                        r matches Err(why) && why@ == "Invalid params: "@ + "invalid lease duration"@),
                        Some(until) => if !index::held(old(store).jobs@, *job, before_commit as int) {
                            r == Ok::<bool, String>(false) && final(store).jobs@ == old(store).jobs@
                                && final(store).vectors@ == old(store).vectors@
                                && final(store).generations@ == old(store).generations@
                        } else {
                            exists|middle: IndexStore|
                                {
                                    &&& #[trigger] middle.same_but_jobs(*old(store))
                                    &&& middle.jobs@ == index::renewed_jobs(
                                        old(store).jobs@,
                                        *job,
                                        before_commit as int,
                                        until,
                                    )
                                    &&& match rebuild::verdict_on(
                                        middle,
                                        *job,
                                        commit_now as int,
                                        Some(vectors@[0].bits@),
                                        vectors@[0].unit,
                                    ) {
                                        rebuild::Verdict::Repeated => r == Ok::<bool, String>(true)
                                            && *final(store) == middle,
                                        rebuild::Verdict::Stale => r == Ok::<bool, String>(false)
                                            && *final(store) == middle,
                                        rebuild::Verdict::Accepted => {
                                            &&& r == Ok::<bool, String>(true)
                                            &&& rebuild::vectors_data(final(store).vectors@)
                                                == rebuild::completed_vectors(
                                                rebuild::vectors_data(old(store).vectors@),
                                                *job,
                                                commit_now,
                                                Some(vectors@[0].bits@),
                                                "indexer"@,
                                            )
                                            &&& final(store).jobs@ == rebuild::done_jobs(
                                                middle.jobs@,
                                                job.entity_id,
                                                job.profile_id,
                                            )
                                            &&& final(store).generations@ == rebuild::advanced(
                                                old(store).generations@,
                                                job.profile_id,
                                            )
                                        },
                                        v => *final(store) == middle && (r matches Err(why) && why@
                                            == refusal_text(v)),
                                    }
                                }
                        },
                    }
                },
            },
    {
        let vectors: Vec<Embedding> = match embedded {
            Ok(v) => v,
            Err(e) => {
                return Err(e.message());
            },
        };
        if vectors.len() != 1 {
            return Err("provider returned wrong embedding count".to_owned());
        }
        let ghost start = *store;
        match store.renew(job, before_commit, self.lease_us) {
            Err(e) => {
                return Err(e.message());
            },
            Ok(false) => {
                assert(store.jobs@ =~= start.jobs@);
                return Ok(false);
            },
            Ok(true) => {},
        }
        let ghost middle = *store;
        assert(middle.same_but_jobs(start));
        assert(middle.within_limits()) by {
            assert forall|i: int| 0 <= i < middle.jobs@.len() implies (
            #[trigger] middle.jobs@[i]).lease_epoch < i64::MAX && middle.jobs@[i].attempts < i64::MAX by {
                assert(start.jobs@[i].lease_epoch < i64::MAX);
            }
        }
        match store.commit_vector(job, commit_now, Some(&vectors[0].bits), vectors[0].unit, "indexer") {
            Ok(done) => Ok(done),
            Err(e) => Err(e.message()),
        }
    }

    /// Removes the vector of an entity that is gone.
    pub fn remove(&self, store: &mut IndexStore, job: &IndexJob, commit_now: i64) -> (r: std::result::Result<
        bool,
        String,
    >)
        requires
            old(store).within_limits(),
        ensures
            final(store).state == old(store).state,
            final(store).profiles@ == old(store).profiles@,
            final(store).revisions@ == old(store).revisions@,
            final(store).live@ == old(store).live@,
            match rebuild::verdict_on(*old(store), *job, commit_now as int, None, false) {
                rebuild::Verdict::Repeated => r == Ok::<bool, String>(true) && *final(store) == *old(
                    store,
                ),
                rebuild::Verdict::Stale => r == Ok::<bool, String>(false) && *final(store) == *old(store),
                rebuild::Verdict::Accepted => {
                    &&& r == Ok::<bool, String>(true)
                    &&& rebuild::vectors_data(final(store).vectors@) == rebuild::dropped(
                        rebuild::vectors_data(old(store).vectors@),
                        job.profile_id,
                        job.entity_id,
                    )
                    &&& final(store).jobs@ == rebuild::done_jobs(
                        old(store).jobs@,
                        job.entity_id,
                        job.profile_id,
                    )
                    &&& final(store).generations@ == rebuild::advanced(
                        old(store).generations@,
                        job.profile_id,
                    )
                },
                v => *final(store) == *old(store) && (r matches Err(why) && why@ == refusal_text(v)),
            },
    {
        match store.commit_vector(job, commit_now, None, false, "indexer") {
            Ok(done) => Ok(done),
            Err(e) => Err(e.message()),
        }
    }

    /// The end of a round: what is reported, and, after an error, the job's
    /// return for another attempt a second later.
    pub fn settle(
        &self,
        store: &mut IndexStore,
        job: &IndexJob,
        outcome: std::result::Result<bool, String>,
        retry_now: i64,
    ) -> (r: RunReport)
        ensures
            final(store).same_but_jobs(*old(store)),
            r.claimed == 1,
            match outcome {
                Ok(done) => final(store).jobs@ == old(store).jobs@ && r.committed == (if done {
                    1int
                } else {
                    0
                }) && r.retried == 0,
                Err(why) => {
                    let at: i64 = if retry_now + RETRY_US > i64::MAX {
                        i64::MAX
                    } else {
                        (retry_now + RETRY_US) as i64
                    };
                    &&& r.committed == 0
                    &&& r.retried == (if index::held(old(store).jobs@, *job, retry_now as int) {
                        1int
                    } else {
                        0
                    })
                    &&& final(store).jobs@.len() == old(store).jobs@.len()
                    &&& forall|i: int|
                        0 <= i < old(store).jobs@.len() ==> index::given_back(
                            old(store).jobs@[i],
                            #[trigger] final(store).jobs@[i],
                            *job,
                            retry_now as int,
                            at,
                            why@,
                            false,
                        )
                },
            },
    {
        match outcome {
            Ok(done) => RunReport {
                claimed: 1,
                committed: if done {
                    1
                } else {
                    0
                },
                retried: 0,
            },
            Err(why) => {
                let at: i64 = if retry_now > i64::MAX - RETRY_US {
                    i64::MAX
                } else {
                    retry_now + RETRY_US
                };
                let again: bool = store.retry(job, retry_now, at, &why, false);
                RunReport {
                    claimed: 1,
                    committed: 0,
                    retried: if again {
                        1
                    } else {
                        0
                    },
                }
            },
        }
    }
}

/// A document says everything of its entity: its name first, its type next, and
/// then every observation, in their order.
pub proof fn law_a_document_says_everything(d: DocumentData, k: int)
    ensures
        d.lines().len() == d.observations.len() + 2,
        d.lines()[0] == d.name,
        d.lines()[1] == d.entity_type,
        0 <= k < d.observations.len() ==> d.lines()[k + 2] == d.observations[k],
{
}

/// A live entity at the revision has its document, wherever it, its type and its
/// revision stand: with its name, the name of its type and all its observations.
pub proof fn law_a_live_entity_has_its_document(
    g: GraphModel,
    revisions: Seq<EntityRevision>,
    e: int,
    t: int,
    r: int,
)
    requires
        0 <= e < g.entities.len(),
        0 <= t < g.types.len(),
        0 <= r < revisions.len(),
        g.entities[e].flags == 0,
        g.types[t].id == g.entities[e].type_id,
        revisions[r].entity_id == g.entities[e].id,
        forall|j: int| 0 <= j < g.entities.len() && (#[trigger] g.entities[j]).id == g.entities[e].id
            && g.entities[j].flags == 0 ==> j == e,
        forall|j: int| 0 <= j < g.types.len() && (#[trigger] g.types[j]).id == g.types[t].id ==> j == t,
        forall|j: int|
            0 <= j < revisions.len() && (#[trigger] revisions[j]).entity_id == revisions[r].entity_id ==> j == r,
    ensures
        document_of(g, revisions, g.entities[e].id as int, revisions[r].revision as int) == Some(
            DocumentData {
                entity_id: g.entities[e].id as int,
                revision: revisions[r].revision as int,
                name: g.entities[e].name,
                entity_type: g.types[t].name,
                observations: g.entities[e].observations,
            },
        ),
        forall|other: int|
            other != revisions[r].revision ==> #[trigger] document_of(
                g,
                revisions,
                g.entities[e].id as int,
                other,
            ) is None,
{
    let id = g.entities[e].id as int;
    let type_id = g.entities[e].type_id;
    let live = |x: EntityModel| x.id == id && x.flags == 0;
    let typed = |x: TypeModel| x.id == type_id;
    let revised = |x: EntityRevision| x.entity_id == id;
    rebuild::law_the_first_of_its_kind_is_found(g.entities, live, e);
    rebuild::law_the_first_of_its_kind_is_found(g.types, typed, t);
    rebuild::law_the_first_of_its_kind_is_found(revisions, revised, r);
    assert(rebuild::first_where(g.entities, live) == Some(g.entities[e]));
    assert(rebuild::first_where(g.types, typed) == Some(g.types[t]));
    assert(rebuild::first_where(revisions, revised) == Some(revisions[r]));
}

/// An entity that is not live has no document, whatever its revision.
pub proof fn law_a_dead_entity_has_no_document(
    g: GraphModel,
    revisions: Seq<EntityRevision>,
    entity_id: int,
    expected: int,
)
    requires
        forall|j: int| 0 <= j < g.entities.len() ==> !((#[trigger] g.entities[j]).id == entity_id
            && g.entities[j].flags == 0),
    ensures
        document_of(g, revisions, entity_id, expected) is None,
{
    let live = |x: EntityModel| x.id == entity_id && x.flags == 0;
    rebuild::law_the_first_of_its_kind_is_found(g.entities, live, 0);
}

/// Each provider is known by its names, and no name stands for two.
pub proof fn law_each_provider_has_its_names(kind: Seq<char>, registry: ProviderRegistry)
    ensures
        kind_named(kind) == Some(ProviderKind::Ollama) <==> kind == "ollama"@,
        kind_named(kind) == Some(ProviderKind::OpenAi) <==> kind == "openai"@ || kind == "openai-compatible"@,
        kind_named(kind) == Some(ProviderKind::Bedrock) <==> kind == "bedrock"@,
        registry.offers(ProviderKind::Ollama) <==> registry.ollama is Some,
        registry.offers(ProviderKind::OpenAi) <==> registry.openai is Some,
        registry.offers(ProviderKind::Bedrock) <==> registry.bedrock,
{
    reveal_strlit("ollama");
    reveal_strlit("openai");
    reveal_strlit("openai-compatible");
    reveal_strlit("bedrock");
    assert("ollama"@.len() == 6 && "openai"@.len() == 6 && "openai-compatible"@.len() == 17 && "bedrock"@.len()
        == 7);
    assert("ollama"@[1] == 'l' && "openai"@[1] == 'p');
}

/// A list of numbers is read number by number, and one item that is none spoils
/// it, wherever it stands.
pub proof fn law_every_number_is_read(v: Seq<Option<u32>>, k: int)
    ensures
        all_numbers(v) matches Some(n) ==> n.len() == v.len() && (0 <= k < v.len() ==> v[k] == Some(n[k])),
        0 <= k < v.len() && v[k] is None ==> all_numbers(v) is None,
        (forall|i: int| 0 <= i < v.len() ==> (#[trigger] v[i]) is Some) ==> all_numbers(v) is Some,
{
}

/// Whatever is wrong in an answer, something is the first that is.
pub proof fn law_some_fault_is_the_first(v: Seq<Option<Vec<Option<u32>>>>, k: int)
    requires
        0 <= k < v.len(),
        v[k] is None || all_numbers(v[k]->0@) is None,
    ensures
        exists|i: int| 0 <= i <= k && #[trigger] first_fault(v, i),
    decreases k,
{
    if exists|j: int| 0 <= j < k && !((#[trigger] v[j]) matches Some(x) && all_numbers(x@) is Some) {
        let j = choose|j: int| 0 <= j < k && !((#[trigger] v[j]) matches Some(x) && all_numbers(x@) is Some);
        law_some_fault_is_the_first(v, j);
    } else {
        assert(first_fault(v, k));
    }
}

/// The models of one family are served, in each of their three sizes.
pub proof fn law_three_sizes_are_served(profile: IndexProfile, version: Seq<char>)
    requires
        profile.model@ == "amazon.titan-embed-text-v2:"@ + version,
    ensures
        titan_profile(profile) <==> profile.dimensions == 256 || profile.dimensions == 512 || profile.dimensions
            == 1024,
{
    assert(TITAN_TEXT_EMBEDDINGS_V2@ == "amazon.titan-embed-text-v2:"@);
    assert("amazon.titan-embed-text-v2:"@.is_prefix_of(profile.model@));
}

/// A vector that fits its profile is taken as it is, and one that does not is
/// refused.
pub proof fn law_a_fitting_vector_is_taken(
    v: Embedding,
    profile: IndexProfile,
    r: std::result::Result<Embedding, ProviderError>,
)
    requires
        embedding_taken(BedrockReply::Vector(v), profile, r),
    ensures
        profile.fits(v.bits@) && (v.unit || profile.normalization != Normalization::L2) ==> r == Ok::<
            Embedding,
            ProviderError,
        >(v),
        !profile.fits(v.bits@) || (!v.unit && profile.normalization == Normalization::L2) ==> r is Err,
{
}

/// Where a job is due, a round does not stay idle, and it changes one job at
/// most.
pub proof fn law_a_due_job_starts_a_round(
    before: IndexStore,
    after: IndexStore,
    g: GraphModel,
    now: int,
    fresh: int,
    lease_us: int,
    token: u128,
    r: Result<Round>,
    k: int,
)
    requires
        round_begun(before, after, g, now, fresh, lease_us, token, r),
        lease_us > 0,
        now + lease_us <= i64::MAX,
        0 <= k < before.jobs@.len(),
        index::due(before.jobs@[k], now, before.state),
    ensures
        r != Ok::<Round, MCSError>(Round::Idle),
        after.jobs@.len() == before.jobs@.len(),
{
    let until = now + lease_us;
    assert(index::lease_end(now, lease_us) == Some(until));
    let i = choose|i: int|
        #[trigger] index::claimable(before.jobs@, now, before.state, i) && begun(
            before,
            after,
            g,
            i,
            token,
            until,
            fresh,
            lease_us,
            r,
        );
    assert(begun(before, after, g, i, token, until, fresh, lease_us, r));
    let job = job_of(before.jobs@[i], token, until);
    assert(index::lease_end(fresh, lease_us) is Some ==> r != Ok::<Round, MCSError>(Round::Idle));
}

/// Whoever claims a job holds it until the lease ends, and the job is that of the
/// row: its entity, its revision, its profile and what is to be done.
pub proof fn law_a_claimed_job_is_held(jobs: Seq<index::JobRow>, i: int, token: u128, until: int, now: int)
    requires
        0 <= i < jobs.len(),
        now < until <= i64::MAX,
        0 <= until,
        0 <= jobs[i].lease_epoch < i64::MAX,
        0 <= jobs[i].attempts < i64::MAX,
    ensures
        ({
            let job = job_of(jobs[i], token, until);
            &&& index::held(jobs.update(i, index::claimed(jobs[i], token, until)), job, now)
            &&& job.entity_id == jobs[i].entity_id && job.profile_id == jobs[i].profile_id
            &&& job.entity_revision == jobs[i].entity_revision && job.operation == jobs[i].operation
            &&& job.lease.token == token && job.lease.until_us == until
            &&& job.attempts == jobs[i].attempts + 1
        }),
{
    let job = job_of(jobs[i], token, until);
    let after = jobs.update(i, index::claimed(jobs[i], token, until));
    assert(index::holds(after[i], job, now));
}

/// A job to store is asked to embed the document of its entity at its revision,
/// and to skip where there is none any more; a job to delete is asked to remove.
pub proof fn law_a_job_asks_for_its_own_document(
    round: Round,
    job: IndexJob,
    g: GraphModel,
    revisions: Seq<EntityRevision>,
)
    requires
        asks_for(round, job, g, revisions),
    ensures
        job.operation == IndexOperation::Delete ==> round == Round::Remove(job),
        job.operation == IndexOperation::Upsert && document_of(
            g,
            revisions,
            job.entity_id as int,
            job.entity_revision as int,
        ) is Some ==> (round matches Round::Embed { job: j, document } && j == job && Some(document@) == document_of(
            g,
            revisions,
            job.entity_id as int,
            job.entity_revision as int,
        )),
        job.operation == IndexOperation::Upsert && document_of(
            g,
            revisions,
            job.entity_id as int,
            job.entity_revision as int,
        ) is None ==> round == Round::Skip(job),
{
}

/// The first source that has a value gives it, and an empty value is none.
pub proof fn law_the_first_source_gives_the_value(a: Option<String>, b: Option<String>)
    ensures
        a is Some ==> either(a, b) == a,
        a is None ==> either(a, b) == b,
        (a matches Some(v) && v@.len() > 0) ==> unless_empty(a) == a,
        (a matches Some(v) ==> v@.len() == 0) ==> unless_empty(a) is None,
{
}

/// What is sent for a text holds the text and the size of the vector that is asked
/// for.
pub proof fn law_a_payload_holds_its_text(t: Seq<char>, dimensions: nat)
    ensures
        jobs::stands_in(jobs::json_string(t), payload_of(t, dimensions)),
        jobs::stands_in(text::decimal(dimensions), payload_of(t, dimensions)),
{
    let whole = payload_of(t, dimensions);
    let (h, d, m, j, e) = (
        "{\"dimensions\":"@,
        text::decimal(dimensions),
        ",\"inputText\":"@,
        jobs::json_string(t),
        ",\"normalize\":false}"@,
    );
    let (i, k) = (h.len() as int, (h + d + m).len() as int);
    assert(whole.subrange(i, i + d.len()) =~= d);
    assert(whole.subrange(k, k + j.len()) =~= j);
}

/// An endpoint is plain exactly where it names neither a user nor a password.
pub proof fn law_a_plain_endpoint_names_nobody(s: Seq<char>, user: Seq<char>, password: Option<Seq<char>>)
    requires
        url_credentials(s) == Some((user, password)),
    ensures
        plain_endpoint(s) <==> user.len() == 0 && password is None,
{
}

/// Nothing of a document goes unseen.
pub proof fn law_nothing_goes_unseen(a: CanonicalDocument)
    ensures
        a@.entity_id == a.entity_id,
        a@.revision == a.revision,
        a@.name == a.name@,
        a@.entity_type == a.entity_type@,
        a@.observations == text::texts(a.observations@),
{
}

} // verus!
