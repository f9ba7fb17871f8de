//! The settings of the command line.
use vstd::prelude::*;

use crate::roles::Transport;
use crate::text;
use crate::text::same_ignoring_case;
use crate::tools::ToolCategory;

verus! {

/// The index behind a search for similar vectors.
#[derive(Clone, Copy, Debug, PartialEq, Eq, Structural)]
pub enum VecIndex {
    Hnsw,
    Ivf,
    Turbo,
}

/// How the distance of two vectors is measured.
#[derive(Clone, Copy, Debug, PartialEq, Eq, Structural)]
pub enum VecMetric {
    Cos,
    Ip,
    L2sq,
}

/// How the components of a vector are stored.
#[derive(Clone, Copy, Debug, PartialEq, Eq, Structural)]
pub enum VecQuant {
    F32,
    F16,
    Bf16,
    I8,
}

/// What the command line and the configuration file can set.
#[derive(Debug)]
pub struct Args {
    pub config: Option<String>,
    pub memory_file: Option<String>,
    pub transport: Transport,
    pub bind: String,
    pub log_level: String,
    pub roles: Vec<String>,
    pub legacy_observations: bool,
    pub stdio_concurrency: usize,
    pub read_pool_size: usize,
    pub durability: Option<String>,
    pub mmap_size: i64,
    pub page_size: i64,
    pub cache_size_mb: i64,
    pub busy_timeout_ms: u64,
    pub wal_flush_ms: u64,
    pub lru_cache_size: usize,
    pub enable_all: bool,
    pub enable_graph_read: bool,
    pub enable_graph_write: bool,
    pub enable_vectors: bool,
    pub enable_code: bool,
    pub embedding_dims: u32,
    pub code_embedding_dims: u32,
    pub vec_index: VecIndex,
    pub vec_metric: VecMetric,
    pub vec_quantization: VecQuant,
    pub vec_connectivity: usize,
    pub vec_expansion_add: usize,
    pub vec_expansion_search: usize,
    pub ivf_nlist: usize,
    pub ivf_nprobe: usize,
    pub tq_bits: u32,
    pub auth_token: Option<String>,
    pub auth_token_file: Option<String>,
    pub static_bearer_scopes: Vec<String>,
    pub tls_cert: Option<String>,
    pub tls_key: Option<String>,
    pub public_url: Option<String>,
    pub oidc_issuer: Option<String>,
    pub oidc_client_id: Option<String>,
    pub oidc_client_secret_file: Option<String>,
    pub principals_file: Option<String>,
    pub cimd_allowed_domains: Vec<String>,
    pub oauth_trust_forwarded_proto: bool,
}

impl Default for Args {
    /// The settings of an empty command line.
    fn default() -> (r: Self)
        ensures
            r.config is None && r.memory_file is None && r.durability is None && r.auth_token is None,
            r.auth_token_file is None && r.tls_cert is None && r.tls_key is None && r.public_url is None,
            r.oidc_issuer is None && r.oidc_client_id is None && r.oidc_client_secret_file is None,
            r.principals_file is None && r.roles@.len() == 0 && r.static_bearer_scopes@.len() == 0,
            r.cimd_allowed_domains@.len() == 0,
            r.transport == Transport::Stdio && r.bind@ == "127.0.0.1:8080"@ && r.log_level@ == "info"@,
            !r.legacy_observations && !r.oauth_trust_forwarded_proto,
            r.stdio_concurrency == 8 && r.read_pool_size == 0,
            r.mmap_size == 268_435_456 && r.page_size == 4096 && r.cache_size_mb == 50,
            r.busy_timeout_ms == 5000 && r.wal_flush_ms == 250 && r.lru_cache_size == 10_000,
            !r.enable_all && !r.enable_graph_read && !r.enable_graph_write && !r.enable_vectors
                && !r.enable_code,
            r.embedding_dims == 384 && r.code_embedding_dims == 768,
            r.vec_index == VecIndex::Hnsw && r.vec_metric == VecMetric::Cos && r.vec_quantization
                == VecQuant::F32,
            r.vec_connectivity == 16 && r.vec_expansion_add == 200 && r.vec_expansion_search == 50,
            r.ivf_nlist == 256 && r.ivf_nprobe == 8 && r.tq_bits == 4,
    {
        Args {
            config: None,
            memory_file: None,
            transport: Transport::Stdio,
            bind: "127.0.0.1:8080".to_owned(),
            log_level: "info".to_owned(),
            roles: Vec::new(),
            legacy_observations: false,
            stdio_concurrency: 8,
            read_pool_size: 0,
            durability: None,
            mmap_size: 268_435_456,
            page_size: 4096,
            cache_size_mb: 50,
            busy_timeout_ms: 5000,
            wal_flush_ms: 250,
            lru_cache_size: 10_000,
            enable_all: false,
            enable_graph_read: false,
            enable_graph_write: false,
            enable_vectors: false,
            enable_code: false,
            embedding_dims: 384,
            code_embedding_dims: 768,
            vec_index: VecIndex::Hnsw,
            vec_metric: VecMetric::Cos,
            vec_quantization: VecQuant::F32,
            vec_connectivity: 16,
            vec_expansion_add: 200,
            vec_expansion_search: 50,
            ivf_nlist: 256,
            ivf_nprobe: 8,
            tq_bits: 4,
            auth_token: None,
            auth_token_file: None,
            static_bearer_scopes: Vec::new(),
            tls_cert: None,
            tls_key: None,
            public_url: None,
            oidc_issuer: None,
            oidc_client_id: None,
            oidc_client_secret_file: None,
            principals_file: None,
            cimd_allowed_domains: Vec::new(),
            oauth_trust_forwarded_proto: false,
        }
    }
}

/// The list with the category, where it is wanted.
pub open spec fn with_category(v: Seq<ToolCategory>, c: ToolCategory, wanted: bool) -> Seq<ToolCategory> {
    if wanted {
        v.push(c)
    } else {
        v
    }
}

impl Args {
    /// The categories that the flags enable, in their order.
    pub open spec fn enables(self) -> Seq<ToolCategory> {
        let all = self.enable_all;
        with_category(
            with_category(
                with_category(
                    with_category(
                        Seq::empty(),
                        ToolCategory::GraphRead,
                        all || self.enable_graph_read,
                    ),
                    ToolCategory::GraphWrite,
                    all || self.enable_graph_write,
                ),
                ToolCategory::Vectors,
                all || self.enable_vectors,
            ),
            ToolCategory::Code,
            all || self.enable_code,
        )
    }

    /// The categories that the flags enable. One flag enables all of them.
    pub fn enabled_categories(&self) -> (r: Vec<ToolCategory>)
        ensures
            r@ == self.enables(),
    {
        let mut out: Vec<ToolCategory> = Vec::new();
        if self.enable_all || self.enable_graph_read {
            out.push(ToolCategory::GraphRead);
        }
        if self.enable_all || self.enable_graph_write {
            out.push(ToolCategory::GraphWrite);
        }
        if self.enable_all || self.enable_vectors {
            out.push(ToolCategory::Vectors);
        }
        if self.enable_all || self.enable_code {
            out.push(ToolCategory::Code);
        }
        assert(out@ =~= self.enables());
        out
    }
}

/// The two texts are the same up to the case of ASCII letters.
pub open spec fn alike(a: Seq<char>, b: Seq<char>) -> bool {
    text::lowered(a) == text::lowered(b)
}

impl Transport {
    /// The transport that a name stands for, in any case.
    pub open spec fn named(s: Seq<char>) -> Option<Transport> {
        if alike(s, "stdio"@) {
            Some(Transport::Stdio)
        } else if alike(s, "http"@) {
            Some(Transport::Http)
        } else {
            None
        }
    }

    /// Reads the name of a transport.
    pub fn parse(s: &str) -> (r: Option<Transport>)
        ensures
            r == Transport::named(s@),
    {
        if same_ignoring_case(s, "stdio") {
            Some(Transport::Stdio)
        } else if same_ignoring_case(s, "http") {
            Some(Transport::Http)
        } else {
            None
        }
    }
}

impl VecIndex {
    /// The index that a name stands for, in any case.
    pub open spec fn named(s: Seq<char>) -> Option<VecIndex> {
        if alike(s, "hnsw"@) {
            Some(VecIndex::Hnsw)
        } else if alike(s, "ivf"@) {
            Some(VecIndex::Ivf)
        } else if alike(s, "turbo"@) {
            Some(VecIndex::Turbo)
        } else {
            None
        }
    }

    /// Reads the name of an index.
    pub fn parse(s: &str) -> (r: Option<VecIndex>)
        ensures
            r == VecIndex::named(s@),
    {
        if same_ignoring_case(s, "hnsw") {
            Some(VecIndex::Hnsw)
        } else if same_ignoring_case(s, "ivf") {
            Some(VecIndex::Ivf)
        } else if same_ignoring_case(s, "turbo") {
            Some(VecIndex::Turbo)
        } else {
            None
        }
    }
}

impl VecMetric {
    /// The metric that a name stands for, in any case.
    pub open spec fn named(s: Seq<char>) -> Option<VecMetric> {
        if alike(s, "cos"@) {
            Some(VecMetric::Cos)
        } else if alike(s, "ip"@) {
            Some(VecMetric::Ip)
        } else if alike(s, "l2sq"@) {
            Some(VecMetric::L2sq)
        } else {
            None
        }
    }

    /// Reads the name of a metric.
    pub fn parse(s: &str) -> (r: Option<VecMetric>)
        ensures
            r == VecMetric::named(s@),
    {
        if same_ignoring_case(s, "cos") {
            Some(VecMetric::Cos)
        } else if same_ignoring_case(s, "ip") {
            Some(VecMetric::Ip)
        } else if same_ignoring_case(s, "l2sq") {
            Some(VecMetric::L2sq)
        } else {
            None
        }
    }
}

impl VecQuant {
    /// The storage that a name stands for, in any case.
    pub open spec fn named(s: Seq<char>) -> Option<VecQuant> {
        if alike(s, "f32"@) {
            Some(VecQuant::F32)
        } else if alike(s, "f16"@) {
            Some(VecQuant::F16)
        } else if alike(s, "bf16"@) {
            Some(VecQuant::Bf16)
        } else if alike(s, "i8"@) {
            Some(VecQuant::I8)
        } else {
            None
        }
    }

    /// Reads the name of a storage.
    pub fn parse(s: &str) -> (r: Option<VecQuant>)
        ensures
            r == VecQuant::named(s@),
    {
        if same_ignoring_case(s, "f32") {
            Some(VecQuant::F32)
        } else if same_ignoring_case(s, "f16") {
            Some(VecQuant::F16)
        } else if same_ignoring_case(s, "bf16") {
            Some(VecQuant::Bf16)
        } else if same_ignoring_case(s, "i8") {
            Some(VecQuant::I8)
        } else {
            None
        }
    }
}

/// A category is enabled by its own flag and by the one for all, and by nothing
/// else; the enabled ones stand in their order, each once.
pub proof fn law_a_flag_enables_its_category(args: Args)
    ensures
        args.enables().contains(ToolCategory::GraphRead) <==> args.enable_all || args.enable_graph_read,
        args.enables().contains(ToolCategory::GraphWrite) <==> args.enable_all || args.enable_graph_write,
        args.enables().contains(ToolCategory::Vectors) <==> args.enable_all || args.enable_vectors,
        args.enables().contains(ToolCategory::Code) <==> args.enable_all || args.enable_code,
        args.enables().no_duplicates(),
        args.enable_all ==> args.enables() == seq![
            ToolCategory::GraphRead,
            ToolCategory::GraphWrite,
            ToolCategory::Vectors,
            ToolCategory::Code,
        ],
{
    let a = with_category(Seq::empty(), ToolCategory::GraphRead, args.enable_all || args.enable_graph_read);
    let b = with_category(a, ToolCategory::GraphWrite, args.enable_all || args.enable_graph_write);
    let c = with_category(b, ToolCategory::Vectors, args.enable_all || args.enable_vectors);
    let d = with_category(c, ToolCategory::Code, args.enable_all || args.enable_code);
    lemma_with_category(Seq::empty(), ToolCategory::GraphRead, args.enable_all || args.enable_graph_read);
    lemma_with_category(a, ToolCategory::GraphWrite, args.enable_all || args.enable_graph_write);
    lemma_with_category(b, ToolCategory::Vectors, args.enable_all || args.enable_vectors);
    lemma_with_category(c, ToolCategory::Code, args.enable_all || args.enable_code);
    assert(args.enables() == d);
    if args.enable_all {
        assert(d =~= seq![
            ToolCategory::GraphRead,
            ToolCategory::GraphWrite,
            ToolCategory::Vectors,
            ToolCategory::Code,
        ]);
    }
}

proof fn lemma_with_category(v: Seq<ToolCategory>, c: ToolCategory, wanted: bool)
    ensures
        forall|x: ToolCategory| #[trigger]
            with_category(v, c, wanted).contains(x) <==> v.contains(x) || (wanted && x == c),
        v.no_duplicates() && !v.contains(c) ==> with_category(v, c, wanted).no_duplicates(),
{
    let w = with_category(v, c, wanted);
    assert forall|x: ToolCategory| #[trigger] w.contains(x) <==> v.contains(x) || (wanted && x == c) by {
        if v.contains(x) {
            assert(w[v.index_of(x)] == x);
        }
        if wanted && x == c {
            assert(w[v.len() as int] == x);
        }
        if w.contains(x) {
            let i = w.index_of(x);
            if i < v.len() {
                assert(v[i] == x);
            }
        }
    }
    if v.no_duplicates() && !v.contains(c) {
        assert forall|i: int, j: int| 0 <= i < j < w.len() implies w[i] != w[j] by {
            assert(v[i] == w[i]);
            assert(v.contains(v[i]));
        }
    }
}

/// Every name is known in any mixture of capitals.
pub proof fn law_names_are_known_in_any_case(s: Seq<char>)
    ensures
        text::lowered(s) == text::lowered("stdio"@) <==> Transport::named(s) == Some(Transport::Stdio),
        text::lowered(s) == text::lowered("http"@) <==> Transport::named(s) == Some(Transport::Http),
        text::lowered(s) == text::lowered("hnsw"@) <==> VecIndex::named(s) == Some(VecIndex::Hnsw),
        text::lowered(s) == text::lowered("ivf"@) <==> VecIndex::named(s) == Some(VecIndex::Ivf),
        text::lowered(s) == text::lowered("turbo"@) <==> VecIndex::named(s) == Some(VecIndex::Turbo),
        text::lowered(s) == text::lowered("cos"@) <==> VecMetric::named(s) == Some(VecMetric::Cos),
        text::lowered(s) == text::lowered("ip"@) <==> VecMetric::named(s) == Some(VecMetric::Ip),
        text::lowered(s) == text::lowered("l2sq"@) <==> VecMetric::named(s) == Some(VecMetric::L2sq),
        text::lowered(s) == text::lowered("f32"@) <==> VecQuant::named(s) == Some(VecQuant::F32),
        text::lowered(s) == text::lowered("f16"@) <==> VecQuant::named(s) == Some(VecQuant::F16),
        text::lowered(s) == text::lowered("bf16"@) <==> VecQuant::named(s) == Some(VecQuant::Bf16),
        text::lowered(s) == text::lowered("i8"@) <==> VecQuant::named(s) == Some(VecQuant::I8),
{
    reveal_strlit("stdio");
    reveal_strlit("http");
    reveal_strlit("hnsw");
    reveal_strlit("ivf");
    reveal_strlit("turbo");
    reveal_strlit("cos");
    reveal_strlit("ip");
    reveal_strlit("l2sq");
    reveal_strlit("f32");
    reveal_strlit("f16");
    reveal_strlit("bf16");
    reveal_strlit("i8");
    assert(text::lowered("stdio"@).len() == 5 && text::lowered("http"@).len() == 4);
    assert(text::lowered("hnsw"@).len() == 4 && text::lowered("ivf"@).len() == 3 && text::lowered("turbo"@).len()
        == 5);
    assert(text::lowered("cos"@).len() == 3 && text::lowered("ip"@).len() == 2 && text::lowered("l2sq"@).len()
        == 4);
    assert(text::lowered("f32"@).len() == 3 && text::lowered("f16"@).len() == 3 && text::lowered("bf16"@).len()
        == 4 && text::lowered("i8"@).len() == 2);
    assert(text::lowered("f32"@)[1] == '3' && text::lowered("f16"@)[1] == '1');
}

} // verus!
