//! What a process runs with: the command line with the environment under it.
use vstd::prelude::*;

use crate::args::Args;
use crate::errors::{invalid, MCSError, Result};
use crate::principals;
use crate::principals::{load, EntryData, PrincipalEntry, PrincipalsFile};
use crate::roles;
use crate::roles::{Compiled, RoleSet, RuntimeRole, Transport};
use crate::storage::{Durability, SqliteTuning};
use crate::text;
use crate::text::{
    copy_texts, cut_at, holds_char, join, same_ignoring_case, to_lower, trim, trim_end_char,
};
use crate::tools;
use crate::tools::{parse_categories, ToolCategory};

verus! {

#[derive(Debug)]
pub struct Config {
    pub memory_file_path: String,
    pub transport: Transport,
    pub bind_addr: String,
    pub durability: Durability,
    /// The bearer token that the network transport asks for, if any.
    pub auth_token: Option<String>,
    pub mmap_size: i64,
    pub page_size: i64,
    pub cache_size_kb: i64,
    pub busy_timeout_ms: u64,
    /// How often the log is flushed, in milliseconds; zero for never.
    pub wal_flush_ms: u64,
    pub lru_cache_size: usize,
    /// How many connections read at once; at least one.
    pub read_pool_size: usize,
    /// How many requests on standard input run at once; at least one.
    pub stdio_concurrency: usize,
    pub tls_cert: Option<String>,
    pub tls_key: Option<String>,
    pub vectors_enabled: bool,
    pub code_enabled: bool,
    pub code_embedding_dims: u32,
    pub enabled_categories: Vec<ToolCategory>,
    pub roles: RoleSet,
    pub legacy_observations: bool,
    /// Absent where OAuth is off.
    pub oauth: Option<OAuthConfig>,
    /// The scopes of the static bearer principal.
    pub bearer_scopes: Vec<ToolCategory>,
}

/// The settings of the authorization server. They are there only where an
/// upstream issuer is given, which is what turns OAuth on.
#[derive(Debug)]
pub struct OAuthConfig {
    /// The canonical URL of this server. It is never taken from a request.
    pub public_url: String,
    pub oidc_issuer: String,
    pub oidc_client_id: String,
    /// Absent for a public client.
    pub oidc_client_secret: Option<String>,
    pub principals: Vec<PrincipalEntry>,
    /// The hosts that may publish the metadata document of a client.
    pub cimd_allowed_domains: Vec<String>,
    /// A proxy in front of this server ends TLS, and names its peers.
    pub trust_forwarded_proto: bool,
}

/// What an [`OAuthConfig`] holds.
#[verifier::ext_equal]
pub struct OAuthData {
    pub public_url: Seq<char>,
    pub oidc_issuer: Seq<char>,
    pub oidc_client_id: Seq<char>,
    pub oidc_client_secret: Option<Seq<char>>,
    pub principals: Seq<EntryData>,
    pub cimd_allowed_domains: Seq<Seq<char>>,
    pub trust_forwarded_proto: bool,
}

impl View for OAuthConfig {
    type V = OAuthData;

    open spec fn view(&self) -> OAuthData {
        OAuthData {
            public_url: self.public_url@,
            oidc_issuer: self.oidc_issuer@,
            oidc_client_id: self.oidc_client_id@,
            oidc_client_secret: text::opt_text(self.oidc_client_secret),
            principals: principals::entries_data(self.principals@),
            cimd_allowed_domains: text::texts(self.cimd_allowed_domains@),
            trust_forwarded_proto: self.trust_forwarded_proto,
        }
    }
}

// ---------------------------------------------------------------------------
// URLs
// ---------------------------------------------------------------------------

/// The part of a text before its first slash, and the rest from there on.
pub open spec fn at_slash(rest: Seq<char>) -> (Seq<char>, Seq<char>) {
    match text::cut(rest, "/"@) {
        Some((host, path)) => (host, "/"@ + path),
        None => (rest, Seq::empty()),
    }
}

/// The one spelling of an HTTPS URL that names a server, or why the value is
/// none: no trailing slash, the scheme and the host in lower case. A path is
/// kept; a query, a fragment and credentials are refused.
pub open spec fn normalized(flag: Seq<char>, value: Seq<char>) -> std::result::Result<
    Seq<char>,
    Seq<char>,
> {
    if value.contains('?') || value.contains('#') {
        Err(flag + " must carry no query string and no fragment"@)
    } else {
        match text::cut(value, "://"@) {
            None => Err(flag + " must be an absolute https URL"@),
            Some((scheme, rest)) => if text::lowered(scheme) != text::lowered("https"@) {
                Err(flag + " must use the https scheme"@)
            } else {
                let (host, path) = at_slash(text::end_trimmed(rest, '/'));
                if host.len() == 0 {
                    Err(flag + " must name a host"@)
                } else if host.contains('@') {
                    Err(flag + " must carry no userinfo; remove the part before the '@'"@)
                } else {
                    Ok("https://"@ + text::lowered(host) + path)
                }
            },
        }
    }
}

/// Brings an HTTPS URL into its one spelling, so that it can be compared as
/// plain text.
pub fn normalize_https_url(flag: &str, value: &str) -> (r: Result<String>)
    ensures
        match normalized(flag@, value@) {
            Ok(u) => r matches Ok(s) && s@ == u,
            Err(why) => r matches Err(MCSError::InvalidParams(m)) && m@ == why,
        },
{
    if holds_char(value, '?') || holds_char(value, '#') {
        return Err(
            invalid(&flag.to_owned().concat(" must carry no query string and no fragment")),
        );
    }
    let (scheme, rest) = match cut_at(value, "://") {
        Some(p) => p,
        None => {
            return Err(invalid(&flag.to_owned().concat(" must be an absolute https URL")));
        },
    };
    if !same_ignoring_case(&scheme, "https") {
        return Err(invalid(&flag.to_owned().concat(" must use the https scheme")));
    }
    let rest: String = trim_end_char(&rest, '/');
    let (host, path) = match cut_at(&rest, "/") {
        Some((h, p)) => (h, "/".to_owned().concat(&p)),
        None => (rest, String::new()),
    };
    assert(path@ =~= at_slash(rest@).1);
    if host.as_str().is_empty() {
        return Err(invalid(&flag.to_owned().concat(" must name a host")));
    }
    if holds_char(&host, '@') {
        return Err(
            invalid(
                &flag.to_owned().concat(
                    " must carry no userinfo; remove the part before the '@'",
                ),
            ),
        );
    }
    Ok("https://".to_owned().concat(&to_lower(&host)).concat(&path))
}

// ---------------------------------------------------------------------------
// The command line with the environment under it
// ---------------------------------------------------------------------------

/// What the variables hold that a setting reads directly.
pub struct Environment {
    pub memory_file: Option<String>,
    pub auth_token: Option<String>,
    pub durability: Option<String>,
    pub tls_cert: Option<String>,
    pub tls_key: Option<String>,
}

/// What came of reading a file: its text, or the error.
pub type FileText = std::result::Result<String, String>;

/// What came of reading the files that the command line names.
pub struct Files {
    pub auth_token: FileText,
    pub principals: PrincipalsFile,
    pub client_secret: FileText,
}

/// What the build carries.
#[derive(Clone, Copy, Debug, PartialEq, Eq, Structural)]
pub struct Build {
    pub roles: Compiled,
    pub oauth: bool,
}

/// The text of an optional value that is not empty.
pub open spec fn filled(value: Option<String>) -> Option<Seq<char>> {
    match value {
        Some(v) => if v@.len() == 0 {
            None
        } else {
            Some(v@)
        },
        None => None,
    }
}

fn keep_filled(value: &Option<String>) -> (r: Option<String>)
    ensures
        text::opt_text(r) == filled(*value),
{
    match value {
        Some(v) => if v.as_str().is_empty() {
            None
        } else {
            Some(v.clone())
        },
        None => None,
    }
}

/// The secret in the file that a flag names: its text without the white space
/// around it, or why there is none.
pub open spec fn secret_in(flag: Seq<char>, path: Seq<char>, file: FileText, empty: Seq<char>) -> std::result::Result<
    Seq<char>,
    Seq<char>,
> {
    match file {
        Err(e) => Err("failed to read "@ + flag + " '"@ + path + "': "@ + e@),
        Ok(t) => if text::trimmed(t@).len() == 0 {
            Err(flag + " '"@ + path + empty)
        } else {
            Ok(text::trimmed(t@))
        },
    }
}

fn read_secret(flag: &str, path: &str, file: &FileText, empty: &str) -> (r: Result<String>)
    ensures
        match secret_in(flag@, path@, *file, empty@) {
            Ok(s) => r matches Ok(t) && t@ == s,
            Err(why) => r matches Err(MCSError::InvalidParams(m)) && m@ == why,
        },
{
    match file {
        Err(e) => Err(
            invalid(
                &"failed to read ".to_owned().concat(flag).concat(" '").concat(path).concat(
                    "': ",
                ).concat(e),
            ),
        ),
        Ok(t) => {
            let secret: String = trim(t);
            if secret.as_str().is_empty() {
                Err(invalid(&flag.to_owned().concat(" '").concat(path).concat(empty)))
            } else {
                Ok(secret)
            }
        },
    }
}

/// Where the memory is kept: the flag, else the variable, else the default.
pub open spec fn memory_path(args: Args, env: Environment) -> Seq<char> {
    match args.memory_file {
        Some(p) => p@,
        None => match filled(env.memory_file) {
            Some(p) => p,
            None => "memory.mcpmem"@,
        },
    }
}

/// The bearer token: the flag, else the file, else the variable. A file
/// without a token is refused, so that it does not turn authentication off.
pub open spec fn token_of(args: Args, env: Environment, file: FileText) -> std::result::Result<
    Option<Seq<char>>,
    Seq<char>,
> {
    match args.auth_token {
        Some(t) => Ok(Some(t@)),
        None => match args.auth_token_file {
            Some(path) => match secret_in(
                "--auth-token-file"@,
                path@,
                file,
                "' is empty; refusing to start with auth disabled"@,
            ) {
                Ok(t) => Ok(Some(t)),
                Err(why) => Err(why),
            },
            None => Ok(filled(env.auth_token)),
        },
    }
}

/// How writes are made durable: the flag, else the variable. A name that is
/// none falls back to the asynchronous mode.
pub open spec fn durability_of(args: Args, env: Environment) -> Durability {
    let name = if args.durability is Some {
        args.durability
    } else {
        env.durability
    };
    match name {
        Some(n) => match Durability::named(n@) {
            Some(d) => d,
            None => Durability::Async,
        },
        None => Durability::Async,
    }
}

/// A path for TLS: the flag, else the variable, unless it is empty.
pub open spec fn tls_path(flag: Option<String>, variable: Option<String>) -> Option<Seq<char>> {
    filled(
        if flag is Some {
            flag
        } else {
            variable
        },
    )
}

/// The selected roles: those of the list, else the server alone.
pub open spec fn roles_of(args: Args, build: Build) -> std::result::Result<Seq<RuntimeRole>, Seq<char>> {
    if args.roles@.len() == 0 {
        Ok(seq![RuntimeRole::Mcp])
    } else {
        match roles::selected(text::joined(text::texts(args.roles@), ","@), build.roles) {
            Ok(v) => Ok(v),
            Err(fault) => Err(fault.says()),
        }
    }
}

/// The scopes of the bearer token: those of the list, else every one.
pub open spec fn bearer_of(args: Args) -> std::result::Result<Seq<ToolCategory>, Seq<char>> {
    if args.static_bearer_scopes@.len() == 0 {
        Ok(
            seq![
                ToolCategory::GraphRead,
                ToolCategory::GraphWrite,
                ToolCategory::Vectors,
                ToolCategory::Code,
            ],
        )
    } else {
        tools::categories(text::texts(args.static_bearer_scopes@))
    }
}

/// Some setting of the authorization server is given.
pub open spec fn names_oauth(args: Args) -> bool {
    ||| args.public_url is Some
    ||| args.oidc_client_id is Some
    ||| args.oidc_client_secret_file is Some
    ||| args.principals_file is Some
    ||| args.cimd_allowed_domains@.len() > 0
    ||| args.oauth_trust_forwarded_proto
}

/// The principals that a file holds, or why it is refused.
pub open spec fn principals_of(path: Seq<char>, file: PrincipalsFile) -> std::result::Result<
    Seq<EntryData>,
    Seq<char>,
> {
    match file {
        PrincipalsFile::Unreadable(e) => Err(
            "failed to read --principals-file '"@ + path + "': "@ + e@,
        ),
        PrincipalsFile::Invalid(e) => Err(
            "--principals-file '"@ + path + "' is not a valid principals file: "@ + e@,
        ),
        PrincipalsFile::Entries(list) => if list@.len() == 0 {
            Err(
                "--principals-file '"@ + path + "' is empty; refusing to start with nobody allowed"@,
            )
        } else {
            principals::accepted_entries(principals::entries_data(list@))
        },
    }
}

/// The hosts of metadata documents: those of the list, else the defaults.
pub open spec fn domains_of(args: Args, defaults: Seq<Seq<char>>) -> Seq<Seq<char>> {
    if args.cimd_allowed_domains@.len() == 0 {
        defaults
    } else {
        text::texts(args.cimd_allowed_domains@)
    }
}

/// The secret of the client, if a file is named.
pub open spec fn client_secret_of(args: Args, file: FileText) -> std::result::Result<
    Option<Seq<char>>,
    Seq<char>,
> {
    match args.oidc_client_secret_file {
        None => Ok(None),
        Some(path) => match secret_in("--oidc-client-secret-file"@, path@, file, "' is empty"@) {
            Ok(s) => Ok(Some(s)),
            Err(why) => Err(why),
        },
    }
}

/// The authorization server that an issuer turns on, or the first thing that
/// stands against it.
pub open spec fn oauth_with(
    args: Args,
    issuer: Seq<char>,
    files: Files,
    roles: Seq<RuntimeRole>,
    tls: bool,
    defaults: Seq<Seq<char>>,
) -> std::result::Result<OAuthData, Seq<char>> {
    if !roles.contains(RuntimeRole::Mcp) {
        Err("--oidc-issuer requires the mcp role"@)
    } else if args.transport != Transport::Http {
        Err(
            "--oidc-issuer requires --transport http; stdio is local and already holds every scope"@,
        )
    } else if !tls && !args.oauth_trust_forwarded_proto {
        Err(
            "--oidc-issuer needs TLS; pass --tls-cert and --tls-key, or --oauth-trust-forwarded-proto behind a proxy that terminates TLS"@,
        )
    } else {
        match normalized("--oidc-issuer"@, issuer) {
            Err(why) => Err(why),
            Ok(oidc_issuer) => match args.public_url {
                None => Err("--oidc-issuer requires --public-url"@),
                Some(url) => match normalized("--public-url"@, url@) {
                    Err(why) => Err(why),
                    Ok(public_url) => match (args.oidc_client_id, args.principals_file) {
                        (None, _) => Err("--oidc-issuer requires --oidc-client-id"@),
                        (Some(_), None) => Err("--oidc-issuer requires --principals-file"@),
                        (Some(id), Some(path)) => match principals_of(path@, files.principals) {
                            Err(why) => Err(why),
                            Ok(principals) => match client_secret_of(args, files.client_secret) {
                                Err(why) => Err(why),
                                Ok(oidc_client_secret) => Ok(
                                    OAuthData {
                                        public_url,
                                        oidc_issuer,
                                        oidc_client_id: id@,
                                        oidc_client_secret,
                                        principals,
                                        cimd_allowed_domains: domains_of(args, defaults),
                                        trust_forwarded_proto: args.oauth_trust_forwarded_proto,
                                    },
                                ),
                            },
                        },
                    },
                },
            },
        }
    }
}

/// The authorization server, where it is on, or why the settings for it are
/// refused. Without an issuer none of them may be given.
pub open spec fn oauth_of(
    args: Args,
    files: Files,
    build: Build,
    roles: Seq<RuntimeRole>,
    tls: bool,
    defaults: Seq<Seq<char>>,
) -> std::result::Result<Option<OAuthData>, Seq<char>> {
    match args.oidc_issuer {
        Some(issuer) => if !build.oauth {
            Err(
                "--oidc-issuer needs the `oauth` feature; this build serves no authorization, consent or token endpoint"@,
            )
        } else {
            match oauth_with(args, issuer@, files, roles, tls, defaults) {
                Ok(d) => Ok(Some(d)),
                Err(why) => Err(why),
            }
        },
        None => if names_oauth(args) {
            Err("the OAuth flags need --oidc-issuer, which turns OAuth on"@)
        } else {
            Ok(None)
        },
    }
}

/// What the settings decide that is not simply one of them.
#[verifier::ext_equal]
pub struct Choices {
    pub auth_token: Option<Seq<char>>,
    pub roles: Seq<RuntimeRole>,
    pub bearer_scopes: Seq<ToolCategory>,
    pub oauth: Option<OAuthData>,
}

/// What the settings decide, or the first thing that stands against them.
pub open spec fn choices(
    args: Args,
    env: Environment,
    files: Files,
    build: Build,
    defaults: Seq<Seq<char>>,
) -> std::result::Result<Choices, Seq<char>> {
    match token_of(args, env, files.auth_token) {
        Err(why) => Err(why),
        Ok(auth_token) => if tls_path(args.tls_cert, env.tls_cert) is Some != tls_path(
            args.tls_key,
            env.tls_key,
        ) is Some {
            Err(
                "--tls-cert and --tls-key must be provided together (or both omitted for plaintext HTTP)"@,
            )
        } else {
            match roles_of(args, build) {
                Err(why) => Err(why),
                Ok(roles) => if args.legacy_observations && !roles.contains(RuntimeRole::Mcp) {
                    Err("--legacy-observations requires the mcp role"@)
                } else {
                    match bearer_of(args) {
                        Err(why) => Err(why),
                        Ok(bearer_scopes) => match oauth_of(
                            args,
                            files,
                            build,
                            roles,
                            tls_path(args.tls_cert, env.tls_cert) is Some,
                            defaults,
                        ) {
                            Err(why) => Err(why),
                            Ok(oauth) => Ok(Choices { auth_token, roles, bearer_scopes, oauth }),
                        },
                    }
                },
            }
        },
    }
}

/// How many connections read at once: as many as asked for; without a wish as
/// many as there are processors, from one to thirty-two.
pub open spec fn pool_size(requested: int, available: Option<usize>) -> int {
    if requested != 0 {
        requested
    } else {
        match available {
            Some(n) => if n < 1 {
                1
            } else if n > 32 {
                32
            } else {
                n as int
            },
            None => 4,
        }
    }
}

/// How many connections read at once, given how many processors there are, if
/// that is known.
pub fn resolve_read_pool_size(requested: usize, available: Option<usize>) -> (r: usize)
    ensures
        r == pool_size(requested as int, available),
        r >= 1,
{
    if requested != 0 {
        requested
    } else {
        match available {
            Some(n) => if n < 1 {
                1
            } else if n > 32 {
                32
            } else {
                n
            },
            None => 4,
        }
    }
}

/// The product, or the nearest number that there is.
pub open spec fn kilo(mb: int) -> int {
    if mb * 1024 > i64::MAX {
        i64::MAX as int
    } else if mb * 1024 < i64::MIN {
        i64::MIN as int
    } else {
        mb * 1024
    }
}

fn saturating_kilo(mb: i64) -> (r: i64)
    ensures
        r == kilo(mb as int),
{
    let wide: i128 = mb as i128 * 1024;
    if wide > i64::MAX as i128 {
        i64::MAX
    } else if wide < i64::MIN as i128 {
        i64::MIN
    } else {
        wide as i64
    }
}

fn holds_category(v: &Vec<ToolCategory>, c: ToolCategory) -> (r: bool)
    ensures
        r == v@.contains(c),
{
    let mut i: usize = 0;
    while i < v.len()
        invariant
            i <= v@.len(),
            forall|j: int| 0 <= j < i ==> #[trigger] v@[j] != c,
        decreases v@.len() - i,
    {
        if v[i] == c {
            return true;
        }
        i += 1;
    }
    false
}

fn choose_token(args: &Args, env: &Environment, file: &FileText) -> (r: Result<Option<String>>)
    ensures
        match token_of(*args, *env, *file) {
            Ok(t) => r matches Ok(s) && text::opt_text(s) == t,
            Err(why) => r matches Err(MCSError::InvalidParams(m)) && m@ == why,
        },
{
    match &args.auth_token {
        Some(t) => Ok(Some(t.clone())),
        None => match &args.auth_token_file {
            Some(path) => match read_secret(
                "--auth-token-file",
                path,
                file,
                "' is empty; refusing to start with auth disabled",
            ) {
                Ok(t) => Ok(Some(t)),
                Err(e) => Err(e),
            },
            None => Ok(keep_filled(&env.auth_token)),
        },
    }
}

fn choose_durability(args: &Args, env: &Environment) -> (r: Durability)
    ensures
        r == durability_of(*args, *env),
{
    let name: &Option<String> = if args.durability.is_some() {
        &args.durability
    } else {
        &env.durability
    };
    match name {
        Some(n) => match Durability::parse(n) {
            Ok(d) => d,
            Err(_) => Durability::Async,
        },
        None => Durability::Async,
    }
}

fn choose_tls(flag: &Option<String>, variable: &Option<String>) -> (r: Option<String>)
    ensures
        text::opt_text(r) == tls_path(*flag, *variable),
{
    if flag.is_some() {
        keep_filled(flag)
    } else {
        keep_filled(variable)
    }
}

fn choose_roles(args: &Args, build: Build) -> (r: Result<RoleSet>)
    ensures
        match roles_of(*args, build) {
            Ok(v) => r matches Ok(s) && s@ == v,
            Err(why) => r matches Err(MCSError::InvalidParams(m)) && m@ == why,
        },
{
    if args.roles.len() == 0 {
        return Ok(RoleSet::mcp_only());
    }
    match RoleSet::parse_csv(&join(&args.roles, ","), build.roles) {
        Ok(s) => Ok(s),
        Err(e) => Err(invalid(&e.message())),
    }
}

fn choose_bearer(args: &Args) -> (r: Result<Vec<ToolCategory>>)
    ensures
        match bearer_of(*args) {
            Ok(v) => r matches Ok(s) && s@ == v,
            Err(why) => r matches Err(MCSError::InvalidParams(m)) && m@ == why,
        },
{
    if args.static_bearer_scopes.len() == 0 {
        return Ok(ToolCategory::all());
    }
    match parse_categories(&args.static_bearer_scopes) {
        Ok(v) => Ok(v),
        Err(why) => Err(invalid(&why)),
    }
}

fn choose_domains(args: &Args, defaults: &Vec<String>) -> (r: Vec<String>)
    ensures
        text::texts(r@) == domains_of(*args, text::texts(defaults@)),
{
    if args.cimd_allowed_domains.len() == 0 {
        copy_texts(defaults)
    } else {
        copy_texts(&args.cimd_allowed_domains)
    }
}

fn choose_secret(args: &Args, file: &FileText) -> (r: Result<Option<String>>)
    ensures
        match client_secret_of(*args, *file) {
            Ok(t) => r matches Ok(s) && text::opt_text(s) == t,
            Err(why) => r matches Err(MCSError::InvalidParams(m)) && m@ == why,
        },
{
    match &args.oidc_client_secret_file {
        None => Ok(None),
        Some(path) => match read_secret("--oidc-client-secret-file", path, file, "' is empty") {
            Ok(s) => Ok(Some(s)),
            Err(e) => Err(e),
        },
    }
}

fn choose_oauth(
    args: &Args,
    issuer: &str,
    files: Files,
    roles: &RoleSet,
    tls: bool,
    defaults: &Vec<String>,
) -> (r: Result<OAuthConfig>)
    ensures
        match oauth_with(*args, issuer@, files, roles@, tls, text::texts(defaults@)) {
            Ok(d) => r matches Ok(c) && c@ == d,
            Err(why) => r matches Err(MCSError::InvalidParams(m)) && m@ == why,
        },
{
    if !roles.holds(RuntimeRole::Mcp) {
        return Err(invalid("--oidc-issuer requires the mcp role"));
    }
    if args.transport != Transport::Http {
        return Err(
            invalid(
                "--oidc-issuer requires --transport http; stdio is local and already holds every scope",
            ),
        );
    }
    if !tls && !args.oauth_trust_forwarded_proto {
        return Err(
            invalid(
                "--oidc-issuer needs TLS; pass --tls-cert and --tls-key, or --oauth-trust-forwarded-proto behind a proxy that terminates TLS",
            ),
        );
    }
    let oidc_issuer: String = match normalize_https_url("--oidc-issuer", issuer) {
        Ok(u) => u,
        Err(e) => {
            return Err(e);
        },
    };
    let public_url: String = match &args.public_url {
        None => {
            return Err(invalid("--oidc-issuer requires --public-url"));
        },
        Some(u) => match normalize_https_url("--public-url", u) {
            Ok(u) => u,
            Err(e) => {
                return Err(e);
            },
        },
    };
    let oidc_client_id: String = match &args.oidc_client_id {
        None => {
            return Err(invalid("--oidc-issuer requires --oidc-client-id"));
        },
        Some(id) => id.clone(),
    };
    let path: &String = match &args.principals_file {
        None => {
            return Err(invalid("--oidc-issuer requires --principals-file"));
        },
        Some(p) => p,
    };
    let list: Vec<PrincipalEntry> = match load(path, files.principals) {
        Ok(v) => v,
        Err(e) => {
            return Err(e);
        },
    };
    let oidc_client_secret: Option<String> = match choose_secret(args, &files.client_secret) {
        Ok(s) => s,
        Err(e) => {
            return Err(e);
        },
    };
    Ok(
        OAuthConfig {
            public_url,
            oidc_issuer,
            oidc_client_id,
            oidc_client_secret,
            principals: list,
            cimd_allowed_domains: choose_domains(args, defaults),
            trust_forwarded_proto: args.oauth_trust_forwarded_proto,
        },
    )
}

/// What an optional [`OAuthConfig`] holds.
pub open spec fn opt_oauth(c: Option<OAuthConfig>) -> Option<OAuthData> {
    match c {
        Some(c) => Some(c@),
        None => None,
    }
}

impl Config {
    /// How the database is opened.
    pub fn sqlite_tuning(&self) -> (r: SqliteTuning)
        ensures
            r == (SqliteTuning {
                mmap_size: self.mmap_size,
                page_size: self.page_size,
                cache_size_kb: self.cache_size_kb,
                busy_timeout_ms: self.busy_timeout_ms,
                journal_size_limit: 134_217_728,
            }),
    {
        let standard: SqliteTuning = SqliteTuning::default();
        SqliteTuning {
            mmap_size: self.mmap_size,
            page_size: self.page_size,
            cache_size_kb: self.cache_size_kb,
            busy_timeout_ms: self.busy_timeout_ms,
            journal_size_limit: standard.journal_size_limit,
        }
    }

    /// The configuration that the command line, the environment and the files
    /// give, or the first thing that stands against it. Where the command line
    /// names no hosts of metadata documents, the default ones apply.
    pub fn from_args(
        args: &Args,
        env: &Environment,
        files: Files,
        build: Build,
        default_domains: &Vec<String>,
        available: Option<usize>,
    ) -> (r: Result<Self>)
        ensures
            match choices(*args, *env, files, build, text::texts(default_domains@)) {
                Err(why) => r matches Err(MCSError::InvalidParams(m)) && m@ == why,
                Ok(d) => {
                    &&& r matches Ok(c)
                    &&& c.memory_file_path@ == memory_path(*args, *env)
                    &&& c.transport == args.transport
                    &&& c.bind_addr == args.bind
                    &&& c.durability == durability_of(*args, *env)
                    &&& text::opt_text(c.auth_token) == d.auth_token
                    &&& c.mmap_size == args.mmap_size
                    &&& c.page_size == args.page_size
                    &&& c.cache_size_kb == kilo(args.cache_size_mb as int)
                    &&& c.busy_timeout_ms == args.busy_timeout_ms
                    &&& c.wal_flush_ms == args.wal_flush_ms
                    &&& c.lru_cache_size == args.lru_cache_size
                    &&& c.read_pool_size == pool_size(args.read_pool_size as int, available)
                    &&& c.stdio_concurrency == (if args.stdio_concurrency == 0 {
                        1
                    } else {
                        args.stdio_concurrency
                    })
                    &&& text::opt_text(c.tls_cert) == tls_path(args.tls_cert, env.tls_cert)
                    &&& text::opt_text(c.tls_key) == tls_path(args.tls_key, env.tls_key)
                    &&& c.enabled_categories@ == args.enables()
                    &&& c.vectors_enabled == args.enables().contains(ToolCategory::Vectors)
                    &&& c.code_enabled == args.enables().contains(ToolCategory::Code)
                    &&& c.code_embedding_dims == args.code_embedding_dims
                    &&& c.roles@ == d.roles
                    &&& c.legacy_observations == args.legacy_observations
                    &&& opt_oauth(c.oauth) == d.oauth
                    &&& c.bearer_scopes@ == d.bearer_scopes
                },
            },
    {
        let memory_file_path: String = match &args.memory_file {
            Some(p) => p.clone(),
            None => match keep_filled(&env.memory_file) {
                Some(p) => p,
                None => "memory.mcpmem".to_owned(),
            },
        };
        let auth_token: Option<String> = match choose_token(args, env, &files.auth_token) {
            Ok(t) => t,
            Err(e) => {
                return Err(e);
            },
        };
        let durability: Durability = choose_durability(args, env);
        let tls_cert: Option<String> = choose_tls(&args.tls_cert, &env.tls_cert);
        let tls_key: Option<String> = choose_tls(&args.tls_key, &env.tls_key);
        if tls_cert.is_some() != tls_key.is_some() {
            return Err(
                invalid(
                    "--tls-cert and --tls-key must be provided together (or both omitted for plaintext HTTP)",
                ),
            );
        }
        let enabled_categories: Vec<ToolCategory> = args.enabled_categories();
        let roles: RoleSet = match choose_roles(args, build) {
            Ok(s) => s,
            Err(e) => {
                return Err(e);
            },
        };
        if args.legacy_observations && !roles.holds(RuntimeRole::Mcp) {
            return Err(invalid("--legacy-observations requires the mcp role"));
        }
        let bearer_scopes: Vec<ToolCategory> = match choose_bearer(args) {
            Ok(v) => v,
            Err(e) => {
                return Err(e);
            },
        };
        let oauth: Option<OAuthConfig> = match &args.oidc_issuer {
            Some(issuer) => {
                if !build.oauth {
                    return Err(
                        invalid(
                            "--oidc-issuer needs the `oauth` feature; this build serves no authorization, consent or token endpoint",
                        ),
                    );
                }
                match choose_oauth(
                    args,
                    issuer,
                    files,
                    &roles,
                    tls_cert.is_some(),
                    default_domains,
                ) {
                    Ok(c) => Some(c),
                    Err(e) => {
                        return Err(e);
                    },
                }
            },
            None => {
                if args.public_url.is_some() || args.oidc_client_id.is_some()
                    || args.oidc_client_secret_file.is_some() || args.principals_file.is_some()
                    || args.cimd_allowed_domains.len() > 0 || args.oauth_trust_forwarded_proto {
                    return Err(invalid("the OAuth flags need --oidc-issuer, which turns OAuth on"));
                }
                None
            },
        };
        let vectors_enabled: bool = holds_category(&enabled_categories, ToolCategory::Vectors);
        let code_enabled: bool = holds_category(&enabled_categories, ToolCategory::Code);
        Ok(
            Config {
                memory_file_path,
                transport: args.transport,
                bind_addr: args.bind.clone(),
                durability,
                auth_token,
                mmap_size: args.mmap_size,
                page_size: args.page_size,
                cache_size_kb: saturating_kilo(args.cache_size_mb),
                busy_timeout_ms: args.busy_timeout_ms,
                wal_flush_ms: args.wal_flush_ms,
                lru_cache_size: args.lru_cache_size,
                read_pool_size: resolve_read_pool_size(args.read_pool_size, available),
                stdio_concurrency: if args.stdio_concurrency == 0 {
                    1
                } else {
                    args.stdio_concurrency
                },
                tls_cert,
                tls_key,
                vectors_enabled,
                code_enabled,
                code_embedding_dims: args.code_embedding_dims,
                enabled_categories,
                roles,
                legacy_observations: args.legacy_observations,
                oauth,
                bearer_scopes,
            },
        )
    }
}

impl Default for Config {
    fn default() -> (r: Self)
        ensures
            r.memory_file_path@ == "memory.mcpmem"@,
            r.transport == Transport::Stdio,
            r.bind_addr@ == "127.0.0.1:8080"@,
            r.durability == Durability::Async,
            r.auth_token is None,
            r.mmap_size == 268_435_456,
            r.page_size == 4096,
            r.cache_size_kb == 50_000,
            r.busy_timeout_ms == 5000,
            r.wal_flush_ms == 250,
            r.lru_cache_size == 10_000,
            r.read_pool_size == 8,
            r.stdio_concurrency == 8,
            r.tls_cert is None,
            r.tls_key is None,
            !r.vectors_enabled,
            !r.code_enabled,
            r.code_embedding_dims == 768,
            r.enabled_categories@.len() == 0,
            r.roles@ == seq![RuntimeRole::Mcp],
            !r.legacy_observations,
            r.oauth is None,
            r.bearer_scopes@ == seq![
                ToolCategory::GraphRead,
                ToolCategory::GraphWrite,
                ToolCategory::Vectors,
                ToolCategory::Code,
            ],
    {
        let standard: SqliteTuning = SqliteTuning::default();
        Config {
            memory_file_path: "memory.mcpmem".to_owned(),
            transport: Transport::Stdio,
            bind_addr: "127.0.0.1:8080".to_owned(),
            durability: Durability::Async,
            auth_token: None,
            mmap_size: standard.mmap_size,
            page_size: standard.page_size,
            cache_size_kb: standard.cache_size_kb,
            busy_timeout_ms: standard.busy_timeout_ms,
            wal_flush_ms: 250,
            lru_cache_size: 10_000,
            read_pool_size: 8,
            stdio_concurrency: 8,
            tls_cert: None,
            tls_key: None,
            vectors_enabled: false,
            code_enabled: false,
            code_embedding_dims: 768,
            enabled_categories: Vec::new(),
            roles: RoleSet::mcp_only(),
            legacy_observations: false,
            oauth: None,
            bearer_scopes: ToolCategory::all(),
        }
    }
}

// ---------------------------------------------------------------------------
// Laws
// ---------------------------------------------------------------------------

proof fn lemma_end_trimmed(s: Seq<char>, c: char)
    ensures
        text::end_trimmed(s, c).len() <= s.len(),
        text::end_trimmed(s, c) == s.take(text::end_trimmed(s, c).len() as int),
        text::end_trimmed(s, c).len() > 0 ==> text::end_trimmed(s, c).last() != c,
    decreases s.len(),
{
    if s.len() > 0 && s.last() == c {
        lemma_end_trimmed(s.drop_last(), c);
        let n = text::end_trimmed(s, c).len() as int;
        assert(s.drop_last().take(n) =~= s.take(n));
    } else {
        assert(s.take(s.len() as int) =~= s);
    }
}

/// The two parts of a cut are what stands around the first occurrence.
proof fn lemma_cut_parts(s: Seq<char>, part: Seq<char>) -> (i: int)
    requires
        text::cut(s, part) is Some,
    ensures
        text::first_occurs(s, part, i),
        text::cut(s, part) == Some((s.take(i), s.skip(i + part.len()))),
{
    let i = choose|i: int| text::first_occurs(s, part, i);
    assert(text::first_occurs(s, part, i));
    text::lemma_cut(s, part, i);
    i
}

/// Where a text has a slash, the part before the first one has none.
proof fn lemma_before_slash(rest: Seq<char>, i: int)
    requires
        text::first_occurs(rest, "/"@, i),
    ensures
        !rest.take(i).contains('/'),
{
    reveal_strlit("/");
    assert forall|j: int| 0 <= j < i implies #[trigger] rest.take(i)[j] != '/' by {
        if rest[j] == '/' {
            assert(rest.subrange(j, j + 1) =~= "/"@);
            assert(text::occurs_at(rest, "/"@, j));
        }
    }
}

/// Where a text has a slash, what stands before the first one, the slash, and
/// what stands behind it make up the text.
proof fn lemma_around_slash(rest: Seq<char>, i: int)
    requires
        text::first_occurs(rest, "/"@, i),
    ensures
        rest.take(i) + ("/"@ + rest.skip(i + 1)) == rest,
{
    reveal_strlit("/");
    assert(text::occurs_at(rest, "/"@, i));
    assert(rest.subrange(i, i + 1)[0] == '/');
    assert(rest[i] == '/');
    assert(rest.take(i) + ("/"@ + rest.skip(i + 1)) =~= rest);
}

/// The part before the first slash has none, and the two parts make up the
/// text.
proof fn lemma_at_slash(rest: Seq<char>)
    ensures
        at_slash(rest).0 + at_slash(rest).1 == rest,
        !at_slash(rest).0.contains('/'),
        at_slash(rest).1.len() > 0 ==> at_slash(rest).1[0] == '/',
{
    reveal_strlit("/");
    if text::cut(rest, "/"@) is Some {
        let i = lemma_cut_parts(rest, "/"@);
        lemma_before_slash(rest, i);
        lemma_around_slash(rest, i);
    } else {
        assert(rest + Seq::<char>::empty() =~= rest);
        if rest.contains('/') {
            lemma_has_first(rest, rest.index_of('/'));
        }
    }
}

/// Where a slash occurs, it occurs for a first time.
proof fn lemma_has_first(rest: Seq<char>, k: int)
    requires
        0 <= k < rest.len(),
        rest[k] == '/',
    ensures
        text::cut(rest, "/"@) is Some,
    decreases k,
{
    reveal_strlit("/");
    assert(rest.subrange(k, k + 1) =~= "/"@);
    assert(text::occurs_at(rest, "/"@, k));
    if exists|j: int| 0 <= j < k && #[trigger] text::occurs_at(rest, "/"@, j) {
        let j = choose|j: int| 0 <= j < k && #[trigger] text::occurs_at(rest, "/"@, j);
        assert(rest.subrange(j, j + 1)[0] == rest[j]);
        lemma_has_first(rest, j);
    } else {
        assert(text::first_occurs(rest, "/"@, k));
    }
}

/// Whatever a host and a path are that no slash, question mark or hash sign
/// disturbs, the URL made of them is its own one spelling.
proof fn lemma_settled(flag: Seq<char>, host: Seq<char>, path: Seq<char>)
    requires
        host.len() > 0,
        text::lowered(host) == host,
        !host.contains('/') && !host.contains('@') && !host.contains('?') && !host.contains('#'),
        !path.contains('?') && !path.contains('#'),
        path.len() > 0 ==> path[0] == '/' && path.last() != '/',
    ensures
        normalized(flag, "https://"@ + host + path) == Ok::<Seq<char>, Seq<char>>(
            "https://"@ + host + path,
        ),
{
    reveal_strlit("https://");
    reveal_strlit("https");
    reveal_strlit("://");
    reveal_strlit("/");
    let rest = host + path;
    let n = "https://"@ + host + path;
    assert(n =~= "https://"@ + rest);
    assert forall|i: int| 0 <= i < n.len() implies n[i] != '?' && n[i] != '#' by {
        if i >= 8 {
            if i - 8 < host.len() {
                assert(n[i] == host[i - 8]);
                assert(host.contains(host[i - 8]));
            } else {
                assert(n[i] == path[i - 8 - host.len()]);
                assert(path.contains(path[i - 8 - host.len()]));
            }
        }
    }
    assert(n.subrange(5, 8) =~= "://"@);
    assert forall|j: int| 0 <= j < 5 implies !#[trigger] text::occurs_at(n, "://"@, j) by {
        if text::occurs_at(n, "://"@, j) {
            assert(n.subrange(j, j + 3)[0] == n[j]);
        }
    }
    assert(text::first_occurs(n, "://"@, 5));
    text::lemma_cut(n, "://"@, 5);
    assert(n.take(5) =~= "https"@);
    assert(n.skip(8) =~= rest);
    assert(rest.last() != '/') by {
        if path.len() == 0 {
            assert(rest =~= host);
            assert(host.contains(host.last()));
        } else {
            assert(rest.last() == path.last());
        }
    }
    assert(text::end_trimmed(rest, '/') == rest);
    if path.len() == 0 {
        assert(rest =~= host);
        assert forall|j: int| !#[trigger] text::first_occurs(rest, "/"@, j) by {
            if text::first_occurs(rest, "/"@, j) {
                assert(rest.subrange(j, j + 1)[0] == rest[j]);
                assert(host.contains(host[j]));
            }
        }
        assert(at_slash(rest).1 =~= path);
    } else {
        let k = host.len() as int;
        assert(rest.subrange(k, k + 1) =~= "/"@);
        assert forall|j: int| 0 <= j < k implies !#[trigger] text::occurs_at(rest, "/"@, j) by {
            if text::occurs_at(rest, "/"@, j) {
                assert(rest.subrange(j, j + 1)[0] == rest[j]);
                assert(host.contains(host[j]));
            }
        }
        assert(text::first_occurs(rest, "/"@, k));
        text::lemma_cut(rest, "/"@, k);
        assert(rest.take(k) =~= host);
        assert("/"@ + rest.skip(k + 1) =~= path);
    }
    assert(at_slash(rest) == (host, path));
}

/// A URL in its one spelling is left alone when it is brought into it again,
/// whichever flag it comes from.
pub proof fn law_normalized_urls_are_settled(flag: Seq<char>, other: Seq<char>, value: Seq<char>)
    requires
        normalized(flag, value) is Ok,
    ensures
        normalized(other, normalized(flag, value)->Ok_0) == Ok::<Seq<char>, Seq<char>>(
            normalized(flag, value)->Ok_0,
        ),
{
    let i = lemma_cut_parts(value, "://"@);
    let tail = value.skip(i + "://"@.len());
    let rest = text::end_trimmed(tail, '/');
    lemma_end_trimmed(tail, '/');
    lemma_at_slash(rest);
    let (host, path) = at_slash(rest);
    let low = text::lowered(host);
    assert forall|k: int| 0 <= k < rest.len() implies value.contains(#[trigger] rest[k]) by {
        assert(rest[k] == tail[k]);
        assert(tail[k] == value[i + "://"@.len() + k]);
    }
    assert forall|k: int| 0 <= k < path.len() implies path[k] != '?' && path[k] != '#' by {
        assert(path[k] == rest[host.len() + k]);
        assert(value.contains(rest[host.len() + k]));
    }
    assert forall|k: int| 0 <= k < low.len() implies low[k] != '/' && low[k] != '@' && low[k] != '?'
        && low[k] != '#' && text::lower(low[k]) == low[k] by {
        assert(low[k] == text::lower(host[k]));
        assert(host.contains(host[k]));
        assert(host[k] == rest[k]);
        assert(value.contains(rest[k]));
        if 'A' <= host[k] <= 'Z' {
            assert('a' <= low[k] <= 'z');
        }
    }
    assert(text::lowered(low) =~= low);
    assert(path.len() > 0 ==> path.last() == rest.last());
    lemma_settled(other, low, path);
}

/// Where a token file is named, the process runs with a token, or not at all:
/// a file that cannot be used never leaves it open to everyone.
pub proof fn law_a_token_file_never_disables_authentication(
    args: Args,
    env: Environment,
    files: Files,
    build: Build,
    defaults: Seq<Seq<char>>,
)
    requires
        args.auth_token_file is Some,
    ensures
        choices(args, env, files, build, defaults) matches Ok(d) ==> d.auth_token is Some,
{
}

/// The authorization server is on exactly where an issuer is given, and then
/// requests reach it over TLS only: this process ends it, or a proxy does.
pub proof fn law_oauth_runs_over_tls(
    args: Args,
    env: Environment,
    files: Files,
    build: Build,
    defaults: Seq<Seq<char>>,
)
    ensures
        choices(args, env, files, build, defaults) matches Ok(d) ==> (d.oauth is Some <==> args.oidc_issuer is Some)
            && (d.oauth is Some ==> tls_path(args.tls_cert, env.tls_cert) is Some
            || args.oauth_trust_forwarded_proto),
{
}

/// An https address is brought into its one spelling: the scheme and the host in
/// lower case, the path as it was written, and no slash at the end.
pub proof fn law_an_https_url_is_spelled_in_one_way(
    flag: Seq<char>,
    scheme: Seq<char>,
    host: Seq<char>,
    path: Seq<char>,
    slashes: Seq<char>,
)
    requires
        text::lowered(scheme) == text::lowered("https"@),
        host.len() > 0,
        !host.contains('/') && !host.contains('@') && !host.contains('?') && !host.contains('#'),
        !path.contains('?') && !path.contains('#'),
        path.len() > 0 ==> path[0] == '/' && path.last() != '/',
        forall|i: int| 0 <= i < slashes.len() ==> #[trigger] slashes[i] == '/',
    ensures
        normalized(flag, scheme + "://"@ + host + path + slashes) == Ok::<Seq<char>, Seq<char>>(
            "https://"@ + text::lowered(host) + path,
        ),
{
    reveal_strlit("https");
    reveal_strlit("://");
    reveal_strlit("/");
    let rest = host + path;
    let n = scheme + "://"@ + host + path + slashes;
    assert(text::lowered(scheme).len() == 5);
    assert forall|i: int| 0 <= i < 5 implies scheme[i] != ':' && scheme[i] != '?' && scheme[i] != '#' by {
        assert(text::lowered(scheme)[i] == text::lower(scheme[i]));
        assert(text::lowered("https"@)[i] == text::lower("https"@[i]));
    }
    assert forall|i: int| 0 <= i < n.len() implies n[i] != '?' && n[i] != '#' by {
        if i < 5 {
            assert(n[i] == scheme[i]);
        } else if i >= 8 {
            if i - 8 < host.len() {
                assert(n[i] == host[i - 8]);
                assert(host.contains(host[i - 8]));
            } else if i - 8 - host.len() < path.len() {
                assert(n[i] == path[i - 8 - host.len()]);
                assert(path.contains(path[i - 8 - host.len()]));
            } else {
                assert(n[i] == slashes[i - 8 - host.len() - path.len()]);
            }
        }
    }
    assert(n.subrange(5, 8) =~= "://"@);
    assert forall|j: int| 0 <= j < 5 implies !#[trigger] text::occurs_at(n, "://"@, j) by {
        if text::occurs_at(n, "://"@, j) {
            assert(n.subrange(j, j + 3)[0] == n[j]);
            assert(n[j] == scheme[j]);
        }
    }
    assert(text::first_occurs(n, "://"@, 5));
    text::lemma_cut(n, "://"@, 5);
    assert(n.take(5) =~= scheme);
    assert(n.skip(8) =~= rest + slashes);
    assert(rest.last() != '/') by {
        if path.len() == 0 {
            assert(rest =~= host);
            assert(host.contains(host.last()));
        } else {
            assert(rest.last() == path.last());
        }
    }
    lemma_slashes_go(rest, slashes);
    if path.len() == 0 {
        assert(rest =~= host);
        assert forall|j: int| !#[trigger] text::first_occurs(rest, "/"@, j) by {
            if text::first_occurs(rest, "/"@, j) {
                assert(rest.subrange(j, j + 1)[0] == rest[j]);
                assert(host.contains(host[j]));
            }
        }
        assert(at_slash(rest).1 =~= path);
    } else {
        let k = host.len() as int;
        assert(rest.subrange(k, k + 1) =~= "/"@);
        assert forall|j: int| 0 <= j < k implies !#[trigger] text::occurs_at(rest, "/"@, j) by {
            if text::occurs_at(rest, "/"@, j) {
                assert(rest.subrange(j, j + 1)[0] == rest[j]);
                assert(host.contains(host[j]));
            }
        }
        assert(text::first_occurs(rest, "/"@, k));
        text::lemma_cut(rest, "/"@, k);
        assert(rest.take(k) =~= host);
        assert("/"@ + rest.skip(k + 1) =~= path);
    }
    assert(at_slash(rest) == (host, path));
}

proof fn lemma_slashes_go(s: Seq<char>, slashes: Seq<char>)
    requires
        s.len() > 0,
        s.last() != '/',
        forall|i: int| 0 <= i < slashes.len() ==> #[trigger] slashes[i] == '/',
    ensures
        text::end_trimmed(s + slashes, '/') == s,
    decreases slashes.len(),
{
    if slashes.len() == 0 {
        assert(s + slashes =~= s);
    } else {
        let front = slashes.drop_last();
        assert((s + slashes).last() == slashes[slashes.len() - 1]);
        assert((s + slashes).drop_last() =~= s + front);
        assert forall|i: int| 0 <= i < front.len() implies #[trigger] front[i] == '/' by {
            assert(front[i] == slashes[i]);
        }
        lemma_slashes_go(s, front);
    }
}

/// What cannot name a server is refused: a query, a fragment, another scheme.
pub proof fn law_other_urls_are_refused(flag: Seq<char>, value: Seq<char>)
    ensures
        value.contains('?') || value.contains('#') ==> normalized(flag, value) is Err,
        normalized(flag, value) matches Ok(u) ==> "https://"@.is_prefix_of(u) && (text::cut(value, "://"@)
            matches Some((scheme, _)) && text::lowered(scheme) == text::lowered("https"@)),
{
    if let Ok(u) = normalized(flag, value) {
        assert("https://"@.is_prefix_of(u));
    }
}

/// A flag comes before its variable, whatever the variable holds; a variable that
/// is not empty comes before the default.
pub proof fn law_a_flag_comes_before_its_variable(args: Args, env: Environment, file: FileText)
    ensures
        args.memory_file matches Some(p) ==> memory_path(args, env) == p@,
        (args.memory_file is None && (env.memory_file matches Some(p) && p@.len() > 0)) ==> memory_path(args, env)
            == env.memory_file->0@,
        args.memory_file is None && (env.memory_file matches Some(p) ==> p@.len() == 0) ==> memory_path(args, env)
            == "memory.mcpmem"@,
        args.auth_token matches Some(t) ==> token_of(args, env, file) == Ok::<Option<Seq<char>>, Seq<char>>(
            Some(t@),
        ),
        (args.auth_token is None && args.auth_token_file is None && (env.auth_token matches Some(t) && t@.len() > 0))
            ==> token_of(args, env, file) == Ok::<Option<Seq<char>>, Seq<char>>(Some(env.auth_token->0@)),
        (args.auth_token is None && args.auth_token_file is Some && (file matches Ok(t) && text::trimmed(t@).len()
            > 0)) ==> token_of(args, env, file) == Ok::<Option<Seq<char>>, Seq<char>>(
            Some(text::trimmed(file->Ok_0@)),
        ),
        args.auth_token is None && args.auth_token_file is None && env.auth_token is None ==> token_of(
            args,
            env,
            file,
        ) == Ok::<Option<Seq<char>>, Seq<char>>(None),
        (args.durability matches Some(n) && Durability::named(n@) is Some) ==> Some(durability_of(args, env))
            == Durability::named(args.durability->0@),
        (args.durability is None && (env.durability matches Some(n) && Durability::named(n@) is Some)) ==> Some(
            durability_of(args, env),
        ) == Durability::named(env.durability->0@),
        (args.tls_cert matches Some(p) && p@.len() > 0) ==> tls_path(args.tls_cert, env.tls_cert) == Some(
            args.tls_cert->0@,
        ),
        (args.tls_cert is None && (env.tls_cert matches Some(p) && p@.len() > 0)) ==> tls_path(
            args.tls_cert,
            env.tls_cert,
        ) == Some(env.tls_cert->0@),
{
}

/// A process that is told nothing starts: it serves alone, its token grants every
/// category, and the authorization server is off.
pub proof fn law_a_process_starts_with_what_it_is_told(
    args: Args,
    env: Environment,
    files: Files,
    build: Build,
    defaults: Seq<Seq<char>>,
)
    requires
        args.auth_token_file is None,
        tls_path(args.tls_cert, env.tls_cert) is Some == tls_path(args.tls_key, env.tls_key) is Some,
        args.roles@.len() == 0,
        args.static_bearer_scopes@.len() == 0,
        args.oidc_issuer is None && args.public_url is None && args.oidc_client_id is None
            && args.oidc_client_secret_file is None && args.principals_file is None
            && args.cimd_allowed_domains@.len() == 0 && !args.oauth_trust_forwarded_proto,
    ensures
        choices(args, env, files, build, defaults) matches Ok(d) && d.roles == seq![RuntimeRole::Mcp] && d.oauth
            is None && d.bearer_scopes.contains(ToolCategory::GraphRead) && d.bearer_scopes.contains(
            ToolCategory::GraphWrite,
        ) && d.bearer_scopes.contains(ToolCategory::Vectors) && d.bearer_scopes.contains(ToolCategory::Code)
            && d.auth_token == (match args.auth_token {
            Some(t) => Some(t@),
            None => filled(env.auth_token),
        }),
{
    assert(seq![RuntimeRole::Mcp][0] == RuntimeRole::Mcp);
    assert(seq![RuntimeRole::Mcp].contains(RuntimeRole::Mcp));
    let all = bearer_of(args)->Ok_0;
    assert(all[0] == ToolCategory::GraphRead && all[1] == ToolCategory::GraphWrite && all[2]
        == ToolCategory::Vectors && all[3] == ToolCategory::Code);
}

/// Where the settings are accepted, what is listed in them is what the process
/// runs with: every role, every scope, every principal and every domain.
pub proof fn law_what_is_listed_is_what_runs(
    args: Args,
    env: Environment,
    files: Files,
    build: Build,
    defaults: Seq<Seq<char>>,
    d: Choices,
)
    requires
        choices(args, env, files, build, defaults) == Ok::<Choices, Seq<char>>(d),
    ensures
        args.static_bearer_scopes@.len() > 0 ==> d.bearer_scopes.len() == args.static_bearer_scopes@.len() && forall|
            i: int,
        |
            0 <= i < args.static_bearer_scopes@.len() ==> ToolCategory::named(
                (#[trigger] args.static_bearer_scopes@[i])@,
            ) == Some(d.bearer_scopes[i]),
        d.oauth matches Some(o) ==> {
            &&& args.oidc_client_id matches Some(id) && o.oidc_client_id == id@
            &&& args.cimd_allowed_domains@.len() > 0 ==> o.cimd_allowed_domains == text::texts(
                args.cimd_allowed_domains@,
            )
            &&& args.cimd_allowed_domains@.len() == 0 ==> o.cimd_allowed_domains == defaults
            &&& files.principals matches PrincipalsFile::Entries(list) && list@.len() == o.principals.len()
                && principals::accepted_entries(principals::entries_data(list@)) == Ok::<
                Seq<EntryData>,
                Seq<char>,
            >(o.principals)
            &&& o.trust_forwarded_proto == args.oauth_trust_forwarded_proto
            &&& args.public_url matches Some(u) && normalized("--public-url"@, u@) == Ok::<Seq<char>, Seq<char>>(
                o.public_url,
            )
            &&& args.oidc_client_secret_file is None ==> o.oidc_client_secret is None
            &&& args.oidc_client_secret_file is Some ==> o.oidc_client_secret is Some
            &&& d.roles.contains(RuntimeRole::Mcp)
        },
{
    let names = text::texts(args.static_bearer_scopes@);
    if names.len() > 0 {
        tools::law_every_name_is_read(names);
        assert forall|i: int| 0 <= i < args.static_bearer_scopes@.len() implies ToolCategory::named(
            (#[trigger] args.static_bearer_scopes@[i])@,
        ) == Some(d.bearer_scopes[i]) by {
            assert(names[i] == args.static_bearer_scopes@[i]@);
        }
    }
    if d.oauth is Some {
        if let PrincipalsFile::Entries(list) = files.principals {
            principals::law_accepted_identities_are_distinct(principals::entries_data(list@));
        }
    }
}

/// A wish for connections is granted as it is; without one there are at least one
/// and at most thirty-two, as many as there are processors in between.
pub proof fn law_a_wish_for_connections_is_granted(requested: int, n: usize)
    ensures
        requested != 0 ==> pool_size(requested, Some(n)) == requested && pool_size(requested, None) == requested,
        1 <= n <= 32 ==> pool_size(0, Some(n)) == n,
        1 <= pool_size(0, Some(n)) <= 32,
        pool_size(0, None) == 4,
{
}

/// Mebibytes become kibibytes, as far as the numbers reach.
pub proof fn law_mebibytes_become_kibibytes(mb: int)
    ensures
        -9_007_199_254_740_992 <= mb <= 9_007_199_254_740_991 ==> kilo(mb) == 1024 * mb,
        mb > 9_007_199_254_740_991 ==> kilo(mb) == i64::MAX,
{
}

/// Every role of the list is run, in its place, and without a list the server
/// alone.
pub proof fn law_every_listed_role_is_run(args: Args, build: Build, roles: Seq<RuntimeRole>)
    requires
        roles_of(args, build) == Ok::<Seq<RuntimeRole>, Seq<char>>(roles),
    ensures
        args.roles@.len() == 0 ==> roles == seq![RuntimeRole::Mcp],
        args.roles@.len() > 0 && (forall|i: int|
            0 <= i < args.roles@.len() ==> !(#[trigger] args.roles@[i])@.contains(',')) ==> roles.len()
            == args.roles@.len() && forall|i: int|
            0 <= i < args.roles@.len() ==> text::trimmed((#[trigger] args.roles@[i])@) == roles[i].spelled(),
{
    let names = text::texts(args.roles@);
    if args.roles@.len() > 0 && (forall|i: int|
        0 <= i < args.roles@.len() ==> !(#[trigger] args.roles@[i])@.contains(',')) {
        reveal_strlit(",");
        assert(","@ =~= seq![',']);
        assert forall|i: int| 0 <= i < names.len() implies !(#[trigger] names[i]).contains(',') by {
            assert(names[i] == args.roles@[i]@);
        }
        text::law_joined_parts_are_split_again(names, ',');
        let input = text::joined(names, ","@);
        roles::law_which_selections_are_accepted(input, build.roles);
        assert forall|i: int| 0 <= i < args.roles@.len() implies text::trimmed((#[trigger] args.roles@[i])@)
            == roles[i].spelled() by {
            assert(names[i] == args.roles@[i]@);
            assert(text::split(input, ',')[i] == names[i]);
        }
    }
}

/// An authorization server that is told everything it needs is accepted.
pub proof fn law_a_complete_authorization_server_is_accepted(
    args: Args,
    issuer: Seq<char>,
    files: Files,
    roles: Seq<RuntimeRole>,
    tls: bool,
    defaults: Seq<Seq<char>>,
)
    ensures
        oauth_with(args, issuer, files, roles, tls, defaults) is Ok <==> {
            &&& roles.contains(RuntimeRole::Mcp)
            &&& args.transport == Transport::Http
            &&& tls || args.oauth_trust_forwarded_proto
            &&& normalized("--oidc-issuer"@, issuer) is Ok
            &&& args.public_url matches Some(u) && normalized("--public-url"@, u@) is Ok
            &&& args.oidc_client_id is Some
            &&& args.principals_file is Some
            &&& files.principals matches PrincipalsFile::Entries(list) && list@.len() > 0
                && principals::accepted_entries(principals::entries_data(list@)) is Ok
            &&& args.oidc_client_secret_file is Some ==> (files.client_secret matches Ok(t) && text::trimmed(
                t@,
            ).len() > 0)
        },
{
}

/// Nothing of the settings of the authorization server goes unseen.
pub proof fn law_nothing_goes_unseen(a: OAuthConfig)
    ensures
        a@.public_url == a.public_url@,
        a@.oidc_issuer == a.oidc_issuer@,
        a@.oidc_client_id == a.oidc_client_id@,
        a@.oidc_client_secret == text::opt_text(a.oidc_client_secret),
        a@.principals == principals::entries_data(a.principals@),
        a@.cimd_allowed_domains == text::texts(a.cimd_allowed_domains@),
        a@.trust_forwarded_proto == a.trust_forwarded_proto,
{
}

} // verus!
