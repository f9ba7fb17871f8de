//! Managed remote repositories: which are registered, what state each is in,
//! and what has to be done next to clone, index or remove one.
//!
//! Running git, writing key files and deleting directories is left to the
//! caller. It asks for the next step, performs it and says how it went.
use vstd::prelude::*;

use crate::errors::{invalid, memory, MCSError, Result};
use crate::order::{listed, TextSet};
use crate::table::Table;
use crate::text;
use crate::text::{
    chars_of, cut_at, decimal_of, join, same, split_at_char, starts_with, text_of, to_lower, trim,
};

verus! {

/// How long git may run, in milliseconds: ten minutes.
pub const GIT_TIMEOUT_MS: u64 = 600_000;

/// How many lines of git's complaint are kept.
pub const GIT_TAIL_LINES: usize = 12;

/// A repository that someone wants registered.
#[derive(Debug)]
pub struct RepoInput {
    pub key: String,
    pub url: String,
    /// `none`, `token` or `ssh`.
    pub auth_kind: String,
    pub auth_secret: Option<String>,
    pub snippets: bool,
}

/// The kind of credential where none was named.
pub fn none_kind() -> (r: String)
    ensures
        r@ == "none"@,
{
    "none".to_owned()
}

/// What is being done to a repository.
#[derive(Clone, Copy, Debug, PartialEq, Eq, Structural)]
pub enum RepoState {
    Pending,
    Cloning,
    Indexing,
    Indexed,
    Error,
    Removing,
}

impl RepoState {
    /// The state as it is written.
    pub open spec fn spelled(self) -> Seq<char> {
        match self {
            RepoState::Pending => "pending"@,
            RepoState::Cloning => "cloning"@,
            RepoState::Indexing => "indexing"@,
            RepoState::Indexed => "indexed"@,
            RepoState::Error => "error"@,
            RepoState::Removing => "removing"@,
        }
    }

    /// The state as it is written.
    pub fn name(self) -> (r: &'static str)
        ensures
            r@ == self.spelled(),
    {
        match self {
            RepoState::Pending => "pending",
            RepoState::Cloning => "cloning",
            RepoState::Indexing => "indexing",
            RepoState::Indexed => "indexed",
            RepoState::Error => "error",
            RepoState::Removing => "removing",
        }
    }

    /// A job is at work in this state.
    pub open spec fn transient(self) -> bool {
        self is Cloning || self is Indexing || self is Removing
    }
}

/// A repository as it is shown. The credential never leaves the store.
#[derive(Debug)]
pub struct RepoRow {
    pub key: String,
    pub url: String,
    pub auth_kind: String,
    pub snippets: bool,
    pub state: String,
    pub last_error: Option<String>,
    pub last_indexed_us: Option<i64>,
}

/// What is shown of a repository.
#[verifier::ext_equal]
pub struct ShownData {
    pub key: Seq<char>,
    pub url: Seq<char>,
    pub auth_kind: Seq<char>,
    pub snippets: bool,
    pub state: Seq<char>,
    pub last_error: Option<Seq<char>>,
    pub last_indexed_us: Option<i64>,
}

impl View for RepoRow {
    type V = ShownData;

    open spec fn view(&self) -> ShownData {
        ShownData {
            key: self.key@,
            url: self.url@,
            auth_kind: self.auth_kind@,
            snippets: self.snippets,
            state: self.state@,
            last_error: text::opt_text(self.last_error),
            last_indexed_us: self.last_indexed_us,
        }
    }
}

/// A repository as it is stored, with its credential.
#[derive(Debug)]
pub struct RepoRecord {
    pub url: String,
    pub auth_kind: String,
    pub auth_secret: Option<String>,
    pub snippets: bool,
    pub state: RepoState,
    pub last_error: Option<String>,
    pub last_indexed_us: Option<i64>,
}

/// What is stored of a repository.
#[verifier::ext_equal]
pub struct RepoData {
    pub url: Seq<char>,
    pub auth_kind: Seq<char>,
    pub auth_secret: Option<Seq<char>>,
    pub snippets: bool,
    pub state: RepoState,
    pub last_error: Option<Seq<char>>,
    pub last_indexed_us: Option<i64>,
}

impl View for RepoRecord {
    type V = RepoData;

    open spec fn view(&self) -> RepoData {
        RepoData {
            url: self.url@,
            auth_kind: self.auth_kind@,
            auth_secret: text::opt_text(self.auth_secret),
            snippets: self.snippets,
            state: self.state,
            last_error: text::opt_text(self.last_error),
            last_indexed_us: self.last_indexed_us,
        }
    }
}

/// What is shown of a stored repository.
pub open spec fn shown(key: Seq<char>, d: RepoData) -> ShownData {
    ShownData {
        key,
        url: d.url,
        auth_kind: d.auth_kind,
        snippets: d.snippets,
        state: d.state.spelled(),
        last_error: d.last_error,
        last_indexed_us: d.last_indexed_us,
    }
}

/// What is shown of a repository does not depend on its credential.
pub proof fn law_the_credential_is_never_shown(key: Seq<char>, d: RepoData, secret: Option<Seq<char>>)
    ensures
        shown(key, d) == shown(key, RepoData { auth_secret: secret, ..d }),
{
}

fn copy_opt(s: &Option<String>) -> (r: Option<String>)
    ensures
        text::opt_text(r) == text::opt_text(*s),
{
    match s {
        Some(v) => Some(v.clone()),
        None => None,
    }
}

// ---------------------------------------------------------------------------
// Checking a registration
// ---------------------------------------------------------------------------

/// What stands before the first slash.
pub open spec fn before_slash(s: Seq<char>) -> Seq<char> {
    text::split(s, '/')[0]
}

/// The part of a URL that names the host.
pub open spec fn authority(url: Seq<char>) -> Seq<char> {
    match text::cut(url, "://"@) {
        Some((_, rest)) => before_slash(rest),
        None => before_slash(url),
    }
}

/// A password stands before the host. A bare user name is no credential.
pub open spec fn carries_password(a: Seq<char>) -> bool {
    exists|i: int, j: int| 0 <= i < j < a.len() && #[trigger] a[i] == ':' && #[trigger] a[j] == '@'
}

/// What is wrong with a URL.
pub open spec fn url_fault(url: Seq<char>) -> Option<Seq<char>> {
    if text::trimmed(url).len() == 0 {
        Some("url is required"@)
    } else if carries_password(authority(url)) {
        Some("url must not embed credentials; pass authSecret instead"@)
    } else {
        None
    }
}

fn has_password(a: &str) -> (r: bool)
    ensures
        r == carries_password(a@),
{
    let v: Vec<char> = chars_of(a);
    let mut colon: bool = false;
    let ghost mut at: int = 0;
    let mut i: usize = 0;
    while i < v.len()
        invariant
            i <= v@.len(),
            v@ == a@,
            colon ==> 0 <= at < i && a@[at] == ':',
            !colon ==> forall|j: int| 0 <= j < i ==> #[trigger] a@[j] != ':',
            forall|j: int, k: int| 0 <= j < k < i ==> !(#[trigger] a@[j] == ':' && #[trigger] a@[k] == '@'),
        decreases v@.len() - i,
    {
        if colon && v[i] == '@' {
            assert(a@[at] == ':' && a@[i as int] == '@');
            return true;
        }
        if !colon && v[i] == ':' {
            colon = true;
            proof {
                at = i as int;
            }
        }
        i += 1;
    }
    false
}

/// Refuses a URL that is empty or carries a password.
pub fn validate_url(url: &str) -> (r: Result<()>)
    ensures
        match url_fault(url@) {
            Some(why) => r matches Err(MCSError::InvalidParams(m)) && m@ == why,
            None => r is Ok,
        },
{
    let bare: String = trim(url);
    if bare.as_str().is_empty() {
        return Err(invalid("url is required"));
    }
    let host: String = match cut_at(url, "://") {
        Some((_, rest)) => first_part(&rest),
        None => first_part(url),
    };
    if has_password(&host) {
        return Err(invalid("url must not embed credentials; pass authSecret instead"));
    }
    Ok(())
}

fn first_part(s: &str) -> (r: String)
    ensures
        r@ == before_slash(s@),
{
    let parts: Vec<String> = split_at_char(s, '/');
    assert(text::texts(parts@)[0] == parts@[0]@);
    parts[0].clone()
}

/// What is wrong with a credential.
pub open spec fn auth_fault(kind: Seq<char>, secret: Option<Seq<char>>) -> Option<Seq<char>> {
    if kind == "none"@ {
        if secret is Some {
            Some("auth_kind 'none' must not carry authSecret"@)
        } else {
            None
        }
    } else if kind == "token"@ || kind == "ssh"@ {
        if secret is Some && text::trimmed(secret->0).len() > 0 {
            None
        } else {
            Some("auth_kind '"@ + kind + "' requires authSecret"@)
        }
    } else {
        Some("auth_kind must be one of none, token, ssh; got '"@ + kind + "'"@)
    }
}

/// Refuses a credential that its kind does not take, and a kind that there is
/// not.
pub fn validate_auth(kind: &str, secret: &Option<String>) -> (r: Result<()>)
    ensures
        match auth_fault(kind@, text::opt_text(*secret)) {
            Some(why) => r matches Err(MCSError::InvalidParams(m)) && m@ == why,
            None => r is Ok,
        },
{
    if same(kind, "none") {
        return match secret {
            Some(_) => Err(invalid("auth_kind 'none' must not carry authSecret")),
            None => Ok(()),
        };
    }
    if same(kind, "token") || same(kind, "ssh") {
        if let Some(s) = secret {
            let bare: String = trim(s);
            if !bare.as_str().is_empty() {
                return Ok(());
            }
        }
        return Err(
            MCSError::InvalidParams("auth_kind '".to_owned().concat(kind).concat("' requires authSecret")),
        );
    }
    Err(
        MCSError::InvalidParams(
            "auth_kind must be one of none, token, ssh; got '".to_owned().concat(kind).concat("'"),
        ),
    )
}

// ---------------------------------------------------------------------------
// Paths and git
// ---------------------------------------------------------------------------

/// A path below another. An absolute path stays what it is.
pub open spec fn below(base: Seq<char>, path: Seq<char>) -> Seq<char> {
    if path.len() > 0 && path[0] == '/' {
        path
    } else {
        base + "/"@ + path
    }
}

fn path_below(base: &str, path: &str) -> (r: String)
    ensures
        r@ == below(base@, path@),
{
    proof {
        reveal_strlit("/");
        assert("/"@.is_prefix_of(path@) == (path@.len() > 0 && path@[0] == '/')) by {
            if path@.len() > 0 && path@[0] == '/' {
                assert("/"@ =~= path@.subrange(0, 1));
            }
            if "/"@.is_prefix_of(path@) {
                assert("/"@[0] == path@.subrange(0, 1)[0]);
            }
        }
    }
    if starts_with(path, "/") {
        path.to_owned()
    } else {
        base.to_owned().concat("/").concat(path)
    }
}

/// The directory of everything that belongs to a database's code index.
pub open spec fn code_dir(database: Seq<char>) -> Seq<char> {
    database + ".code"@
}

/// The directory that holds the worktrees.
pub open spec fn repos_dir(database: Seq<char>) -> Seq<char> {
    below(code_dir(database), "repos"@)
}

/// The lines of a text, without what ends them.
pub open spec fn lines(s: Seq<char>) -> Seq<Seq<char>> {
    let parts = text::split(s, '\n');
    let ended = parts.drop_last().map_values(|p: Seq<char>| without_return(p));
    if parts.last().len() == 0 {
        ended
    } else {
        ended.push(parts.last())
    }
}

/// A line without the carriage return at its end.
pub open spec fn without_return(p: Seq<char>) -> Seq<char> {
    if p.len() > 0 && p.last() == '\r' {
        p.drop_last()
    } else {
        p
    }
}

/// The last lines of a text.
pub open spec fn tail(s: Seq<char>) -> Seq<char> {
    let all = lines(s);
    text::joined(
        if all.len() <= GIT_TAIL_LINES {
            all
        } else {
            all.skip(all.len() - GIT_TAIL_LINES)
        },
        "\n"@,
    )
}

fn strip_return(p: &str) -> (r: String)
    ensures
        r@ == without_return(p@),
{
    let mut v: Vec<char> = chars_of(p);
    let n: usize = v.len();
    if n > 0 && v[n - 1] == '\r' {
        let _ = v.pop();
        assert(v@ =~= p@.drop_last());
    }
    text_of(&v)
}

fn lines_of(s: &str) -> (r: Vec<String>)
    ensures
        text::texts(r@) == lines(s@),
{
    let parts: Vec<String> = split_at_char(s, '\n');
    let ghost all = text::texts(parts@);
    let n: usize = parts.len();
    let mut out: Vec<String> = Vec::new();
    let mut i: usize = 0;
    let ghost ended = all.drop_last().map_values(|p: Seq<char>| without_return(p));
    assert(text::texts(out@) =~= ended.take(0));
    while i < n - 1
        invariant
            1 <= n == parts@.len(),
            i <= n - 1,
            all == text::texts(parts@),
            ended == all.drop_last().map_values(|p: Seq<char>| without_return(p)),
            text::texts(out@) == ended.take(i as int),
        decreases n - i,
    {
        let ghost done = text::texts(out@);
        let line: String = strip_return(&parts[i]);
        assert(line@ == ended[i as int]);
        out.push(line);
        assert(text::texts(out@) =~= done.push(ended[i as int]));
        assert(text::texts(out@) =~= ended.take(i + 1));
        i += 1;
    }
    assert(ended.take(n - 1) =~= ended);
    assert(all.last() == parts@[n - 1]@);
    if !parts[n - 1].as_str().is_empty() {
        out.push(parts[n - 1].clone());
        assert(text::texts(out@) =~= ended.push(all.last()));
    }
    out
}

fn tail_of(s: &str) -> (r: String)
    ensures
        r@ == tail(s@),
{
    let mut all: Vec<String> = lines_of(s);
    let ghost every = text::texts(all@);
    assert(every.len() == all@.len());
    let n: usize = all.len();
    if n > GIT_TAIL_LINES {
        let last: Vec<String> = all.split_off(n - GIT_TAIL_LINES);
        assert(text::texts(last@) =~= every.skip(n - GIT_TAIL_LINES));
        return join(&last, "\n");
    }
    join(&all, "\n")
}

/// A whole number in decimal.
pub open spec fn signed(n: int) -> Seq<char> {
    if n < 0 {
        "-"@ + text::decimal((-n) as nat)
    } else {
        text::decimal(n as nat)
    }
}

fn signed_of(n: i32) -> (r: String)
    ensures
        r@ == signed(n as int),
{
    if n < 0 {
        let m: i64 = n as i64;
        "-".to_owned().concat(&decimal_of((-m) as u64))
    } else {
        decimal_of(n as u64)
    }
}

/// What waiting for git comes to.
#[derive(Clone, Copy, Debug, PartialEq, Eq, Structural)]
pub enum GitWait {
    Exited,
    /// Git ran too long and is to be ended.
    TimedOut,
    /// Look again in a while.
    Wait,
}

/// What to do about a git process that started `elapsed_ms` ago.
pub fn git_wait(exited: bool, elapsed_ms: u64) -> (r: GitWait)
    ensures
        r == (if exited {
            GitWait::Exited
        } else if elapsed_ms > GIT_TIMEOUT_MS {
            GitWait::TimedOut
        } else {
            GitWait::Wait
        }),
{
    if exited {
        GitWait::Exited
    } else if elapsed_ms > GIT_TIMEOUT_MS {
        GitWait::TimedOut
    } else {
        GitWait::Wait
    }
}

/// The complaint about a git process that ran too long.
pub fn git_timed_out() -> (r: String)
    ensures
        r@ == "git timed out after 600s"@,
{
    "git timed out after 600s".to_owned()
}

/// What a git process that ended came to: what it printed, or the end of what
/// it complained about.
pub fn git_ended(success: bool, code: Option<i32>, out: String, err: &str) -> (r: std::result::Result<
    String,
    String,
>)
    ensures
        success ==> r == Ok::<String, String>(out),
        !success ==> (r matches Err(m) && m@ == "git failed (exit "@ + signed(
            match code {
                Some(c) => c as int,
                None => -1,
            },
        ) + "): "@ + tail(err@)),
{
    if success {
        return Ok(out);
    }
    let number: i32 = match code {
        Some(c) => c,
        None => -1,
    };
    Err("git failed (exit ".to_owned().concat(&signed_of(number)).concat("): ").concat(&tail_of(err)))
}

/// The arguments of a clone.
pub fn clone_args(url: &str, target: &str) -> (r: Vec<String>)
    ensures
        text::texts(r@) == seq!["clone"@, "--quiet"@, url@, target@],
{
    let mut out: Vec<String> = Vec::new();
    out.push("clone".to_owned());
    out.push("--quiet".to_owned());
    out.push(url.to_owned());
    out.push(target.to_owned());
    assert(text::texts(out@) =~= seq!["clone"@, "--quiet"@, url@, target@]);
    out
}

/// The arguments that bring what the remote has.
pub fn fetch_args() -> (r: Vec<String>)
    ensures
        text::texts(r@) == seq!["fetch"@, "--quiet"@, "origin"@],
{
    let mut out: Vec<String> = Vec::new();
    out.push("fetch".to_owned());
    out.push("--quiet".to_owned());
    out.push("origin".to_owned());
    assert(text::texts(out@) =~= seq!["fetch"@, "--quiet"@, "origin"@]);
    out
}

/// The arguments that bring a worktree to what the remote has.
pub fn reset_args() -> (r: Vec<String>)
    ensures
        text::texts(r@) == seq!["reset"@, "--hard"@, "--quiet"@, "@{u}"@],
{
    let mut out: Vec<String> = Vec::new();
    out.push("reset".to_owned());
    out.push("--hard".to_owned());
    out.push("--quiet".to_owned());
    out.push("@{u}".to_owned());
    assert(text::texts(out@) =~= seq!["reset"@, "--hard"@, "--quiet"@, "@{u}"@]);
    out
}

/// The arguments that ask whether a worktree is whole.
pub fn status_args() -> (r: Vec<String>)
    ensures
        text::texts(r@) == seq!["status"@, "--porcelain"@],
{
    let mut out: Vec<String> = Vec::new();
    out.push("status".to_owned());
    out.push("--porcelain".to_owned());
    assert(text::texts(out@) =~= seq!["status"@, "--porcelain"@]);
    out
}

/// Whether a directory is a worktree that can be used: git's files are there,
/// and git agrees.
pub fn worktree_valid(has_git: bool, has_head: bool, status_ok: bool) -> (r: bool)
    ensures
        r == ((has_git || has_head) && status_ok),
{
    (has_git || has_head) && status_ok
}

// ---------------------------------------------------------------------------
// Credentials
// ---------------------------------------------------------------------------

/// A key file that has to be there, for its owner alone, while git runs.
#[derive(Debug)]
pub struct SshKey {
    pub path: String,
    pub secret: String,
}

/// A credential as git takes it: variables of its environment and, for a key,
/// a file.
#[derive(Debug)]
pub struct PreparedAuth {
    pub envs: Vec<(String, String)>,
    pub ssh_key: Option<SshKey>,
}

/// The file that a key is written to.
pub open spec fn key_path(database: Seq<char>, key: Seq<char>, process: nat) -> Seq<char> {
    below(repos_dir(database), ".ssh-"@ + key + "-"@ + text::decimal(process))
}

/// What keeps a credential from being used.
pub open spec fn prepare_fault(d: RepoData) -> Option<Seq<char>> {
    if d.auth_kind == "none"@ {
        None
    } else if d.auth_kind == "token"@ {
        if d.auth_secret is None {
            Some("token row has no secret"@)
        } else {
            None
        }
    } else if d.auth_kind == "ssh"@ {
        if d.auth_secret is None {
            Some("ssh row has no secret"@)
        } else {
            None
        }
    } else {
        Some("unknown auth_kind '"@ + d.auth_kind + "'"@)
    }
}

/// The credential of a repository, prepared.
pub open spec fn prepared(
    a: PreparedAuth,
    database: Seq<char>,
    key: Seq<char>,
    d: RepoData,
    process: nat,
) -> bool {
    let envs = crate::upstream::pair_texts(a.envs@);
    if d.auth_kind == "none"@ {
        envs == Seq::<(Seq<char>, Seq<char>)>::empty() && a.ssh_key is None
    } else if d.auth_kind == "token"@ {
        &&& envs == seq![
            ("GIT_CONFIG_KEY_0"@, "http.extraHeader"@),
            ("GIT_CONFIG_VALUE_0"@, "Authorization: Bearer "@ + d.auth_secret->0),
        ]
        &&& a.ssh_key is None
    } else {
        let path = key_path(database, key, process);
        &&& envs == seq![
            (
                "GIT_SSH_COMMAND"@,
                "ssh -i "@ + path + " -o IdentitiesOnly=yes -o StrictHostKeyChecking=accept-new"@,
            ),
        ]
        &&& a.ssh_key matches Some(k) && k.path@ == path && k.secret@ == d.auth_secret->0
    }
}

/// Prepares the credential of a repository.
pub fn prepare_auth(database: &str, key: &str, row: &RepoRecord, process: u32) -> (r: Result<PreparedAuth>)
    ensures
        match prepare_fault(row@) {
            Some(why) => r matches Err(MCSError::MemoryError(m)) && m@ == why,
            None => r matches Ok(a) && prepared(a, database@, key@, row@, process as nat),
        },
{
    proof {
        reveal_strlit("none");
        reveal_strlit("token");
        reveal_strlit("ssh");
        assert("none"@.len() == 4 && "token"@.len() == 5 && "ssh"@.len() == 3);
    }
    let mut envs: Vec<(String, String)> = Vec::new();
    if same(&row.auth_kind, "none") {
        assert(crate::upstream::pair_texts(envs@) =~= Seq::<(Seq<char>, Seq<char>)>::empty());
        return Ok(PreparedAuth { envs, ssh_key: None });
    }
    if same(&row.auth_kind, "token") {
        return match &row.auth_secret {
            Some(secret) => {
                envs.push(("GIT_CONFIG_KEY_0".to_owned(), "http.extraHeader".to_owned()));
                envs.push(
                    ("GIT_CONFIG_VALUE_0".to_owned(), "Authorization: Bearer ".to_owned().concat(secret)),
                );
                assert(crate::upstream::pair_texts(envs@) =~= seq![
                    ("GIT_CONFIG_KEY_0"@, "http.extraHeader"@),
                    ("GIT_CONFIG_VALUE_0"@, "Authorization: Bearer "@ + secret@),
                ]);
                Ok(PreparedAuth { envs, ssh_key: None })
            },
            None => Err(memory("token row has no secret")),
        };
    }
    if same(&row.auth_kind, "ssh") {
        return match &row.auth_secret {
            Some(secret) => {
                let name: String = ".ssh-".to_owned().concat(key).concat("-").concat(
                    &decimal_of(process as u64),
                );
                let path: String = path_below(
                    &path_below(&database.to_owned().concat(".code"), "repos"),
                    &name,
                );
                let command: String = "ssh -i ".to_owned().concat(&path).concat(
                    " -o IdentitiesOnly=yes -o StrictHostKeyChecking=accept-new",
                );
                let ghost c = command@;
                envs.push(("GIT_SSH_COMMAND".to_owned(), command));
                assert(crate::upstream::pair_texts(envs@) =~= seq![("GIT_SSH_COMMAND"@, c)]);
                Ok(PreparedAuth { envs, ssh_key: Some(SshKey { path, secret: secret.clone() }) })
            },
            None => Err(memory("ssh row has no secret")),
        };
    }
    Err(MCSError::MemoryError("unknown auth_kind '".to_owned().concat(&row.auth_kind).concat("'")))
}

// ---------------------------------------------------------------------------
// The registered repositories
// ---------------------------------------------------------------------------

/// The state after a change of it. What was said of an earlier failure is
/// replaced, and the time of the last index kept where no new one is given.
pub open spec fn moved(
    rows: Map<Seq<char>, RepoData>,
    key: Seq<char>,
    state: RepoState,
    last_error: Option<Seq<char>>,
    last_indexed_us: Option<i64>,
) -> Map<Seq<char>, RepoData> {
    if rows.contains_key(key) {
        rows.insert(
            key,
            RepoData {
                state,
                last_error,
                last_indexed_us: if last_indexed_us is Some {
                    last_indexed_us
                } else {
                    rows[key].last_indexed_us
                },
                ..rows[key]
            },
        )
    } else {
        rows
    }
}

/// The rows once nothing is at work on any of them.
pub open spec fn recovered(rows: Map<Seq<char>, RepoData>) -> Map<Seq<char>, RepoData> {
    rows.map_values(
        |d: RepoData|
            if d.state.transient() {
                RepoData { state: RepoState::Pending, ..d }
            } else {
                d
            },
    )
}

/// After a restart no repository is shown as being worked on, and every one is
/// still registered.
pub proof fn law_a_restart_leaves_no_job_behind(rows: Map<Seq<char>, RepoData>)
    ensures
        recovered(rows).dom() == rows.dom(),
        forall|k: Seq<char>| #[trigger]
            recovered(rows).contains_key(k) ==> !recovered(rows)[k].state.transient(),
        recovered(recovered(rows)) == recovered(rows),
{
    assert(recovered(rows).dom() =~= rows.dom());
    assert(recovered(recovered(rows)) =~= recovered(rows));
}

/// The repositories that are listed: all but those being removed.
pub open spec fn visible(rows: Map<Seq<char>, RepoData>) -> Set<Seq<char>> {
    rows.dom().filter(|k: Seq<char>| !(rows[k].state is Removing))
}

/// What a job is for.
#[derive(Clone, Copy, Debug, PartialEq, Eq, Structural)]
pub enum RepoJob {
    Add,
    Reindex,
}

/// What has to happen next for a job.
pub enum RepoStep {
    /// Nothing: the counters of the index, or why there are none.
    Finished(Result<String>),
    /// The worktree has to be brought up to date.
    CheckOut { url: String, worktree: String, auth: PreparedAuth, snippets: bool },
    /// The worktree has to be indexed.
    Index { worktree: String, snippets: bool },
}

/// What has to be done to a worktree.
#[derive(Clone, Copy, Debug, PartialEq, Eq, Structural)]
pub enum Checkout {
    /// Nothing: it is there.
    Keep,
    /// Bring what the remote has.
    Update,
    /// Clone it, once what is in the way is gone.
    Clone { clean: bool },
}

/// What has to be done to a worktree for a job: a usable one is kept when a
/// repository is added and updated when it is indexed again.
pub fn checkout(job: RepoJob, valid: bool, exists: bool) -> (r: Checkout)
    ensures
        r == (if !valid {
            Checkout::Clone { clean: exists }
        } else if job == RepoJob::Add {
            Checkout::Keep
        } else {
            Checkout::Update
        }),
{
    if !valid {
        Checkout::Clone { clean: exists }
    } else {
        match job {
            RepoJob::Add => Checkout::Keep,
            RepoJob::Reindex => Checkout::Update,
        }
    }
}

/// What has to be deleted to remove a repository, in this order.
#[derive(Debug)]
pub struct Removal {
    /// The index and the files beside it.
    pub files: Vec<String>,
    pub worktree: String,
}

/// What deleting something came to.
#[derive(Debug)]
pub enum Deletion {
    Gone,
    /// It was not there.
    Missing,
    Failed(String),
}

/// What a request to work on a repository does to those that are worked on, and
/// whether it may go ahead: only where nobody works on that one.
pub open spec fn reserves(before: Set<Seq<char>>, after: Set<Seq<char>>, key: Seq<char>, free: bool) -> bool {
    &&& after == before.insert(key)
    &&& free == !before.contains(key)
}

/// The registered repositories, and the jobs that are at work.
pub struct RepoStore {
    database: String,
    git_ok: bool,
    table: Table<RepoRecord>,
    running: Table<()>,
}

/// The complaint about a host without git.
pub const NO_GIT: &'static str = "the git binary is not available on this host";

/// No repository has that key.
pub open spec fn is_unknown(e: MCSError, key: Seq<char>) -> bool {
    e matches MCSError::InvalidParams(m) && m@ == "no such repo '"@ + key + "'"@
}

fn unknown(key: &str) -> (r: MCSError)
    ensures
        is_unknown(r, key@),
{
    MCSError::InvalidParams("no such repo '".to_owned().concat(key).concat("'"))
}

impl RepoStore {
    /// The rows, by key.
    pub closed spec fn rows(self) -> Map<Seq<char>, RepoData> {
        self.table@.map_values(|r: RepoRecord| r@)
    }

    /// The repositories that a job is at work on.
    pub closed spec fn busy(self) -> Set<Seq<char>> {
        self.running@.dom()
    }

    /// The database that the repositories belong to.
    pub closed spec fn base(self) -> Seq<char> {
        self.database@
    }

    /// Whether git can be run.
    pub closed spec fn has_git(self) -> bool {
        self.git_ok
    }

    /// Only the rows differ.
    pub open spec fn same_but_rows(self, other: RepoStore) -> bool {
        self.busy() == other.busy() && self.base() == other.base() && self.has_git() == other.has_git()
    }

    /// A store without repositories.
    pub fn new(database: &str, git_ok: bool) -> (r: RepoStore)
        ensures
            r.rows() == Map::<Seq<char>, RepoData>::empty(),
            r.busy() == Set::<Seq<char>>::empty(),
            r.base() == database@,
            r.has_git() == git_ok,
    {
        let r: RepoStore = RepoStore {
            database: database.to_owned(),
            git_ok,
            table: Table::new(),
            running: Table::new(),
        };
        assert(r.rows() =~= Map::<Seq<char>, RepoData>::empty());
        assert(r.busy() =~= Set::<Seq<char>>::empty());
        r
    }

    /// Puts a row back that was stored before.
    pub fn load(&mut self, key: &str, row: RepoRecord)
        ensures
            final(self).rows() == old(self).rows().insert(key@, row@),
            final(self).same_but_rows(*old(self)),
    {
        self.table.insert(key, row);
        assert(self.rows() =~= old(self).rows().insert(key@, row@));
    }

    /// The row of a repository, with its credential.
    pub fn full_row(&self, key: &str) -> (r: Option<&RepoRecord>)
        ensures
            match r {
                Some(row) => self.rows().contains_key(key@) && row@ == self.rows()[key@],
                None => !self.rows().contains_key(key@),
            },
    {
        self.table.get(key)
    }

    /// A repository as it is shown.
    pub fn get_row(&self, key: &str) -> (r: Option<RepoRow>)
        ensures
            match r {
                Some(row) => self.rows().contains_key(key@) && row@ == shown(key@, self.rows()[key@]),
                None => !self.rows().contains_key(key@),
            },
    {
        match self.full_row(key) {
            Some(row) => Some(
                RepoRow {
                    key: key.to_owned(),
                    url: row.url.clone(),
                    auth_kind: row.auth_kind.clone(),
                    snippets: row.snippets,
                    state: row.state.name().to_owned(),
                    last_error: copy_opt(&row.last_error),
                    last_indexed_us: row.last_indexed_us,
                },
            ),
            None => None,
        }
    }

    /// The keys of the repositories that are listed.
    fn visible_keys(&self) -> (r: TextSet)
        ensures
            r@ == visible(self.rows()),
    {
        let mut out: TextSet = TextSet::new();
        let n: usize = self.table.len();
        let ghost entries = self.table.entries();
        let mut i: usize = 0;
        proof {
            crate::table::lemma_map_of(entries);
        }
        while i < n
            invariant
                i <= n == entries.len(),
                entries == self.table.entries(),
                self.table@ == crate::table::map_of(entries),
                forall|j: int|
                    0 <= j < entries.len() ==> self.table@.contains_key((#[trigger] entries[j]).0)
                        && self.table@[entries[j].0] == entries[j].1,
                forall|k: Seq<char>| #[trigger]
                    out@.contains(k) ==> visible(self.rows()).contains(k),
                forall|j: int|
                    0 <= j < i && !((#[trigger] entries[j]).1.state is Removing) ==> out@.contains(
                        entries[j].0,
                    ),
            decreases n - i,
        {
            let row: &RepoRecord = self.table.row_at(i);
            assert(entries[i as int].1 == *row);
            let hidden: bool = match row.state {
                RepoState::Removing => true,
                _ => false,
            };
            if !hidden {
                let key: &String = self.table.key_at(i);
                let _ = out.insert(key);
                assert(visible(self.rows()).contains(key@));
            }
            i += 1;
        }
        assert forall|k: Seq<char>| #[trigger] visible(self.rows()).contains(k) implies out@.contains(k) by {
            assert(crate::table::map_of(entries).contains_key(k));
            let j = choose|j: int| 0 <= j < entries.len() && (#[trigger] entries[j]).0 == k;
            assert(entries[j].0 == k);
        }
        assert(out@ =~= visible(self.rows()));
        out
    }

    /// The repositories in the order of their keys, without those being
    /// removed.
    pub fn list(&self) -> (r: Vec<RepoRow>)
        ensures
            r@.len() == listed(visible(self.rows())).len(),
            forall|i: int|
                0 <= i < r@.len() ==> (#[trigger] r@[i])@ == shown(
                    listed(visible(self.rows()))[i],
                    self.rows()[listed(visible(self.rows()))[i]],
                ),
    {
        let keys: Vec<String> = self.visible_keys().to_vec();
        let ghost order = listed(visible(self.rows()));
        let mut out: Vec<RepoRow> = Vec::new();
        let mut i: usize = 0;
        while i < keys.len()
            invariant
                i <= keys@.len(),
                order == listed(visible(self.rows())),
                text::texts(keys@) == order,
                order.to_set() == visible(self.rows()),
                out@.len() == i,
                forall|j: int|
                    0 <= j < i ==> (#[trigger] out@[j])@ == shown(order[j], self.rows()[order[j]]),
            decreases keys@.len() - i,
        {
            assert(keys@[i as int]@ == order[i as int]);
            assert(order.to_set().contains(order[i as int]));
            match self.get_row(&keys[i]) {
                Some(row) => {
                    out.push(row);
                },
                None => {
                    assert(false);
                },
            }
            i += 1;
        }
        out
    }

    /// Sets the state of a repository.
    pub fn set_state(
        &mut self,
        key: &str,
        state: RepoState,
        last_error: Option<String>,
        last_indexed_us: Option<i64>,
    )
        ensures
            final(self).rows() == moved(
                old(self).rows(),
                key@,
                state,
                text::opt_text(last_error),
                last_indexed_us,
            ),
            final(self).same_but_rows(*old(self)),
    {
        if let Some(row) = self.table.remove(key) {
            let row: RepoRecord = RepoRecord {
                url: row.url,
                auth_kind: row.auth_kind,
                auth_secret: row.auth_secret,
                snippets: row.snippets,
                state,
                last_error,
                last_indexed_us: if last_indexed_us.is_some() {
                    last_indexed_us
                } else {
                    row.last_indexed_us
                },
            };
            self.table.insert(key, row);
        }
        assert(self.rows() =~= moved(
            old(self).rows(),
            key@,
            state,
            text::opt_text(last_error),
            last_indexed_us,
        ));
    }

    /// Puts every row that a job was at work on when the program ended back in
    /// the queue.
    pub fn recover(&mut self)
        ensures
            final(self).rows() == recovered(old(self).rows()),
            final(self).same_but_rows(*old(self)),
    {
        let ghost start = self.table.entries();
        let n: usize = self.table.len();
        let mut i: usize = 0;
        proof {
            crate::table::lemma_map_of(start);
        }
        while i < n
            invariant
                i <= n == start.len(),
                self.table.entries().len() == n,
                self.running == old(self).running,
                self.database == old(self).database,
                self.git_ok == old(self).git_ok,
                old(self).table@ == crate::table::map_of(start),
                crate::table::keys_distinct(start),
                forall|j: int|
                    0 <= j < n ==> (#[trigger] self.table.entries()[j]).0 == start[j].0,
                forall|j: int| i <= j < n ==> (#[trigger] self.table.entries()[j]) == start[j],
                forall|j: int|
                    0 <= j < i ==> (#[trigger] self.table.entries()[j]).1@ == (if start[j].1.state.transient() {
                        RepoData { state: RepoState::Pending, ..start[j].1@ }
                    } else {
                        start[j].1@
                    }),
            decreases n - i,
        {
            let row: &RepoRecord = self.table.row_at(i);
            assert(self.table.entries()[i as int] == start[i as int]);
            let stuck: bool = match row.state {
                RepoState::Cloning | RepoState::Indexing | RepoState::Removing => true,
                _ => false,
            };
            if stuck {
                let fresh: RepoRecord = RepoRecord {
                    url: row.url.clone(),
                    auth_kind: row.auth_kind.clone(),
                    auth_secret: copy_opt(&row.auth_secret),
                    snippets: row.snippets,
                    state: RepoState::Pending,
                    last_error: copy_opt(&row.last_error),
                    last_indexed_us: row.last_indexed_us,
                };
                assert(fresh@ =~= (RepoData { state: RepoState::Pending, ..start[i as int].1@ }));
                self.table.set_at(i, fresh);
            }
            i += 1;
        }
        let _ = self.table.len();
        proof {
            let t = self.table.entries();
            crate::table::lemma_map_of(t);
            let (a, b) = (self.rows(), recovered(old(self).rows()));
            assert forall|k: Seq<char>| #[trigger] a.contains_key(k) <==> b.contains_key(k) by {
                if crate::table::map_of(t).contains_key(k) {
                    let j = choose|j: int| 0 <= j < t.len() && (#[trigger] t[j]).0 == k;
                    assert(start[j].0 == k);
                }
                if crate::table::map_of(start).contains_key(k) {
                    let j = choose|j: int| 0 <= j < start.len() && (#[trigger] start[j]).0 == k;
                    assert(t[j].0 == k);
                }
            }
            assert forall|k: Seq<char>| #[trigger] a.contains_key(k) implies a[k] == b[k] by {
                assert(crate::table::map_of(t).contains_key(k));
                let j = choose|j: int| 0 <= j < t.len() && (#[trigger] t[j]).0 == k;
                assert(start[j].0 == k);
                assert(t[j].1@ == a[k]);
            }
            assert(a =~= b);
        }
    }

    /// Registers a repository, to be cloned and indexed later. `key_verdict` is
    /// what the index says to the key as the name of a project.
    pub fn register(&mut self, input: &RepoInput, key_verdict: Result<()>) -> (r: Result<()>)
        ensures
            final(self).same_but_rows(*old(self)),
            r is Err ==> final(self).rows() == old(self).rows(),
            match registration_fault(old(self).rows(), *input, key_verdict) {
                Some(e) => r matches Err(f) && e.says_as(f),
                None => {
                    &&& r is Ok
                    &&& final(self).rows() == old(self).rows().insert(input.key@, registered(*input))
                },
            },
    {
        if let Err(e) = key_verdict {
            return Err(e);
        }
        if let Err(e) = validate_url(&input.url) {
            return Err(e);
        }
        let kind: String = to_lower(&trim(&input.auth_kind));
        if let Err(e) = validate_auth(&kind, &input.auth_secret) {
            return Err(e);
        }
        if self.table.get(&input.key).is_some() {
            return Err(
                MCSError::ConstraintViolation(
                    "key '".to_owned().concat(&input.key).concat("' is already registered"),
                ),
            );
        }
        let row: RepoRecord = RepoRecord {
            url: trim(&input.url),
            auth_kind: kind,
            auth_secret: copy_opt(&input.auth_secret),
            snippets: input.snippets,
            state: RepoState::Pending,
            last_error: None,
            last_indexed_us: None,
        };
        assert(row@ =~= registered(*input));
        self.load(&input.key, row);
        Ok(())
    }

    /// Reserves a repository for one job.
    pub fn try_begin_job(&mut self, key: &str) -> (r: bool)
        ensures
            final(self).rows() == old(self).rows(),
            final(self).base() == old(self).base() && final(self).has_git() == old(self).has_git(),
            reserves(old(self).busy(), final(self).busy(), key@, r),
    {
        if self.running.get(key).is_some() {
            assert(self.busy() =~= old(self).busy().insert(key@));
            return false;
        }
        self.running.insert(key, ());
        assert(self.busy() =~= old(self).busy().insert(key@));
        true
    }

    /// Reserves a repository for one job, or says that there is one.
    pub fn begin_checked(&mut self, key: &str) -> (r: Result<()>)
        ensures
            final(self).rows() == old(self).rows(),
            final(self).base() == old(self).base() && final(self).has_git() == old(self).has_git(),
            reserves(old(self).busy(), final(self).busy(), key@, r is Ok),
            r matches Err(e) ==> (e matches MCSError::InvalidParams(m) && m@ == "a job for '"@ + key@
                + "' is already in progress"@),
    {
        if self.try_begin_job(key) {
            Ok(())
        } else {
            Err(
                MCSError::InvalidParams(
                    "a job for '".to_owned().concat(key).concat("' is already in progress"),
                ),
            )
        }
    }

    /// Ends the job of a repository.
    pub fn end_job(&mut self, key: &str)
        ensures
            final(self).rows() == old(self).rows(),
            final(self).base() == old(self).base() && final(self).has_git() == old(self).has_git(),
            final(self).busy() == old(self).busy().remove(key@),
    {
        let _ = self.running.remove(key);
        assert(self.busy() =~= old(self).busy().remove(key@));
    }

    /// Where the worktree of a repository is.
    pub fn worktree_of(&self, key: &str) -> (r: String)
        ensures
            r@ == below(repos_dir(self.base()), key@),
    {
        path_below(&path_below(&self.database.clone().concat(".code"), "repos"), key)
    }

    /// Begins a job that brings a worktree up to date and indexes it.
    fn begin(&mut self, key: &str, state: RepoState, process: u32) -> (r: RepoStep)
        ensures
            begun(*old(self), *final(self), key@, state, process as nat, r),
    {
        if self.full_row(key).is_none() {
            return RepoStep::Finished(Err(unknown(key)));
        }
        if !self.git_ok {
            self.set_state(key, RepoState::Error, Some(NO_GIT.to_owned()), None);
            return RepoStep::Finished(Err(memory(NO_GIT)));
        }
        self.set_state(key, state, None, None);
        match self.full_row(key) {
            Some(row) => match prepare_auth(&self.database, key, row, process) {
                Ok(auth) => RepoStep::CheckOut {
                    url: row.url.clone(),
                    worktree: self.worktree_of(key),
                    auth,
                    snippets: row.snippets,
                },
                Err(e) => RepoStep::Finished(Err(e)),
            },
            None => RepoStep::Finished(Err(unknown(key))),
        }
    }

    /// Begins to clone and index a repository.
    pub fn begin_add(&mut self, key: &str, process: u32) -> (r: RepoStep)
        ensures
            begun(*old(self), *final(self), key@, RepoState::Cloning, process as nat, r),
    {
        self.begin(key, RepoState::Cloning, process)
    }

    /// Begins to update and index a repository.
    pub fn begin_reindex(&mut self, key: &str, process: u32) -> (r: RepoStep)
        ensures
            begun(*old(self), *final(self), key@, RepoState::Indexing, process as nat, r),
    {
        self.begin(key, RepoState::Indexing, process)
    }

    /// Goes on with a job whose worktree is up to date, or ends it.
    pub fn checked_out(
        &mut self,
        job: RepoJob,
        key: &str,
        snippets: bool,
        outcome: std::result::Result<(), String>,
    ) -> (r: RepoStep)
        ensures
            final(self).same_but_rows(*old(self)),
            match outcome {
                Err(e) => {
                    &&& final(self).rows() == moved(
                        old(self).rows(),
                        key@,
                        RepoState::Error,
                        Some(e@),
                        None,
                    )
                    &&& r matches RepoStep::Finished(Err(MCSError::MemoryError(m))) && m == e
                },
                Ok(_) => {
                    &&& final(self).rows() == (if job == RepoJob::Add {
                        moved(old(self).rows(), key@, RepoState::Indexing, None, None)
                    } else {
                        old(self).rows()
                    })
                    &&& r matches RepoStep::Index { worktree, snippets: s } && worktree@ == below(
                        repos_dir(old(self).base()),
                        key@,
                    ) && s == snippets
                },
            },
    {
        match outcome {
            Err(e) => {
                self.set_state(key, RepoState::Error, Some(e.clone()), None);
                RepoStep::Finished(Err(MCSError::MemoryError(e)))
            },
            Ok(_) => {
                if let RepoJob::Add = job {
                    self.set_state(key, RepoState::Indexing, None, None);
                }
                RepoStep::Index { worktree: self.worktree_of(key), snippets }
            },
        }
    }

    /// Ends a job whose worktree was indexed.
    pub fn indexed(&mut self, key: &str, outcome: Result<String>, now_us: i64) -> (r: Result<String>)
        ensures
            r == outcome,
            final(self).same_but_rows(*old(self)),
            final(self).rows() == (match outcome {
                Ok(_) => moved(old(self).rows(), key@, RepoState::Indexed, None, Some(now_us)),
                Err(e) => moved(old(self).rows(), key@, RepoState::Error, Some(e.says()), None),
            }),
    {
        match &outcome {
            Ok(_) => self.set_state(key, RepoState::Indexed, None, Some(now_us)),
            Err(e) => self.set_state(key, RepoState::Error, Some(e.message()), None),
        }
        outcome
    }

    /// Begins to remove a repository: what has to be deleted before the row is.
    pub fn begin_remove(&mut self, key: &str) -> (r: Result<Removal>)
        ensures
            final(self).same_but_rows(*old(self)),
            if old(self).rows().contains_key(key@) {
                let file = below(code_dir(old(self).base()), key@ + ".code.db"@);
                &&& final(self).rows() == old(self).rows().insert(
                    key@,
                    RepoData { state: RepoState::Removing, ..old(self).rows()[key@] },
                )
                &&& r matches Ok(x) && text::texts(x.files@) == seq![file, file + "-wal"@, file + "-shm"@]
                    && x.worktree@ == below(repos_dir(old(self).base()), key@)
            } else {
                final(self).rows() == old(self).rows() && (r matches Err(e) && is_unknown(e, key@))
            },
    {
        let row: RepoRecord = match self.table.remove(key) {
            Some(row) => row,
            None => {
                assert(self.rows() =~= old(self).rows());
                return Err(unknown(key));
            },
        };
        let row: RepoRecord = RepoRecord {
            url: row.url,
            auth_kind: row.auth_kind,
            auth_secret: row.auth_secret,
            snippets: row.snippets,
            state: RepoState::Removing,
            last_error: row.last_error,
            last_indexed_us: row.last_indexed_us,
        };
        let ghost d = row@;
        self.table.insert(key, row);
        assert(self.rows() =~= old(self).rows().insert(key@, d));
        let file: String = path_below(
            &self.database.clone().concat(".code"),
            &key.to_owned().concat(".code.db"),
        );
        let ghost f = file@;
        let mut files: Vec<String> = Vec::new();
        files.push(file.clone());
        files.push(file.clone().concat("-wal"));
        files.push(file.concat("-shm"));
        assert(text::texts(files@) =~= seq![f, f + "-wal"@, f + "-shm"@]);
        Ok(Removal { files, worktree: self.worktree_of(key) })
    }

    /// Deletes the row of a repository that everything else of is gone.
    pub fn finish_remove(&mut self, key: &str)
        ensures
            final(self).rows() == old(self).rows().remove(key@),
            final(self).same_but_rows(*old(self)),
    {
        let _ = self.table.remove(key);
        assert(self.rows() =~= old(self).rows().remove(key@));
    }
}

/// Whether a removal goes on after one of its files was deleted. `suffix` is
/// what the file's name ends in behind that of the index.
pub fn file_deleted(suffix: &str, outcome: Deletion) -> (r: Result<()>)
    ensures
        match outcome {
            Deletion::Failed(e) => r matches Err(MCSError::MemoryError(m)) && m@
                == "index DB cleanup failed ("@ + suffix@ + "): "@ + e@,
            _ => r is Ok,
        },
{
    match outcome {
        Deletion::Failed(e) => Err(
            MCSError::MemoryError(
                "index DB cleanup failed (".to_owned().concat(suffix).concat("): ").concat(&e),
            ),
        ),
        _ => Ok(()),
    }
}

/// Whether a removal goes on after the worktree was deleted.
pub fn worktree_deleted(outcome: Deletion) -> (r: Result<()>)
    ensures
        match outcome {
            Deletion::Failed(e) => r matches Err(MCSError::MemoryError(m)) && m@
                == "worktree cleanup failed: "@ + e@,
            _ => r is Ok,
        },
{
    match outcome {
        Deletion::Failed(e) => Err(
            MCSError::MemoryError("worktree cleanup failed: ".to_owned().concat(&e)),
        ),
        _ => Ok(()),
    }
}

/// Why a registration is refused.
pub enum RegisterFault {
    Key(MCSError),
    Params(Seq<char>),
    Taken(Seq<char>),
}

impl RegisterFault {
    /// The error says so.
    pub open spec fn says_as(self, e: MCSError) -> bool {
        match self {
            RegisterFault::Key(f) => e == f,
            RegisterFault::Params(why) => e matches MCSError::InvalidParams(m) && m@ == why,
            RegisterFault::Taken(key) => e matches MCSError::ConstraintViolation(m) && m@ == "key '"@ + key
                + "' is already registered"@,
        }
    }
}

/// The kind of credential that an input names.
pub open spec fn kind_of(input: RepoInput) -> Seq<char> {
    text::lowered(text::trimmed(input.auth_kind@))
}

/// Why a registration is refused, if it is.
pub open spec fn registration_fault(
    rows: Map<Seq<char>, RepoData>,
    input: RepoInput,
    key_verdict: Result<()>,
) -> Option<RegisterFault> {
    if key_verdict is Err {
        Some(RegisterFault::Key(key_verdict->Err_0))
    } else if url_fault(input.url@) is Some {
        Some(RegisterFault::Params(url_fault(input.url@)->0))
    } else if auth_fault(kind_of(input), text::opt_text(input.auth_secret)) is Some {
        Some(RegisterFault::Params(auth_fault(kind_of(input), text::opt_text(input.auth_secret))->0))
    } else if rows.contains_key(input.key@) {
        Some(RegisterFault::Taken(input.key@))
    } else {
        None
    }
}

/// The row of a repository that was just registered.
pub open spec fn registered(input: RepoInput) -> RepoData {
    RepoData {
        url: text::trimmed(input.url@),
        auth_kind: kind_of(input),
        auth_secret: text::opt_text(input.auth_secret),
        snippets: input.snippets,
        state: RepoState::Pending,
        last_error: None,
        last_indexed_us: None,
    }
}

/// How a job begins: an unknown repository and a host without git end it at
/// once, and so does a credential that cannot be prepared.
pub open spec fn begun(
    before: RepoStore,
    after: RepoStore,
    key: Seq<char>,
    state: RepoState,
    process: nat,
    r: RepoStep,
) -> bool {
    let d = before.rows()[key];
    &&& after.same_but_rows(before)
    &&& if !before.rows().contains_key(key) {
        after.rows() == before.rows() && (r matches RepoStep::Finished(Err(e)) && is_unknown(e, key))
    } else if !before.has_git() {
        after.rows() == moved(before.rows(), key, RepoState::Error, Some(NO_GIT@), None) && (r
            matches RepoStep::Finished(Err(MCSError::MemoryError(m))) && m@ == NO_GIT@)
    } else {
        &&& after.rows() == moved(before.rows(), key, state, None, None)
        &&& match prepare_fault(d) {
            Some(why) => r matches RepoStep::Finished(Err(MCSError::MemoryError(m))) && m@ == why,
            None => r matches RepoStep::CheckOut { url, worktree, auth, snippets } && url@ == d.url
                && worktree@ == below(repos_dir(before.base()), key) && prepared(
                auth,
                before.base(),
                key,
                d,
                process,
            ) && snippets == d.snippets,
        }
    }
}

/// A credential that was accepted at registration can be prepared whenever a
/// job needs it.
pub proof fn law_a_registered_credential_can_be_prepared(
    rows: Map<Seq<char>, RepoData>,
    input: RepoInput,
)
    requires
        registration_fault(rows, input, Ok(())) is None,
    ensures
        prepare_fault(registered(input)) is None,
{
    reveal_strlit("none");
    reveal_strlit("token");
    reveal_strlit("ssh");
    assert("none"@.len() == 4 && "token"@.len() == 5 && "ssh"@.len() == 3);
}

/// One job at a time works on a repository: whoever comes while one does is
/// turned away, other repositories are as free as they were, and the next may
/// come once the first has ended.
pub proof fn law_one_job_per_repository(
    idle: Set<Seq<char>>,
    first: Set<Seq<char>>,
    second: Set<Seq<char>>,
    third: Set<Seq<char>>,
    key: Seq<char>,
    other: Seq<char>,
    served: bool,
    again: bool,
)
    requires
        reserves(idle, first, key, true),
        reserves(first, second, other, served),
        reserves(first.remove(key), third, key, again),
    ensures
        served == (other != key && !idle.contains(other)),
        again,
{
}

/// A repository is registered exactly where its key is a good one and free, its
/// URL says something and carries no password, and its credential is of a kind
/// that there is: none without a secret, a token or a key with one.
pub proof fn law_which_repositories_are_accepted(
    rows: Map<Seq<char>, RepoData>,
    input: RepoInput,
    key_verdict: Result<()>,
)
    ensures
        registration_fault(rows, input, key_verdict) is None <==> {
            &&& key_verdict is Ok
            &&& !rows.contains_key(input.key@)
            &&& text::trimmed(input.url@).len() > 0
            &&& !carries_password(authority(input.url@))
            &&& {
                ||| kind_of(input) == "none"@ && input.auth_secret is None
                ||| (kind_of(input) == "token"@ || kind_of(input) == "ssh"@) && (input.auth_secret matches Some(s)
                    && text::trimmed(s@).len() > 0)
            }
        },
        registered(input).url == text::trimmed(input.url@),
        registered(input).auth_kind == kind_of(input),
        registered(input).auth_secret == text::opt_text(input.auth_secret),
        registered(input).snippets == input.snippets,
        registered(input).state == RepoState::Pending,
{
    reveal_strlit("none");
    reveal_strlit("token");
    reveal_strlit("ssh");
    assert("none"@.len() == 4 && "token"@.len() == 5 && "ssh"@.len() == 3);
}

/// A password in front of a host is noticed, whatever stands around it; a host
/// with a user name alone, or with a path behind it, is taken.
pub proof fn law_a_password_is_noticed(user: Seq<char>, password: Seq<char>, host: Seq<char>, path: Seq<char>)
    requires
        !user.contains('/') && !password.contains('/') && !host.contains('/'),
        !host.contains(':') && !host.contains('@') && !user.contains(':') && !user.contains('@'),
        host.len() > 0 && !text::white_space(host[0]),
    ensures
        url_fault("https://"@ + user + ":"@ + password + "@"@ + host + "/"@ + path) is Some,
        carries_password(user + ":"@ + password + "@"@ + host),
        authority("https://"@ + user + "@"@ + host + "/"@ + path) == user + "@"@ + host,
        !carries_password(user + "@"@ + host),
        authority("https://"@ + host + "/"@ + path) == host,
        !carries_password(host),
{
    reveal_strlit("https://");
    reveal_strlit(":");
    reveal_strlit("@");
    reveal_strlit("/");
    let a = user + ":"@ + password + "@"@ + host;
    let b = user + "@"@ + host;
    assert forall|i: int| 0 <= i < a.len() implies a[i] != '/' by {
        if i < user.len() {
            assert(user.contains(user[i]));
        } else if user.len() < i < user.len() + 1 + password.len() {
            assert(a[i] == password[i - user.len() - 1]);
            assert(password.contains(password[i - user.len() - 1]));
        } else if i > user.len() + 1 + password.len() {
            assert(a[i] == host[i - user.len() - password.len() - 2]);
            assert(host.contains(host[i - user.len() - password.len() - 2]));
        }
    }
    assert forall|i: int| 0 <= i < b.len() implies b[i] != '/' && b[i] != ':' by {
        if i < user.len() {
            assert(user.contains(user[i]));
        } else if i > user.len() {
            assert(b[i] == host[i - user.len() - 1]);
            assert(host.contains(host[i - user.len() - 1]));
        }
    }
    lemma_authority(a, path);
    lemma_authority(b, path);
    lemma_authority(host, path);
    assert("https://"@ + user + ":"@ + password + "@"@ + host + "/"@ + path =~= "https://"@ + a + "/"@ + path);
    assert("https://"@ + user + "@"@ + host + "/"@ + path =~= "https://"@ + b + "/"@ + path);
    let (i, j) = (user.len() as int, user.len() as int + 1 + password.len());
    assert(a[i] == ':' && a[j] == '@');
    if carries_password(b) {
        let (x, y) = choose|x: int, y: int| 0 <= x < y < b.len() && #[trigger] b[x] == ':' && #[trigger] b[y] == '@';
        assert(b[x] != ':');
    }
    if carries_password(host) {
        let (x, y) = choose|x: int, y: int|
            0 <= x < y < host.len() && #[trigger] host[x] == ':' && #[trigger] host[y] == '@';
        assert(host.contains(host[x]));
    }
    assert(carries_password(a));
}

proof fn lemma_authority(a: Seq<char>, path: Seq<char>)
    requires
        !a.contains('/'),
    ensures
        authority("https://"@ + a + "/"@ + path) == a,
{
    reveal_strlit("https://");
    reveal_strlit("://");
    reveal_strlit("/");
    let url = "https://"@ + a + "/"@ + path;
    let rest = a + "/"@ + path;
    assert(url.subrange(5, 8) =~= "://"@);
    assert forall|j: int| 0 <= j < 5 implies !#[trigger] text::occurs_at(url, "://"@, j) by {
        if text::occurs_at(url, "://"@, j) {
            assert(url.subrange(j, j + 3)[0] == url[j]);
        }
    }
    assert(text::first_occurs(url, "://"@, 5));
    text::lemma_cut(url, "://"@, 5);
    assert(url.skip(8) =~= rest);
    let parts = text::split(path, '/');
    text::law_split_parts_make_up_the_text(path, '/', 0);
    let all = seq![a] + parts;
    assert forall|i: int| 0 <= i < all.len() implies !(#[trigger] all[i]).contains('/') by {
        if i > 0 {
            text::law_split_parts_make_up_the_text(path, '/', i - 1);
            assert(all[i] == parts[i - 1]);
        }
    }
    text::law_joined_parts_are_split_again(all, '/');
    text::law_joining_goes_part_by_part(seq![a], parts, seq!['/']);
    assert(text::joined(seq![a], seq!['/']) == a);
    assert(text::joined(all, seq!['/']) =~= rest);
}

/// A change of state concerns one repository: its address, its credential and its
/// choices stay, the time of its last index stays unless there is a new one, and
/// no other row is touched.
pub proof fn law_a_change_of_state_concerns_one_row(
    rows: Map<Seq<char>, RepoData>,
    key: Seq<char>,
    state: RepoState,
    last_error: Option<Seq<char>>,
    last_indexed_us: Option<i64>,
    other: Seq<char>,
)
    ensures
        ({
            let after = moved(rows, key, state, last_error, last_indexed_us);
            &&& after.dom() == rows.dom()
            &&& rows.contains_key(other) && other != key ==> after[other] == rows[other]
            &&& rows.contains_key(key) ==> {
                &&& after[key].state == state && after[key].last_error == last_error
                &&& after[key].url == rows[key].url && after[key].auth_kind == rows[key].auth_kind
                &&& after[key].auth_secret == rows[key].auth_secret && after[key].snippets == rows[key].snippets
                &&& last_indexed_us is Some ==> after[key].last_indexed_us == last_indexed_us
                &&& last_indexed_us is None ==> after[key].last_indexed_us == rows[key].last_indexed_us
            }
        }),
{
    assert(moved(rows, key, state, last_error, last_indexed_us).dom() =~= rows.dom());
}

/// A restart puts what was at work back in the queue and leaves the rest alone.
pub proof fn law_a_restart_requeues_what_was_at_work(rows: Map<Seq<char>, RepoData>, key: Seq<char>)
    requires
        rows.contains_key(key),
    ensures
        recovered(rows).contains_key(key),
        rows[key].state == RepoState::Cloning || rows[key].state == RepoState::Indexing || rows[key].state
            == RepoState::Removing ==> recovered(rows)[key] == (RepoData { state: RepoState::Pending, ..rows[key] }),
        rows[key].state == RepoState::Pending || rows[key].state == RepoState::Indexed || rows[key].state
            == RepoState::Error ==> recovered(rows)[key] == rows[key],
{
}

/// Every repository is listed but those being removed.
pub proof fn law_every_repository_is_listed(rows: Map<Seq<char>, RepoData>, key: Seq<char>)
    ensures
        visible(rows).contains(key) <==> rows.contains_key(key) && rows[key].state != RepoState::Removing,
{
}

/// A repository that is known, on a host with git, gets its job: it is checked out
/// from its own address into its own directory, with its own credential.
pub proof fn law_a_known_repository_is_checked_out(
    before: RepoStore,
    after: RepoStore,
    key: Seq<char>,
    state: RepoState,
    process: nat,
    r: RepoStep,
    other: Seq<char>,
)
    requires
        begun(before, after, key, state, process, r),
        before.rows().contains_key(key),
        before.has_git(),
        prepare_fault(before.rows()[key]) is None,
    ensures
        r matches RepoStep::CheckOut { url, worktree, auth, snippets } && url@ == before.rows()[key].url
            && snippets == before.rows()[key].snippets,
        after.rows()[key].state == state,
        after.rows().dom() == before.rows().dom(),
        before.rows().contains_key(other) && other != key ==> after.rows()[other] == before.rows()[other],
{
    law_a_change_of_state_concerns_one_row(before.rows(), key, state, None, None, other);
    law_a_change_of_state_concerns_one_row(before.rows(), key, state, None, None, key);
}

/// A secret that a repository has goes to git: as a header for a token, as a file
/// for a key; and one without a credential gets none.
pub proof fn law_the_credential_goes_to_git(
    a: PreparedAuth,
    database: Seq<char>,
    key: Seq<char>,
    d: RepoData,
    process: nat,
    secret: Seq<char>,
)
    requires
        prepared(a, database, key, d, process),
        d.auth_secret == Some(secret),
    ensures
        d.auth_kind == "token"@ ==> a.ssh_key is None && crate::upstream::pair_texts(a.envs@).contains(
            ("GIT_CONFIG_VALUE_0"@, "Authorization: Bearer "@ + secret),
        ),
        d.auth_kind == "ssh"@ ==> (a.ssh_key matches Some(k) && k.secret@ == secret && a.envs@.len() == 1),
        d.auth_kind == "none"@ ==> a.ssh_key is None && a.envs@.len() == 0,
{
    reveal_strlit("none");
    reveal_strlit("token");
    reveal_strlit("ssh");
    assert("none"@.len() == 4 && "token"@.len() == 5 && "ssh"@.len() == 3);
    let envs = crate::upstream::pair_texts(a.envs@);
    assert(envs.len() == a.envs@.len());
    if d.auth_kind == "token"@ {
        assert(envs[1] == ("GIT_CONFIG_VALUE_0"@, "Authorization: Bearer "@ + secret));
    }
}

/// The lines of a text are what its line feeds end: none is lost.
pub proof fn law_no_line_is_lost(parts: Seq<Seq<char>>, last: Seq<char>)
    requires
        forall|i: int| 0 <= i < parts.len() ==> !(#[trigger] parts[i]).contains('\n') && !parts[i].contains('\r'),
        !last.contains('\n') && last.len() > 0,
    ensures
        lines(text::joined(parts.push(Seq::empty()), seq!['\n'])) == parts,
        lines(text::joined(parts.push(last), seq!['\n'])) == parts.push(last),
{
    let a = parts.push(Seq::empty());
    let b = parts.push(last);
    assert forall|i: int| 0 <= i < a.len() implies !(#[trigger] a[i]).contains('\n') by {
        if i < parts.len() {
            assert(a[i] == parts[i]);
        }
    }
    assert forall|i: int| 0 <= i < b.len() implies !(#[trigger] b[i]).contains('\n') by {
        if i < parts.len() {
            assert(b[i] == parts[i]);
        }
    }
    text::law_joined_parts_are_split_again(a, '\n');
    text::law_joined_parts_are_split_again(b, '\n');
    assert(a.drop_last() =~= parts);
    assert(b.drop_last() =~= parts);
    let ended = parts.map_values(|p: Seq<char>| without_return(p));
    assert forall|i: int| 0 <= i < parts.len() implies ended[i] == #[trigger] parts[i] by {
        if parts[i].len() > 0 && parts[i].last() == '\r' {
            assert(parts[i].contains(parts[i].last()));
        }
    }
    assert(ended =~= parts);
}

/// Of a complaint the last twelve lines are kept, and all of a shorter one.
pub proof fn law_the_end_of_a_complaint_is_kept(s: Seq<char>)
    ensures
        lines(s).len() <= 12 ==> tail(s) == text::joined(lines(s), "\n"@),
        lines(s).len() > 12 ==> tail(s) == text::joined(
            lines(s).subrange(lines(s).len() - 12, lines(s).len() as int),
            "\n"@,
        ),
{
    if lines(s).len() > 12 {
        assert(lines(s).skip(lines(s).len() - 12) =~= lines(s).subrange(
            lines(s).len() - 12,
            lines(s).len() as int,
        ));
    }
}

/// Every repository has its own place: below the directory of its database, and
/// no two keys share one.
pub proof fn law_every_repository_has_its_own_place(database: Seq<char>, a: Seq<char>, b: Seq<char>)
    requires
        a.len() > 0 && a[0] != '/',
        b.len() > 0 && b[0] != '/',
    ensures
        database.is_prefix_of(below(repos_dir(database), a)),
        (database + ".code/repos/"@ + a) == below(repos_dir(database), a),
        below(repos_dir(database), a) == below(repos_dir(database), b) ==> a == b,
{
    reveal_strlit(".code");
    reveal_strlit("repos");
    reveal_strlit("/");
    reveal_strlit(".code/repos/");
    let base = repos_dir(database);
    assert(base =~= database + ".code"@ + "/"@ + "repos"@);
    let (x, y) = (below(base, a), below(base, b));
    assert(".code"@ + "/"@ + "repos"@ + "/"@ =~= ".code/repos/"@);
    assert(x =~= database + ".code/repos/"@ + a);
    assert(database.is_prefix_of(x));
    assert(x.skip(base.len() as int + 1) =~= a);
    assert(y.skip(base.len() as int + 1) =~= b);
}

/// A number is written with its digits, and with a sign where it is negative.
pub proof fn law_a_number_is_written_with_its_sign(n: int)
    ensures
        n >= 0 ==> text::number(signed(n)) == n,
        n < 0 ==> signed(n)[0] == '-' && text::number(signed(n).skip(1)) == -n,
{
    reveal_strlit("-");
    if n >= 0 {
        text::law_a_written_number_is_read_back(n as nat);
    } else {
        text::law_a_written_number_is_read_back((-n) as nat);
        assert(signed(n).skip(1) =~= text::decimal((-n) as nat));
    }
}

/// Nothing of a repository goes unseen.
pub proof fn law_nothing_goes_unseen(a: RepoRow, b: RepoRecord)
    ensures
        a@.key == a.key@,
        a@.url == a.url@,
        a@.auth_kind == a.auth_kind@,
        a@.snippets == a.snippets,
        a@.state == a.state@,
        a@.last_error == text::opt_text(a.last_error),
        a@.last_indexed_us == a.last_indexed_us,
        b@.url == b.url@,
        b@.auth_kind == b.auth_kind@,
        b@.auth_secret == text::opt_text(b.auth_secret),
        b@.snippets == b.snippets,
        b@.state == b.state,
        b@.last_error == text::opt_text(b.last_error),
        b@.last_indexed_us == b.last_indexed_us,
{
}

} // verus!
