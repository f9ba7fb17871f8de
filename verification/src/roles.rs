//! The roles of a process: which are selected, and how they end.
use vstd::prelude::*;

use crate::text;
use crate::text::{same, split_at_char, trim};

verus! {

/// Observable state for a supervised runtime role.
#[derive(Clone, Copy, Debug, PartialEq, Eq, Structural)]
pub enum LifecycleState {
    Starting,
    Running,
    Stopped,
}

#[derive(Clone, Copy, Debug, PartialEq, Eq, Hash, Structural)]
pub enum RuntimeRole {
    Mcp,
    Indexer,
    Webhooks,
}

/// The roles that the build carries beside the server itself.
#[derive(Clone, Copy, Debug, PartialEq, Eq, Structural)]
pub struct Compiled {
    pub indexer: bool,
    pub webhooks: bool,
}

impl RuntimeRole {
    /// The name of the role.
    pub open spec fn spelled(self) -> Seq<char> {
        match self {
            RuntimeRole::Mcp => "mcp"@,
            RuntimeRole::Indexer => "indexer"@,
            RuntimeRole::Webhooks => "webhooks"@,
        }
    }

    /// The name of the role.
    pub fn name(self) -> (r: &'static str)
        ensures
            r@ == self.spelled(),
    {
        match self {
            RuntimeRole::Mcp => "mcp",
            RuntimeRole::Indexer => "indexer",
            RuntimeRole::Webhooks => "webhooks",
        }
    }

    /// The build carries the role.
    pub open spec fn carried(self, build: Compiled) -> bool {
        match self {
            RuntimeRole::Mcp => true,
            RuntimeRole::Indexer => build.indexer,
            RuntimeRole::Webhooks => build.webhooks,
        }
    }

    /// Whether the build carries the role.
    pub fn is_compiled(self, build: Compiled) -> (r: bool)
        ensures
            r == self.carried(build),
    {
        match self {
            RuntimeRole::Mcp => true,
            RuntimeRole::Indexer => build.indexer,
            RuntimeRole::Webhooks => build.webhooks,
        }
    }
}

#[derive(Debug)]
pub enum ConfigError {
    EmptyRoleSet,
    EmptyRoleName,
    UnknownRole(String),
    DuplicateRole(RuntimeRole),
    RoleNotCompiled(RuntimeRole),
}

/// What a [`ConfigError`] tells.
#[verifier::ext_equal]
pub enum ConfigFault {
    EmptyRoleSet,
    EmptyRoleName,
    UnknownRole(Seq<char>),
    DuplicateRole(RuntimeRole),
    RoleNotCompiled(RuntimeRole),
}

impl View for ConfigError {
    type V = ConfigFault;

    open spec fn view(&self) -> ConfigFault {
        match *self {
            ConfigError::EmptyRoleSet => ConfigFault::EmptyRoleSet,
            ConfigError::EmptyRoleName => ConfigFault::EmptyRoleName,
            ConfigError::UnknownRole(name) => ConfigFault::UnknownRole(name@),
            ConfigError::DuplicateRole(role) => ConfigFault::DuplicateRole(role),
            ConfigError::RoleNotCompiled(role) => ConfigFault::RoleNotCompiled(role),
        }
    }
}

impl ConfigFault {
    /// The fault in words.
    pub open spec fn says(self) -> Seq<char> {
        match self {
            ConfigFault::EmptyRoleSet => "at least one runtime role is required"@,
            ConfigFault::EmptyRoleName => "runtime role names cannot be empty"@,
            ConfigFault::UnknownRole(name) => "unknown runtime role '"@ + name + "'"@,
            ConfigFault::DuplicateRole(role) => "runtime role '"@ + role.spelled()
                + "' was selected more than once"@,
            ConfigFault::RoleNotCompiled(role) => "runtime role '"@ + role.spelled()
                + "' was selected but its Cargo feature is not compiled"@,
        }
    }
}

impl ConfigError {
    /// The error in words.
    pub fn message(&self) -> (r: String)
        ensures
            r@ == self@.says(),
    {
        match self {
            ConfigError::EmptyRoleSet => "at least one runtime role is required".to_owned(),
            ConfigError::EmptyRoleName => "runtime role names cannot be empty".to_owned(),
            ConfigError::UnknownRole(name) => "unknown runtime role '".to_owned().concat(name).concat(
                "'",
            ),
            ConfigError::DuplicateRole(role) => "runtime role '".to_owned().concat(
                role.name(),
            ).concat("' was selected more than once"),
            ConfigError::RoleNotCompiled(role) => "runtime role '".to_owned().concat(
                role.name(),
            ).concat("' was selected but its Cargo feature is not compiled"),
        }
    }
}

/// The role that a name stands for.
pub open spec fn role_named(s: Seq<char>) -> std::result::Result<RuntimeRole, ConfigFault> {
    if s == "mcp"@ {
        Ok(RuntimeRole::Mcp)
    } else if s == "indexer"@ {
        Ok(RuntimeRole::Indexer)
    } else if s == "webhooks"@ {
        Ok(RuntimeRole::Webhooks)
    } else if s.len() == 0 {
        Err(ConfigFault::EmptyRoleName)
    } else {
        Err(ConfigFault::UnknownRole(s))
    }
}

/// The roles that the names stand for, or the fault of the first that stands
/// for none. White space around a name does not count.
pub open spec fn roles_named(names: Seq<Seq<char>>) -> std::result::Result<
    Seq<RuntimeRole>,
    ConfigFault,
>
    decreases names.len(),
{
    if names.len() == 0 {
        Ok(Seq::empty())
    } else {
        match roles_named(names.drop_last()) {
            Err(fault) => Err(fault),
            Ok(before) => match role_named(text::trimmed(names.last())) {
                Ok(role) => Ok(before.push(role)),
                Err(fault) => Err(fault),
            },
        }
    }
}

/// What stands against the selection, if anything: the first role that occurs
/// before it, or that the build does not carry.
pub open spec fn selection_fault(roles: Seq<RuntimeRole>, build: Compiled) -> Option<ConfigFault>
    decreases roles.len(),
{
    if roles.len() == 0 {
        None
    } else {
        match selection_fault(roles.drop_last(), build) {
            Some(fault) => Some(fault),
            None => if roles.drop_last().contains(roles.last()) {
                Some(ConfigFault::DuplicateRole(roles.last()))
            } else if !roles.last().carried(build) {
                Some(ConfigFault::RoleNotCompiled(roles.last()))
            } else {
                None
            },
        }
    }
}

/// The roles that a comma-separated list selects.
pub open spec fn selected(input: Seq<char>, build: Compiled) -> std::result::Result<
    Seq<RuntimeRole>,
    ConfigFault,
> {
    if text::trimmed(input).len() == 0 {
        Err(ConfigFault::EmptyRoleSet)
    } else {
        match roles_named(text::split(input, ',')) {
            Err(fault) => Err(fault),
            Ok(roles) => match selection_fault(roles, build) {
                Some(fault) => Err(fault),
                None => Ok(roles),
            },
        }
    }
}

/// The selected roles, each once.
#[derive(Debug)]
pub struct RoleSet(Vec<RuntimeRole>);

impl View for RoleSet {
    type V = Seq<RuntimeRole>;

    closed spec fn view(&self) -> Seq<RuntimeRole> {
        self.0@
    }
}

impl RoleSet {
    fn parse_role(value: &str) -> (r: std::result::Result<RuntimeRole, ConfigError>)
        ensures
            match r {
                Ok(role) => role_named(value@) == Ok::<RuntimeRole, ConfigFault>(role),
                Err(e) => role_named(value@) == Err::<RuntimeRole, ConfigFault>(e@),
            },
    {
        proof {
            reveal_strlit("mcp");
            reveal_strlit("indexer");
            reveal_strlit("webhooks");
            assert("mcp"@.len() == 3 && "indexer"@.len() == 7 && "webhooks"@.len() == 8);
        }
        if same(value, "mcp") {
            Ok(RuntimeRole::Mcp)
        } else if same(value, "indexer") {
            Ok(RuntimeRole::Indexer)
        } else if same(value, "webhooks") {
            Ok(RuntimeRole::Webhooks)
        } else if value.is_empty() {
            Err(ConfigError::EmptyRoleName)
        } else {
            Err(ConfigError::UnknownRole(value.to_owned()))
        }
    }

    fn parse_names(names: &Vec<String>) -> (r: std::result::Result<Vec<RuntimeRole>, ConfigError>)
        ensures
            match r {
                Ok(roles) => roles_named(text::texts(names@)) == Ok::<Seq<RuntimeRole>, ConfigFault>(
                    roles@,
                ),
                Err(e) => roles_named(text::texts(names@)) == Err::<Seq<RuntimeRole>, ConfigFault>(e@),
            },
    {
        let ghost all = text::texts(names@);
        let mut roles: Vec<RuntimeRole> = Vec::new();
        let mut fault: Option<ConfigError> = None;
        let mut i: usize = 0;
        assert(all.take(0) =~= Seq::<Seq<char>>::empty());
        while i < names.len()
            invariant
                i <= names@.len(),
                all == text::texts(names@),
                match fault {
                    Some(e) => roles_named(all.take(i as int)) == Err::<Seq<RuntimeRole>, ConfigFault>(
                        e@,
                    ),
                    None => roles_named(all.take(i as int)) == Ok::<Seq<RuntimeRole>, ConfigFault>(
                        roles@,
                    ),
                },
            decreases names@.len() - i,
        {
            assert(all.take(i + 1).drop_last() =~= all.take(i as int));
            assert(all.take(i + 1).last() == names@[i as int]@);
            if fault.is_none() {
                match RoleSet::parse_role(&trim(&names[i])) {
                    Ok(role) => {
                        roles.push(role);
                    },
                    Err(e) => {
                        fault = Some(e);
                    },
                }
            }
            i += 1;
        }
        assert(all.take(all.len() as int) =~= all);
        match fault {
            Some(e) => Err(e),
            None => Ok(roles),
        }
    }

    fn check(roles: &Vec<RuntimeRole>, build: Compiled) -> (r: Option<ConfigError>)
        ensures
            match r {
                Some(e) => selection_fault(roles@, build) == Some(e@),
                None => selection_fault(roles@, build) is None,
            },
    {
        let mut fault: Option<ConfigError> = None;
        let mut i: usize = 0;
        assert(roles@.take(0) =~= Seq::<RuntimeRole>::empty());
        while i < roles.len()
            invariant
                i <= roles@.len(),
                match fault {
                    Some(e) => selection_fault(roles@.take(i as int), build) == Some(e@),
                    None => selection_fault(roles@.take(i as int), build) is None,
                },
            decreases roles@.len() - i,
        {
            let ghost before = roles@.take(i as int);
            assert(roles@.take(i + 1).drop_last() =~= before);
            let mut seen: bool = false;
            let mut k: usize = 0;
            while k < i
                invariant
                    k <= i < roles@.len(),
                    before == roles@.take(i as int),
                    seen ==> before.contains(roles@[i as int]),
                    !seen ==> forall|j: int| 0 <= j < k ==> #[trigger] roles@[j] != roles@[i as int],
                decreases i - k,
            {
                if roles[k] == roles[i] {
                    assert(before[k as int] == roles@[i as int]);
                    seen = true;
                }
                k += 1;
            }
            assert(seen == before.contains(roles@[i as int])) by {
                if before.contains(roles@[i as int]) {
                    let j = before.index_of(roles@[i as int]);
                    assert(roles@[j] == roles@[i as int]);
                }
            }
            if fault.is_none() {
                if seen {
                    fault = Some(ConfigError::DuplicateRole(roles[i]));
                } else if !roles[i].is_compiled(build) {
                    fault = Some(ConfigError::RoleNotCompiled(roles[i]));
                }
            }
            i += 1;
        }
        assert(roles@.take(roles@.len() as int) =~= roles@);
        fault
    }

    /// Reads a comma-separated list of roles.
    pub fn parse_csv(input: &str, build: Compiled) -> (r: std::result::Result<Self, ConfigError>)
        ensures
            match r {
                Ok(set) => selected(input@, build) == Ok::<Seq<RuntimeRole>, ConfigFault>(set@),
                Err(e) => selected(input@, build) == Err::<Seq<RuntimeRole>, ConfigFault>(e@),
            },
    {
        if trim(input).as_str().is_empty() {
            return Err(ConfigError::EmptyRoleSet);
        }
        let names: Vec<String> = split_at_char(input, ',');
        match RoleSet::parse_names(&names) {
            Err(e) => Err(e),
            Ok(roles) => match RoleSet::check(&roles, build) {
                Some(e) => Err(e),
                None => Ok(RoleSet(roles)),
            },
        }
    }

    /// The server alone.
    pub fn mcp_only() -> (r: Self)
        ensures
            r@ == seq![RuntimeRole::Mcp],
    {
        RoleSet(vec![RuntimeRole::Mcp])
    }

    /// The selected roles, in the order of the list.
    pub fn roles(&self) -> (r: &[RuntimeRole])
        ensures
            r@ == self@,
    {
        self.0.as_slice()
    }

    /// Whether the role is selected.
    pub fn holds(&self, role: RuntimeRole) -> (r: bool)
        ensures
            r == self@.contains(role),
    {
        let mut i: usize = 0;
        while i < self.0.len()
            invariant
                i <= self.0@.len(),
                forall|j: int| 0 <= j < i ==> #[trigger] self.0@[j] != role,
            decreases self.0@.len() - i,
        {
            if self.0[i] == role {
                assert(self@[i as int] == role);
                return true;
            }
            i += 1;
        }
        false
    }
}

/// A selection that is accepted holds every role at most once, and only roles
/// that the build carries.
pub proof fn law_selected_roles_are_distinct_and_carried(input: Seq<char>, build: Compiled)
    ensures
        selected(input, build) matches Ok(roles) ==> roles.no_duplicates() && roles.len() > 0 && forall|
            i: int,
        |
            0 <= i < roles.len() ==> (#[trigger] roles[i]).carried(build),
{
    text::lemma_split_len(input, ',');
    if let Ok(roles) = roles_named(text::split(input, ',')) {
        lemma_roles_named_len(text::split(input, ','));
        if selection_fault(roles, build) is None {
            lemma_no_fault(roles, build);
        }
    }
}

proof fn lemma_roles_named_len(names: Seq<Seq<char>>)
    ensures
        roles_named(names) matches Ok(roles) ==> roles.len() == names.len(),
    decreases names.len(),
{
    if names.len() > 0 {
        lemma_roles_named_len(names.drop_last());
    }
}

proof fn lemma_no_fault(roles: Seq<RuntimeRole>, build: Compiled)
    requires
        selection_fault(roles, build) is None,
    ensures
        roles.no_duplicates(),
        forall|i: int| 0 <= i < roles.len() ==> (#[trigger] roles[i]).carried(build),
    decreases roles.len(),
{
    if roles.len() > 0 {
        let before = roles.drop_last();
        lemma_no_fault(before, build);
        assert forall|i: int| 0 <= i < roles.len() implies (#[trigger] roles[i]).carried(build) by {
            if i < before.len() {
                assert(before[i].carried(build));
            }
        }
        assert forall|i: int, j: int| 0 <= i < j < roles.len() implies roles[i] != roles[j] by {
            if j < before.len() {
                assert(before[i] != before[j]);
            } else {
                assert(before.contains(before[i]));
            }
        }
    }
}

#[derive(Clone, Copy, Debug, PartialEq, Eq, Structural)]
pub struct RoleLifecycle {
    pub role: RuntimeRole,
    pub state: LifecycleState,
}

/// How the roles of a process are composed.
pub struct RuntimeComposition;

impl RuntimeComposition {
    /// What is reported of the roles once all of them were started.
    pub fn started(roles: &RoleSet) -> (r: Vec<RoleLifecycle>)
        ensures
            r@ == roles@.map_values(
                |role: RuntimeRole| RoleLifecycle { role, state: LifecycleState::Running },
            ),
    {
        let ghost f = |role: RuntimeRole| RoleLifecycle { role, state: LifecycleState::Running };
        let mut out: Vec<RoleLifecycle> = Vec::new();
        let mut i: usize = 0;
        while i < roles.0.len()
            invariant
                i <= roles.0@.len(),
                f == (|role: RuntimeRole| RoleLifecycle { role, state: LifecycleState::Running }),
                out@ == roles.0@.take(i as int).map_values(f),
            decreases roles.0@.len() - i,
        {
            let ghost done = out@;
            out.push(RoleLifecycle { role: roles.0[i], state: LifecycleState::Running });
            assert(out@ =~= roles.0@.take(i + 1).map_values(f));
            i += 1;
        }
        assert(roles.0@.take(roles.0@.len() as int) =~= roles.0@);
        out
    }
}

/// How a role's task ended.
#[derive(Debug)]
pub enum TaskEnd {
    /// The role returned.
    Finished,
    /// The role failed.
    Failed { role: RuntimeRole, message: String },
    /// The task was cancelled or panicked.
    Broken { message: String },
}

#[derive(Debug)]
pub enum RuntimeError {
    RoleFailed { role: RuntimeRole, message: String },
    TaskFailed { message: String },
}

impl RuntimeError {
    /// The error in words.
    pub open spec fn says(self) -> Seq<char> {
        match self {
            RuntimeError::RoleFailed { role, message } => "runtime role '"@ + role.spelled() + "' failed: "@
                + message@,
            RuntimeError::TaskFailed { message } => "runtime role task failed: "@ + message@,
        }
    }

    /// The error in words.
    pub fn message(&self) -> (r: String)
        ensures
            r@ == self.says(),
    {
        match self {
            RuntimeError::RoleFailed { role, message } => "runtime role '".to_owned().concat(
                role.name(),
            ).concat("' failed: ").concat(message),
            RuntimeError::TaskFailed { message } => "runtime role task failed: ".to_owned().concat(
                message,
            ),
        }
    }
}

/// How the process ends once the first of its roles has; nothing where there
/// was no role. A role that returns ends the process, and so does one that
/// fails.
pub fn conclude(first: Option<TaskEnd>) -> (r: std::result::Result<(), RuntimeError>)
    ensures
        match first {
            None => r is Ok,
            Some(TaskEnd::Finished) => r is Ok,
            Some(TaskEnd::Failed { role, message }) => r == Err::<(), RuntimeError>(
                RuntimeError::RoleFailed { role, message },
            ),
            Some(TaskEnd::Broken { message }) => r == Err::<(), RuntimeError>(
                RuntimeError::TaskFailed { message },
            ),
        },
{
    match first {
        None => Ok(()),
        Some(TaskEnd::Finished) => Ok(()),
        Some(TaskEnd::Failed { role, message }) => Err(RuntimeError::RoleFailed { role, message }),
        Some(TaskEnd::Broken { message }) => Err(RuntimeError::TaskFailed { message }),
    }
}

/// How long the background tasks of a role wait between two rounds.
pub const ROUND_MS: u64 = 250;

/// How long the indexer waits for an embedding provider.
pub const PROVIDER_TIMEOUT_MS: u64 = 10_000;

/// How a client reaches the server.
#[derive(Clone, Copy, Debug, PartialEq, Eq, Structural)]
pub enum Transport {
    Stdio,
    Http,
}

/// The server's own role.
#[derive(Debug)]
pub struct McpTransportService {
    pub transport: Transport,
    pub bind_addr: String,
}

impl McpTransportService {
    pub fn new(transport: Transport, bind_addr: String) -> (r: Self)
        ensures
            r.transport == transport,
            r.bind_addr == bind_addr,
    {
        McpTransportService { transport, bind_addr }
    }

    /// How the role's task ended, given how the transport did.
    pub fn ended(&self, outcome: std::result::Result<(), String>) -> (r: TaskEnd)
        ensures
            r == (match outcome {
                Ok(_) => TaskEnd::Finished,
                Err(message) => TaskEnd::Failed { role: RuntimeRole::Mcp, message },
            }),
    {
        match outcome {
            Ok(_) => TaskEnd::Finished,
            Err(message) => TaskEnd::Failed { role: RuntimeRole::Mcp, message },
        }
    }
}

/// The role that embeds what changed.
#[derive(Debug)]
pub struct IndexerService {
    pub database: String,
    pub timeout_ms: u64,
}

impl IndexerService {
    pub fn from_environment(database: String) -> (r: crate::errors::Result<Self>)
        ensures
            r matches Ok(s) && s.database == database && s.timeout_ms == PROVIDER_TIMEOUT_MS,
    {
        Ok(IndexerService { database, timeout_ms: PROVIDER_TIMEOUT_MS })
    }

    /// What follows a round of the worker: another one after a wait, or the
    /// end of the role.
    pub fn after_round(&self, outcome: std::result::Result<(), String>) -> (r: std::result::Result<
        u64,
        TaskEnd,
    >)
        ensures
            r == (match outcome {
                Ok(_) => Ok::<u64, TaskEnd>(ROUND_MS),
                Err(message) => Err(TaskEnd::Failed { role: RuntimeRole::Indexer, message }),
            }),
    {
        match outcome {
            Ok(_) => Ok(ROUND_MS),
            Err(message) => Err(TaskEnd::Failed { role: RuntimeRole::Indexer, message }),
        }
    }
}

/// A list of roles is accepted exactly where each name in it, up to the white
/// space around it, is that of a role that the build carries and that no earlier
/// name stands for; the roles come in the order of the list.
pub proof fn law_which_selections_are_accepted(input: Seq<char>, build: Compiled)
    ensures
        selected(input, build) matches Ok(roles) ==> roles.len() == text::split(input, ',').len() && forall|i: int|
            0 <= i < roles.len() ==> text::trimmed(#[trigger] text::split(input, ',')[i]) == roles[i].spelled(),
        forall|roles: Seq<RuntimeRole>|
            {
                &&& roles.len() == text::split(input, ',').len()
                &&& text::trimmed(input).len() > 0
                &&& #[trigger] roles.no_duplicates()
                &&& forall|i: int|
                    0 <= i < roles.len() ==> text::trimmed(#[trigger] text::split(input, ',')[i])
                        == roles[i].spelled() && roles[i].carried(build)
            } ==> selected(input, build) == Ok::<Seq<RuntimeRole>, ConfigFault>(roles),
{
    let names = text::split(input, ',');
    lemma_names(names);
    if let Ok(roles) = selected(input, build) {
        assert forall|i: int| 0 <= i < roles.len() implies text::trimmed(#[trigger] names[i]) == roles[i].spelled() by {
            lemma_spelling(text::trimmed(names[i]), roles[i]);
        }
    }
    assert forall|roles: Seq<RuntimeRole>|
        {
            &&& roles.len() == names.len()
            &&& text::trimmed(input).len() > 0
            &&& #[trigger] roles.no_duplicates()
            &&& forall|i: int|
                0 <= i < roles.len() ==> text::trimmed(#[trigger] names[i]) == roles[i].spelled()
                    && roles[i].carried(build)
        } implies selected(input, build) == Ok::<Seq<RuntimeRole>, ConfigFault>(roles) by {
        assert forall|i: int| 0 <= i < names.len() implies role_named(text::trimmed(#[trigger] names[i])) == Ok::<
            RuntimeRole,
            ConfigFault,
        >(roles[i]) by {
            lemma_spelling(text::trimmed(names[i]), roles[i]);
        }
        assert(roles_named(names) is Ok);
        let found = roles_named(names)->Ok_0;
        assert forall|i: int| 0 <= i < roles.len() implies #[trigger] roles[i].carried(build) && found[i]
            == roles[i] by {
            assert(role_named(text::trimmed(names[i])) == Ok::<RuntimeRole, ConfigFault>(roles[i]));
        }
        assert(found =~= roles);
        lemma_faultless(roles, build);
    }
}

proof fn lemma_spelling(s: Seq<char>, role: RuntimeRole)
    ensures
        role_named(s) == Ok::<RuntimeRole, ConfigFault>(role) <==> s == role.spelled(),
{
    reveal_strlit("mcp");
    reveal_strlit("indexer");
    reveal_strlit("webhooks");
    assert("mcp"@.len() == 3 && "indexer"@.len() == 7 && "webhooks"@.len() == 8);
}

proof fn lemma_names(names: Seq<Seq<char>>)
    ensures
        roles_named(names) is Ok <==> forall|i: int|
            0 <= i < names.len() ==> role_named(text::trimmed(#[trigger] names[i])) is Ok,
        roles_named(names) matches Ok(roles) ==> roles.len() == names.len() && forall|i: int|
            0 <= i < names.len() ==> role_named(text::trimmed(#[trigger] names[i])) == Ok::<
                RuntimeRole,
                ConfigFault,
            >(roles[i]),
    decreases names.len(),
{
    if names.len() > 0 {
        let front = names.drop_last();
        lemma_names(front);
        assert(names[names.len() - 1] == names.last());
        if forall|i: int| 0 <= i < names.len() ==> role_named(text::trimmed(#[trigger] names[i])) is Ok {
            assert forall|i: int| 0 <= i < front.len() implies role_named(text::trimmed(#[trigger] front[i])) is Ok by {
                assert(front[i] == names[i]);
            }
        }
        if roles_named(names) is Ok {
            let roles = roles_named(names)->Ok_0;
            assert forall|i: int| 0 <= i < names.len() implies role_named(text::trimmed(#[trigger] names[i])) == Ok::<
                RuntimeRole,
                ConfigFault,
            >(roles[i]) by {
                if i < front.len() {
                    assert(front[i] == names[i]);
                }
            }
        }
    }
}

proof fn lemma_faultless(roles: Seq<RuntimeRole>, build: Compiled)
    requires
        roles.no_duplicates(),
        forall|i: int| 0 <= i < roles.len() ==> (#[trigger] roles[i]).carried(build),
    ensures
        selection_fault(roles, build) is None,
    decreases roles.len(),
{
    if roles.len() > 0 {
        let front = roles.drop_last();
        assert forall|i: int| 0 <= i < front.len() implies (#[trigger] front[i]).carried(build) by {
            assert(front[i] == roles[i]);
        }
        lemma_faultless(front, build);
        assert(roles[roles.len() - 1] == roles.last());
        if front.contains(roles.last()) {
            let i = front.index_of(roles.last());
            assert(roles[i] == roles[roles.len() - 1]);
        }
    }
}

/// The server is always there; the other roles are there where the build carries
/// them.
pub proof fn law_the_server_is_always_carried(build: Compiled)
    ensures
        RuntimeRole::Mcp.carried(build),
        RuntimeRole::Indexer.carried(build) <==> build.indexer,
        RuntimeRole::Webhooks.carried(build) <==> build.webhooks,
{
}

/// A fault of the configuration is seen as what it is, with the role it is about.
pub proof fn law_a_fault_is_seen_whole(e: ConfigError)
    ensures
        e is EmptyRoleSet <==> e@ is EmptyRoleSet,
        e is EmptyRoleName <==> e@ is EmptyRoleName,
        e matches ConfigError::UnknownRole(n) ==> (e@ matches ConfigFault::UnknownRole(m) && m == n@),
        e matches ConfigError::DuplicateRole(r) ==> (e@ matches ConfigFault::DuplicateRole(s) && s == r),
        e matches ConfigError::RoleNotCompiled(r) ==> (e@ matches ConfigFault::RoleNotCompiled(s) && s == r),
{
}

} // verus!
