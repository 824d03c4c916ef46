//! Static service definitions and the mutable per-service runtime record.
use vstd::prelude::*;

verus! {

/// A service definition as loaded from a definition file.
#[derive(Debug, Clone)]
pub struct ServiceDefinition {
    pub service: ServiceConfig,
}

/// The body of a service definition.
#[derive(Debug, Clone)]
pub struct ServiceConfig {
    pub name: String,
    pub description: String,
    pub service_type: ServiceType,
    pub execution: ExecConfig,
    pub dependencies: Dependencies,
    /// Environment variables handed to the process, in declaration order.
    pub environment: Vec<(String, String)>,
    pub restart: RestartPolicy,
}

impl ServiceConfig {
    /// Each environment variable is declared once.
    pub open spec fn wf(&self) -> bool {
        forall|i: int, j: int|
            0 <= i < j < self.environment@.len() ==> #[trigger] self.environment@[i].0@
                != #[trigger] self.environment@[j].0@
    }
}

#[derive(Debug, Clone, Copy, PartialEq, Eq, Structural)]
pub enum ServiceType {
    Simple,
    Forking,
    Oneshot,
    Notify,
}

/// How the service's process is launched.
#[derive(Debug, Clone)]
pub struct ExecConfig {
    /// Command line; split on whitespace, the first word names the program.
    pub start: String,
    pub stop: Option<String>,
    pub user: Option<String>,
    pub group: Option<String>,
    pub working_directory: Option<String>,
}

/// Ordering hints between services; carried but not evaluated here.
#[derive(Debug, Clone)]
pub struct Dependencies {
    pub after: Vec<String>,
    pub requires: Vec<String>,
    pub wants: Vec<String>,
}

impl Default for Dependencies {
    fn default() -> (r: Self)
        ensures
            r.after@.len() == 0,
            r.requires@.len() == 0,
            r.wants@.len() == 0,
    {
        Dependencies { after: Vec::new(), requires: Vec::new(), wants: Vec::new() }
    }
}

/// What happens when a running service's process goes away.
#[derive(Debug, Clone, Copy, PartialEq, Eq, Structural)]
pub struct RestartPolicy {
    pub policy: RestartPolicyType,
    pub delay_seconds: u64,
    pub max_retries: u32,
}

#[derive(Debug, Clone, Copy, PartialEq, Eq, Structural)]
pub enum RestartPolicyType {
    Never,
    Always,
    OnFailure,
    OnAbnormalExit,
}

pub const DEFAULT_DELAY_SECONDS: u64 = 5;

pub const DEFAULT_MAX_RETRIES: u32 = 3;

pub fn default_restart_policy() -> (r: RestartPolicyType)
    ensures
        r == RestartPolicyType::Never,
{
    RestartPolicyType::Never
}

pub fn default_delay() -> (r: u64)
    ensures
        r == DEFAULT_DELAY_SECONDS,
{
    DEFAULT_DELAY_SECONDS
}

pub fn default_max_retries() -> (r: u32)
    ensures
        r == DEFAULT_MAX_RETRIES,
{
    DEFAULT_MAX_RETRIES
}

impl Default for RestartPolicy {
    fn default() -> (r: Self)
        ensures
            r == (RestartPolicy {
                policy: RestartPolicyType::Never,
                delay_seconds: DEFAULT_DELAY_SECONDS,
                max_retries: DEFAULT_MAX_RETRIES,
            }),
    {
        RestartPolicy {
            policy: default_restart_policy(),
            delay_seconds: default_delay(),
            max_retries: default_max_retries(),
        }
    }
}

/// Lifecycle state of a service instance.
#[derive(Debug, Clone, Copy, PartialEq, Eq, Structural)]
pub enum ServiceState {
    Stopped,
    Starting,
    Running,
    Stopping,
    Failed,
}

impl ServiceState {
    /// The label shown to clients.
    pub open spec fn label_spec(self) -> Seq<char> {
        match self {
            ServiceState::Stopped => "Stopped"@,
            ServiceState::Starting => "Starting"@,
            ServiceState::Running => "Running"@,
            ServiceState::Stopping => "Stopping"@,
            ServiceState::Failed => "Failed"@,
        }
    }

    pub fn label(&self) -> (r: String)
        ensures
            r@ == self.label_spec(),
    {
        match self {
            ServiceState::Stopped => "Stopped".to_owned(),
            ServiceState::Starting => "Starting".to_owned(),
            ServiceState::Running => "Running".to_owned(),
            ServiceState::Stopping => "Stopping".to_owned(),
            ServiceState::Failed => "Failed".to_owned(),
        }
    }
}

/// The supervisor's live record of one service.
#[derive(Debug, Clone)]
pub struct ServiceInstance {
    pub definition: ServiceDefinition,
    pub state: ServiceState,
    /// The process believed alive for this service, if any.
    pub pid: Option<u32>,
    /// Automatic restarts since the last manual start.
    pub restart_count: u32,
}

impl ServiceInstance {
    /// A process id that can be signalled on its own (not a process group).
    pub open spec fn valid_pid(pid: u32) -> bool {
        1 <= pid <= i32::MAX
    }

    /// A running service has a process; only a running or failed service
    /// can have one (a failed one keeps a process that a termination signal
    /// could not reach). The definition is well formed.
    pub open spec fn wf(&self) -> bool {
        &&& (self.state == ServiceState::Running ==> self.pid is Some)
        &&& (self.pid is Some ==> (self.state == ServiceState::Running || self.state
            == ServiceState::Failed))
        &&& (self.pid matches Some(p) ==> Self::valid_pid(p))
        &&& self.definition.service.wf()
    }

    pub open spec fn name(&self) -> Seq<char> {
        self.definition.service.name@
    }

    pub fn new(definition: ServiceDefinition) -> (r: Self)
        requires
            definition.service.wf(),
        ensures
            r.definition == definition,
            r.state == ServiceState::Stopped,
            r.pid is None,
            r.restart_count == 0,
            r.wf(),
    {
        ServiceInstance { definition, state: ServiceState::Stopped, pid: None, restart_count: 0 }
    }
}

} // verus!
