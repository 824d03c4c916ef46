//! The service registry: one instance per service name, and the state
//! machine that start, stop and process exits drive it through.
use vstd::prelude::*;

use crate::protocol::ServiceStatus;
use crate::service::{
    ExecConfig, RestartPolicy, RestartPolicyType, ServiceDefinition, ServiceInstance, ServiceState,
};
use crate::text::{
    chars_of, clone_opt, clone_pairs, is_whitespace, lemma_views_push, opt_view, pair_views,
    same_text, views, whitespace,
};

verus! {

/// The words of `s`, separated by Unicode whitespace, where `cur` is a
/// word already under way.
pub open spec fn words_from(s: Seq<char>, cur: Seq<char>) -> Seq<Seq<char>>
    decreases s.len(),
{
    if s.len() == 0 {
        if cur.len() == 0 {
            Seq::empty()
        } else {
            seq![cur]
        }
    } else if is_whitespace(s[0]) {
        if cur.len() == 0 {
            words_from(s.drop_first(), Seq::empty())
        } else {
            seq![cur] + words_from(s.drop_first(), Seq::empty())
        }
    } else {
        words_from(s.drop_first(), cur.push(s[0]))
    }
}

/// The whitespace-separated words of a command line.
pub open spec fn command_words(s: Seq<char>) -> Seq<Seq<char>> {
    words_from(s, Seq::empty())
}

/// Splits a command line into its whitespace-separated words.
pub fn split_command(line: &str) -> (r: Vec<String>)
    ensures
        views(r@) == command_words(line@),
{
    let chars = chars_of(line);
    let mut parts: Vec<String> = Vec::new();
    let mut cur = String::new();
    let mut i: usize = 0;
    assert(chars@.subrange(0, chars@.len() as int) =~= chars@);
    assert(views(parts@) + command_words(line@) =~= command_words(line@));
    while i < chars.len()
        invariant
            i <= chars.len(),
            chars@ == line@,
            views(parts@) + words_from(chars@.subrange(i as int, chars@.len() as int), cur@)
                == command_words(line@),
        decreases chars.len() - i,
    {
        let c = chars[i];
        let ghost rest = chars@.subrange(i as int, chars@.len() as int);
        assert(rest.drop_first() =~= chars@.subrange(i + 1, chars@.len() as int));
        assert(rest[0] == c);
        if whitespace(c) {
            if !cur.as_str().is_empty() {
                proof {
                    lemma_views_push(parts@, cur);
                    assert(views(parts@.push(cur)) + words_from(rest.drop_first(), Seq::empty())
                        =~= views(parts@) + (seq![cur@] + words_from(rest.drop_first(), Seq::empty())));
                }
                parts.push(cur);
                cur = String::new();
            } else {
                assert(cur@ =~= Seq::<char>::empty());
            }
        } else {
            crate::text::push_char(&mut cur, c);
        }
        i = i + 1;
    }
    if !cur.as_str().is_empty() {
        proof {
            lemma_views_push(parts@, cur);
        }
        parts.push(cur);
    } else {
        assert(views(parts@) + Seq::<Seq<char>>::empty() =~= views(parts@));
    }
    parts
}

/// What a spawned process is given: program, arguments, environment and directory.
#[derive(Debug)]
pub struct LaunchPlan {
    pub program: String,
    pub args: Vec<String>,
    pub environment: Vec<(String, String)>,
    pub working_directory: Option<String>,
}

impl LaunchPlan {
    /// The plan launches the command line of `exec` with `env`.
    pub open spec fn follows(&self, exec: ExecConfig, env: Seq<(String, String)>) -> bool {
        let words = command_words(exec.start@);
        &&& words.len() > 0
        &&& self.program@ == words[0]
        &&& views(self.args@) == words.drop_first()
        &&& pair_views(self.environment@) == pair_views(env)
        &&& opt_view(self.working_directory) == opt_view(exec.working_directory)
    }
}

/// Outcome of a start request.
#[derive(Debug)]
pub enum StartDecision {
    /// No service of that name.
    NotFound,
    /// Already running or starting: nothing to do.
    AlreadyActive,
    /// The command line is empty: the service is now Failed.
    Rejected,
    /// The service is now Starting: spawn the plan, then call `finish_start`.
    Launch(LaunchPlan),
}

/// What a stop request has to do.
#[derive(Debug, Clone, Copy, PartialEq, Eq, Structural)]
pub enum StopPlan {
    NotFound,
    /// No process is recorded: nothing to do.
    AlreadyStopped,
    /// Running, or failed with a process that an earlier signal missed:
    /// deliver a termination signal to this process.
    Signal(u32),
}

/// How a supervised process ended.
#[derive(Debug, Clone, Copy, PartialEq, Eq, Structural)]
pub enum ExitKind {
    /// It exited with this status code.
    Code(i32),
    /// It was terminated by this signal.
    Signal(i32),
}

/// The service names of a list of restarts.
pub open spec fn respawn_names(v: Seq<Respawn>) -> Seq<Seq<char>> {
    v.map_values(|r: Respawn| r.name@)
}

/// An automatic restart that is due after `delay_seconds`.
#[derive(Debug)]
pub struct Respawn {
    pub name: String,
    pub delay_seconds: u64,
}

/// Whether the policy asks for a restart after this exit, retries aside.
pub open spec fn policy_wants_restart(policy: RestartPolicyType, exit: ExitKind) -> bool {
    match policy {
        RestartPolicyType::Never => false,
        RestartPolicyType::Always => true,
        RestartPolicyType::OnFailure => exit != ExitKind::Code(0),
        RestartPolicyType::OnAbnormalExit => exit is Signal,
    }
}

/// Whether an instance that has made `count` automatic restarts is restarted after `exit`.
pub open spec fn restarts(policy: RestartPolicy, count: u32, exit: ExitKind) -> bool {
    policy_wants_restart(policy.policy, exit) && count < policy.max_retries
}

/// Decides whether a crashed service is restarted.
pub fn should_restart(policy: &RestartPolicy, count: u32, exit: ExitKind) -> (r: bool)
    ensures
        r == restarts(*policy, count, exit),
{
    let wants = match policy.policy {
        RestartPolicyType::Never => false,
        RestartPolicyType::Always => true,
        RestartPolicyType::OnFailure => match exit {
            ExitKind::Code(c) => c != 0,
            ExitKind::Signal(_) => true,
        },
        RestartPolicyType::OnAbnormalExit => match exit {
            ExitKind::Code(_) => false,
            ExitKind::Signal(_) => true,
        },
    };
    wants && count < policy.max_retries
}

/// The instance with its runtime fields replaced.
pub open spec fn with_runtime(
    inst: ServiceInstance,
    state: ServiceState,
    pid: Option<u32>,
    restart_count: u32,
) -> ServiceInstance {
    ServiceInstance { definition: inst.definition, state, pid, restart_count }
}

/// The instance after its process ended with `exit`: a failed service
/// only loses the process; a running one follows its restart policy.
pub open spec fn after_exit(inst: ServiceInstance, exit: ExitKind) -> ServiceInstance {
    if inst.state == ServiceState::Failed {
        with_runtime(inst, ServiceState::Failed, None, inst.restart_count)
    } else if restarts(inst.definition.service.restart, inst.restart_count, exit) {
        with_runtime(inst, ServiceState::Starting, None, (inst.restart_count + 1) as u32)
    } else {
        with_runtime(inst, ServiceState::Failed, None, inst.restart_count)
    }
}

/// The registry after one definition is loaded: a known name keeps its
/// runtime state and takes the new definition, a new name starts Stopped.
pub open spec fn upsert(m: Map<Seq<char>, ServiceInstance>, d: ServiceDefinition) -> Map<
    Seq<char>,
    ServiceInstance,
> {
    let n = d.service.name@;
    if m.contains_key(n) {
        m.insert(
            n,
            ServiceInstance {
                definition: d,
                state: m[n].state,
                pid: m[n].pid,
                restart_count: m[n].restart_count,
            },
        )
    } else {
        m.insert(
            n,
            ServiceInstance {
                definition: d,
                state: ServiceState::Stopped,
                pid: None,
                restart_count: 0,
            },
        )
    }
}

/// The registry after the definitions are loaded in order.
pub open spec fn load_all(m: Map<Seq<char>, ServiceInstance>, defs: Seq<ServiceDefinition>) -> Map<
    Seq<char>,
    ServiceInstance,
>
    decreases defs.len(),
{
    if defs.len() == 0 {
        m
    } else {
        upsert(load_all(m, defs.drop_last()), defs.last())
    }
}

/// The registry after every process with id `pid` ended with `exit`.
pub open spec fn exits_applied(m: Map<Seq<char>, ServiceInstance>, pid: u32, exit: ExitKind) -> Map<
    Seq<char>,
    ServiceInstance,
> {
    Map::new(
        |n: Seq<char>| m.contains_key(n),
        |n: Seq<char>|
            if m[n].pid == Some(pid) {
                after_exit(m[n], exit)
            } else {
                m[n]
            },
    )
}

/// The public view of an instance.
pub open spec fn status_of(st: ServiceStatus, inst: ServiceInstance) -> bool {
    &&& st.name@ == inst.name()
    &&& st.state@ == inst.state.label_spec()
    &&& st.pid == inst.pid
    &&& !st.enabled
    &&& st.restart_count == inst.restart_count
}

/// Every instance is filed under its own name and is well formed.
pub open spec fn consistent(m: Map<Seq<char>, ServiceInstance>) -> bool {
    forall|n: Seq<char>| #[trigger] m.contains_key(n) ==> m[n].name() == n && m[n].wf()
}

/// The set of service instances, keyed by service name.
pub struct Registry {
    services: Vec<ServiceInstance>,
    model: Ghost<Map<Seq<char>, ServiceInstance>>,
}

impl View for Registry {
    type V = Map<Seq<char>, ServiceInstance>;

    closed spec fn view(&self) -> Map<Seq<char>, ServiceInstance> {
        self.model@
    }
}

impl Registry {
    pub closed spec fn wf(&self) -> bool {
        &&& forall|i: int, j: int|
            0 <= i < j < self.services.len() ==> #[trigger] self.services[i].name()
                != #[trigger] self.services[j].name()
        &&& forall|i: int|
            0 <= i < self.services.len() ==> #[trigger] self.model@.contains_key(
                self.services[i].name(),
            ) && self.model@[self.services[i].name()] == self.services[i]
        &&& forall|n: Seq<char>| #[trigger]
            self.model@.contains_key(n) ==> exists|i: int|
                0 <= i < self.services.len() && #[trigger] self.services[i].name() == n
        &&& forall|i: int| 0 <= i < self.services.len() ==> #[trigger] self.services[i].wf()
    }

    /// A well-formed registry files each instance under its name, and each
    /// instance holds a process exactly while it is running.
    pub proof fn lemma_consistent(&self)
        requires
            self.wf(),
        ensures
            consistent(self@),
    {
        assert forall|n: Seq<char>| #[trigger] self@.contains_key(n) implies self@[n].name() == n
            && self@[n].wf() by {
            let i = choose|i: int| 0 <= i < self.services.len() && self.services[i].name() == n;
            assert(self.model@.contains_key(self.services[i].name()));
        }
    }

    pub fn new() -> (r: Self)
        ensures
            r.wf(),
            r@ == Map::<Seq<char>, ServiceInstance>::empty(),
    {
        Registry { services: Vec::new(), model: Ghost(Map::empty()) }
    }

    fn find(&self, name: &str) -> (r: Option<usize>)
        requires
            self.wf(),
        ensures
            r matches Some(i) ==> i < self.services.len() && self.services[i as int].name()
                == name@ && self@.contains_key(name@) && self@[name@] == self.services[i as int],
            r is None ==> !self@.contains_key(name@),
    {
        let mut i: usize = 0;
        while i < self.services.len()
            invariant
                self.wf(),
                i <= self.services.len(),
                forall|k: int| 0 <= k < i ==> self.services[k].name() != name@,
            decreases self.services.len() - i,
        {
            if same_text(self.services[i].definition.service.name.as_str(), name) {
                assert(self.model@.contains_key(self.services[i as int].name()));
                return Some(i);
            }
            i = i + 1;
        }
        proof {
            if self@.contains_key(name@) {
                let k = choose|k: int| 0 <= k < self.services.len() && self.services[k].name() == name@;
                assert(false);
            }
        }
        None
    }

    /// Replaces the runtime fields of the instance at `i`.
    fn set_runtime(&mut self, i: usize, state: ServiceState, pid: Option<u32>, restart_count: u32)
        requires
            old(self).wf(),
            i < old(self).services.len(),
            state == ServiceState::Running ==> pid is Some,
            pid is Some ==> state == ServiceState::Running || state == ServiceState::Failed,
            pid matches Some(p) ==> ServiceInstance::valid_pid(p),
        ensures
            final(self).wf(),
            final(self).services.len() == old(self).services.len(),
            forall|j: int|
                0 <= j < old(self).services.len() ==> #[trigger] final(self).services[j].name()
                    == old(self).services[j].name(),
            final(self)@ == old(self)@.insert(
                old(self).services[i as int].name(),
                with_runtime(old(self).services[i as int], state, pid, restart_count),
            ),
    {
        let ghost n = self.services[i as int].name();
        let ghost before = self.services@;
        assert(before[i as int].wf());
        let mut inst = self.services.remove(i);
        inst.state = state;
        inst.pid = pid;
        inst.restart_count = restart_count;
        assert(inst.name() == n);
        self.services.insert(i, inst);
        self.model = Ghost(self.model@.insert(n, inst));
        assert(self.services@ =~= before.update(i as int, inst));
        assert forall|j: int| 0 <= j < self.services.len() implies #[trigger] self.model@.contains_key(
            self.services[j].name()) && self.model@[self.services[j].name()] == self.services[j] by {
            if j != i {
                assert(before[j].name() != n);
                assert(old(self).model@.contains_key(before[j].name()));
            }
        }
        assert forall|n2: Seq<char>| #[trigger]
            self.model@.contains_key(n2) implies exists|k: int|
                0 <= k < self.services.len() && #[trigger] self.services[k].name() == n2 by {
            if n2 != n {
                let k = choose|k: int| 0 <= k < before.len() && #[trigger] before[k].name() == n2;
                assert(self.services[k].name() == n2);
            } else {
                assert(self.services[i as int].name() == n2);
            }
        }
        assert(self@ =~= old(self)@.insert(n, with_runtime(old(self).services[i as int], state, pid, restart_count)));
    }

    /// Loads one definition: a known name takes the new definition and keeps
    /// its runtime state; a new name gets a fresh Stopped instance.
    fn upsert_one(&mut self, def: ServiceDefinition)
        requires
            old(self).wf(),
            def.service.wf(),
        ensures
            final(self).wf(),
            final(self)@ == upsert(old(self)@, def),
    {
        let ghost n = def.service.name@;
        let found = self.find(def.service.name.as_str());
        let ghost before = self.services@;
        match found {
            Some(i) => {
                assert(before[i as int].wf());
                let mut inst = self.services.remove(i);
                inst.definition = def;
                assert(inst.wf());
                self.services.insert(i, inst);
                self.model = Ghost(self.model@.insert(n, inst));
                assert(self.services@ =~= before.update(i as int, inst));
                assert forall|j: int| 0 <= j < self.services.len() implies #[trigger] self.model@.contains_key(
                    self.services[j].name()) && self.model@[self.services[j].name()] == self.services[j] by {
                    if j != i {
                        assert(before[j].name() != n);
                        assert(old(self).model@.contains_key(before[j].name()));
                    }
                }
                assert forall|n2: Seq<char>| #[trigger]
                    self.model@.contains_key(n2) implies exists|k: int|
                        0 <= k < self.services.len() && #[trigger] self.services[k].name() == n2 by {
                    if n2 != n {
                        let k = choose|k: int| 0 <= k < before.len() && #[trigger] before[k].name() == n2;
                        assert(self.services[k].name() == n2);
                    } else {
                        assert(self.services[i as int].name() == n2);
                    }
                }
            },
            None => {
                let inst = ServiceInstance::new(def);
                self.services.push(inst);
                assert(self.services@ == before.push(inst));
                assert(forall|j: int| 0 <= j < before.len() ==> #[trigger] before[j].wf());
                self.model = Ghost(self.model@.insert(n, inst));
                assert forall|j: int| 0 <= j < self.services.len() implies #[trigger] self.model@.contains_key(
                    self.services[j].name()) && self.model@[self.services[j].name()] == self.services[j] by {
                    if j < before.len() {
                        assert(old(self).model@.contains_key(before[j].name()));
                        assert(before[j].name() != n);
                    }
                }
                assert forall|i: int, j: int|
                    0 <= i < j < self.services.len() implies #[trigger] self.services[i].name()
                        != #[trigger] self.services[j].name() by {
                    if j == before.len() {
                        if before[i].name() == n {
                            assert(old(self).model@.contains_key(before[i].name()));
                        }
                    }
                }
                assert forall|n2: Seq<char>| #[trigger]
                    self.model@.contains_key(n2) implies exists|k: int|
                        0 <= k < self.services.len() && #[trigger] self.services[k].name() == n2 by {
                    if n2 != n {
                        let k = choose|k: int| 0 <= k < before.len() && #[trigger] before[k].name() == n2;
                        assert(self.services[k].name() == n2);
                    } else {
                        assert(self.services[before.len() as int].name() == n2);
                    }
                }
            },
        }
        assert(self@ =~= upsert(old(self)@, def));
        assert(forall|i: int, j: int|
            0 <= i < j < self.services.len() ==> #[trigger] self.services[i].name()
                != #[trigger] self.services[j].name());
        assert(forall|n: Seq<char>| #[trigger]
            self.model@.contains_key(n) ==> exists|i: int|
                0 <= i < self.services.len() && #[trigger] self.services[i].name() == n);
        assert(forall|i: int| 0 <= i < self.services.len() ==> #[trigger] self.services[i].wf());
    }

    /// Loads definitions in order; a name seen again takes the later definition.
    pub fn load(&mut self, defs: Vec<ServiceDefinition>)
        requires
            old(self).wf(),
            forall|k: int| 0 <= k < defs.len() ==> (#[trigger] defs[k]).service.wf(),
        ensures
            final(self).wf(),
            final(self)@ == load_all(old(self)@, defs@),
    {
        let ghost all = defs@;
        let ghost start = self@;
        let mut k: usize = 0;
        let total = defs.len();
        let mut defs = defs;
        while defs.len() > 0
            invariant
                self.wf(),
                all.len() == total,
                k + defs.len() == all.len(),
                defs@ == all.subrange(k as int, all.len() as int),
                forall|t: int| 0 <= t < all.len() ==> (#[trigger] all[t]).service.wf(),
                self@ == load_all(start, all.subrange(0, k as int)),
            decreases defs.len(),
        {
            assert(all[k as int] == defs@[0]);
            let d = defs.remove(0);
            proof {
                assert(all.subrange(0, k + 1).drop_last() =~= all.subrange(0, k as int));
            }
            self.upsert_one(d);
            k = k + 1;
        }
        assert(all.subrange(0, all.len() as int) =~= all);
    }

    /// The instance filed under `name`.
    pub fn get(&self, name: &str) -> (r: Option<&ServiceInstance>)
        requires
            self.wf(),
        ensures
            r matches Some(inst) ==> self@.contains_key(name@) && *inst == self@[name@],
            r is None ==> !self@.contains_key(name@),
    {
        match self.find(name) {
            Some(i) => Some(&self.services[i]),
            None => None,
        }
    }

    /// A manual start request. Running and starting services are left as
    /// they are; otherwise the retry counter is reset and the command line
    /// is checked: an empty one fails the service, any other is launched.
    pub fn begin_start(&mut self, name: &str) -> (r: StartDecision)
        requires
            old(self).wf(),
        ensures
            final(self).wf(),
            final(self)@ == started(old(self)@, name@),
            match start_case(old(self)@, name@) {
                StartCase::NotFound => r is NotFound,
                StartCase::AlreadyActive => r is AlreadyActive,
                StartCase::Rejected => r is Rejected,
                StartCase::Launch => r matches StartDecision::Launch(plan) && plan.follows(
                    old(self)@[name@].definition.service.execution,
                    old(self)@[name@].definition.service.environment@,
                ),
            },
    {
        let i = match self.find(name) {
            Some(i) => i,
            None => {
                return StartDecision::NotFound;
            },
        };
        let state = self.services[i].state;
        if state == ServiceState::Running || state == ServiceState::Starting {
            return StartDecision::AlreadyActive;
        }
        match self.plan_at(i) {
            Some(plan) => {
                self.set_runtime(i, ServiceState::Starting, None, 0);
                StartDecision::Launch(plan)
            },
            None => {
                self.set_runtime(i, ServiceState::Failed, None, 0);
                StartDecision::Rejected
            },
        }
    }

    /// The launch plan of the instance at `i`, if its command line has a word.
    fn plan_at(&self, i: usize) -> (r: Option<LaunchPlan>)
        requires
            self.wf(),
            i < self.services.len(),
        ensures
            ({
                let cfg = self.services[i as int].definition.service;
                if command_words(cfg.execution.start@).len() == 0 {
                    r is None
                } else {
                    r matches Some(plan) && plan.follows(cfg.execution, cfg.environment@)
                }
            }),
    {
        let cfg = &self.services[i].definition.service;
        let mut words = split_command(cfg.execution.start.as_str());
        if words.len() == 0 {
            return None;
        }
        let ghost all = words@;
        let program = words.remove(0);
        assert(views(words@) =~= views(all).drop_first());
        Some(
            LaunchPlan {
                program,
                args: words,
                environment: clone_pairs(&cfg.environment),
                working_directory: clone_opt(&cfg.execution.working_directory),
            },
        )
    }

    /// An automatic restart that has waited out its delay. Only a service
    /// still Starting is launched; one that was stopped or started in the
    /// meantime is left alone.
    pub fn resume_restart(&mut self, name: &str) -> (r: Option<LaunchPlan>)
        requires
            old(self).wf(),
        ensures
            final(self).wf(),
            ({
                if old(self)@.contains_key(name@) && old(self)@[name@].state
                    == ServiceState::Starting {
                    let inst = old(self)@[name@];
                    let cfg = inst.definition.service;
                    if command_words(cfg.execution.start@).len() == 0 {
                        &&& r is None
                        &&& final(self)@ == old(self)@.insert(
                            name@,
                            with_runtime(inst, ServiceState::Failed, None, inst.restart_count),
                        )
                    } else {
                        &&& r matches Some(plan) && plan.follows(
                            cfg.execution,
                            cfg.environment@,
                        )
                        &&& final(self)@ == old(self)@
                    }
                } else {
                    r is None && final(self)@ == old(self)@
                }
            }),
    {
        let i = match self.find(name) {
            Some(i) => i,
            None => {
                return None;
            },
        };
        if self.services[i].state != ServiceState::Starting {
            return None;
        }
        let plan = self.plan_at(i);
        if plan.is_none() {
            let count = self.services[i].restart_count;
            self.set_runtime(i, ServiceState::Failed, None, count);
        }
        plan
    }

    /// Records the outcome of spawning a Starting service: a usable process
    /// id makes it Running, anything else makes it Failed. Returns whether
    /// it is now Running; a service that is not Starting is left alone.
    pub fn finish_start(&mut self, name: &str, spawned: Option<u32>) -> (r: bool)
        requires
            old(self).wf(),
        ensures
            final(self).wf(),
            ({
                if old(self)@.contains_key(name@) && old(self)@[name@].state
                    == ServiceState::Starting {
                    let inst = old(self)@[name@];
                    if spawned matches Some(p) && ServiceInstance::valid_pid(p) {
                        &&& r
                        &&& final(self)@ == old(self)@.insert(
                            name@,
                            with_runtime(
                                inst,
                                ServiceState::Running,
                                spawned,
                                inst.restart_count,
                            ),
                        )
                    } else {
                        &&& !r
                        &&& final(self)@ == old(self)@.insert(
                            name@,
                            with_runtime(inst, ServiceState::Failed, None, inst.restart_count),
                        )
                    }
                } else {
                    !r && final(self)@ == old(self)@
                }
            }),
    {
        let i = match self.find(name) {
            Some(i) => i,
            None => {
                return false;
            },
        };
        if self.services[i].state != ServiceState::Starting {
            return false;
        }
        let count = self.services[i].restart_count;
        match spawned {
            Some(p) if 1 <= p && p <= 0x7fff_ffff => {
                self.set_runtime(i, ServiceState::Running, Some(p), count);
                true
            },
            _ => {
                self.set_runtime(i, ServiceState::Failed, None, count);
                false
            },
        }
    }

    /// What a stop request has to do; changes nothing.
    pub fn plan_stop(&self, name: &str) -> (r: StopPlan)
        requires
            self.wf(),
        ensures
            r == stop_plan_of(self@, name@),
    {
        proof {
            self.lemma_consistent();
        }
        match self.find(name) {
            None => StopPlan::NotFound,
            Some(i) => {
                let inst = &self.services[i];
                match inst.pid {
                    Some(p) => StopPlan::Signal(p),
                    None => StopPlan::AlreadyStopped,
                }
            },
        }
    }

    /// Records the end of a stop request on a service with a process: when
    /// the signal was delivered it is Stopped, otherwise it is Failed and
    /// keeps the process. A service with no process is left alone.
    pub fn record_stop(&mut self, name: &str, delivered: bool)
        requires
            old(self).wf(),
        ensures
            final(self).wf(),
            final(self)@ == stopped(old(self)@, name@, delivered),
    {
        let i = match self.find(name) {
            Some(i) => i,
            None => {
                return;
            },
        };
        let count = self.services[i].restart_count;
        let pid = self.services[i].pid;
        assert(self.services[i as int].wf());
        if pid.is_some() {
            if delivered {
                self.set_runtime(i, ServiceState::Stopped, None, count);
            } else {
                self.set_runtime(i, ServiceState::Failed, pid, count);
            }
        }
    }

    /// Records that process `pid` ended with `exit`: each running service
    /// with that process is restarted or failed as its policy says. The
    /// restarts that are now due are returned.
    pub fn record_exit(&mut self, pid: u32, exit: ExitKind) -> (r: Vec<Respawn>)
        requires
            old(self).wf(),
        ensures
            final(self).wf(),
            final(self)@ == exits_applied(old(self)@, pid, exit),
            forall|k: int|
                0 <= k < r.len() ==> {
                    let n = #[trigger] r[k].name@;
                    &&& old(self)@.contains_key(n)
                    &&& old(self)@[n].pid == Some(pid)
                    &&& final(self)@[n].state == ServiceState::Starting
                    &&& r[k].delay_seconds == old(self)@[n].definition.service.restart.delay_seconds
                },
            forall|n: Seq<char>|
                #[trigger] old(self)@.contains_key(n) && old(self)@[n].pid == Some(pid)
                    && final(self)@[n].state == ServiceState::Starting ==> exists|k: int|
                    0 <= k < r.len() && r[k].name@ == n,
            respawn_names(r@).no_duplicates(),
    {
        proof {
            self.lemma_consistent();
        }
        let ghost before = self.services@;
        let ghost m0 = self@;
        let ghost target = exits_applied(m0, pid, exit);
        let mut out: Vec<Respawn> = Vec::new();
        let mut i: usize = 0;
        while i < self.services.len()
            invariant
                self.wf(),
                old(self).wf(),
                m0 == old(self)@,
                before == old(self).services@,
                target == exits_applied(m0, pid, exit),
                self.services.len() == before.len(),
                i <= before.len(),
                forall|j: int| 0 <= j < before.len() ==> #[trigger] self.services[j].name() == before[j].name(),
                self@.dom() == m0.dom(),
                forall|j: int|
                    0 <= j < before.len() ==> #[trigger] self@[before[j].name()] == if j < i {
                        target[before[j].name()]
                    } else {
                        m0[before[j].name()]
                    },
                forall|k: int|
                    0 <= k < out.len() ==> {
                        let n = #[trigger] out[k].name@;
                        &&& m0.contains_key(n)
                        &&& m0[n].pid == Some(pid)
                        &&& target[n].state == ServiceState::Starting
                        &&& out[k].delay_seconds == m0[n].definition.service.restart.delay_seconds
                    },
                forall|j: int|
                    0 <= j < i && m0[before[j].name()].pid == Some(pid) && #[trigger] target[before[j].name()].state
                        == ServiceState::Starting ==> exists|k: int|
                        0 <= k < out.len() && out[k].name@ == before[j].name(),
                respawn_names(out@).no_duplicates(),
                forall|t: int|
                    #![trigger out@[t]]
                    0 <= t < out.len() ==> exists|j: int| 0 <= j < i && out@[t].name@ == before[j].name(),
            decreases before.len() - i,
        {
            assert(m0.contains_key(before[i as int].name()));
            assert(m0[before[i as int].name()] == before[i as int]);
            let ghost out_before = out@;
            if self.services[i].pid == Some(pid) && self.services[i].state == ServiceState::Failed {
                let count = self.services[i].restart_count;
                self.set_runtime(i, ServiceState::Failed, None, count);
            } else if self.services[i].pid == Some(pid) {
                let count = self.services[i].restart_count;
                let restart = should_restart(&self.services[i].definition.service.restart, count, exit);
                if restart {
                    let delay = self.services[i].definition.service.restart.delay_seconds;
                    let respawn = Respawn {
                        name: self.services[i].definition.service.name.clone(),
                        delay_seconds: delay,
                    };
                    self.set_runtime(i, ServiceState::Starting, None, count + 1);
                    out.push(respawn);
                } else {
                    self.set_runtime(i, ServiceState::Failed, None, count);
                }
            }
            proof {
                assert(respawn_names(out@).no_duplicates() && forall|t: int|
                    #![trigger out@[t]]
                    0 <= t < out.len() ==> exists|j: int| 0 <= j < i + 1 && out@[t].name@ == before[j].name()) by {
                    if out.len() > out_before.len() {
                        assert(out@[out.len() - 1].name@ == before[i as int].name());
                        assert forall|t: int| #![trigger out@[t]] 0 <= t < out_before.len() implies out@[t].name@ != before[i as int].name() by {
                            assert(out@[t] == out_before[t]);
                            let j = choose|j: int| 0 <= j < i && out_before[t].name@ == before[j].name();
                        }
                        assert forall|a: int, b: int| 0 <= a < b < respawn_names(out@).len() implies respawn_names(out@)[a] != respawn_names(out@)[b] by {
                            if b < out_before.len() {
                                assert(respawn_names(out_before)[a] != respawn_names(out_before)[b]);
                                assert(out@[a] == out_before[a] && out@[b] == out_before[b]);
                            } else {
                                assert(out@[a] == out_before[a]);
                            }
                        }
                        assert forall|t: int| #![trigger out@[t]] 0 <= t < out.len() implies exists|j: int| 0 <= j < i + 1 && out@[t].name@ == before[j].name() by {
                            if t < out_before.len() {
                                assert(out@[t] == out_before[t]);
                                let j = choose|j: int| 0 <= j < i && out_before[t].name@ == before[j].name();
                            }
                        }
                    } else {
                        assert(out@ == out_before);
                        assert forall|t: int| #![trigger out@[t]] 0 <= t < out.len() implies exists|j: int| 0 <= j < i + 1 && out@[t].name@ == before[j].name() by {
                            let j = choose|j: int| 0 <= j < i && out_before[t].name@ == before[j].name();
                        }
                    }
                }
            }
            proof {
                assert forall|j: int|
                    0 <= j < i + 1 && m0[before[j].name()].pid == Some(pid) && #[trigger] target[before[j].name()].state
                        == ServiceState::Starting implies exists|k: int|
                        0 <= k < out.len() && out[k].name@ == before[j].name() by {
                    if j < i {
                        let k = choose|k: int| 0 <= k < out_before.len() && out_before[k].name@ == before[j].name();
                        assert(out[k] == out_before[k]);
                    } else {
                        assert(out[out.len() - 1].name@ == before[j].name());
                    }
                }
                assert forall|j: int|
                    0 <= j < before.len() implies #[trigger] self@[before[j].name()] == if j < i + 1 {
                        target[before[j].name()]
                    } else {
                        m0[before[j].name()]
                    } by {
                    if j != i {
                        assert(before[j].name() != before[i as int].name());
                    }
                }
            }
            i = i + 1;
        }
        proof {
            assert(self@ =~= target) by {
                assert forall|n: Seq<char>| #[trigger] self@.contains_key(n) implies self@[n] == target[n] by {
                    let k = choose|k: int| 0 <= k < self.services.len() && #[trigger] self.services[k].name() == n;
                }
            }
            assert forall|n: Seq<char>|
                #[trigger] m0.contains_key(n) && m0[n].pid == Some(pid) && self@[n].state == ServiceState::Starting
                implies exists|k: int| 0 <= k < out.len() && out[k].name@ == n by {
                let k = choose|k: int| 0 <= k < self.services.len() && #[trigger] self.services[k].name() == n;
                assert(before[k].name() == n);
            }
        }
        out
    }

    /// The public view of one service, or of all of them.
    pub fn get_status(&self, name: Option<&str>) -> (r: Vec<ServiceStatus>)
        requires
            self.wf(),
        ensures
            statuses_of(
                self@,
                match name {
                    Some(n) => Some(n@),
                    None => None,
                },
                r@,
            ),
    {
        match name {
            Some(n) => {
                let mut out: Vec<ServiceStatus> = Vec::new();
                match self.find(n) {
                    Some(i) => {
                        out.push(status_at(&self.services[i]));
                    },
                    None => {},
                }
                out
            },
            None => {
                let mut out: Vec<ServiceStatus> = Vec::new();
                let mut i: usize = 0;
                while i < self.services.len()
                    invariant
                        self.wf(),
                        i <= self.services.len(),
                        out.len() == i,
                        forall|k: int|
                            0 <= k < i ==> #[trigger] out[k].name@ == self.services[k].name()
                                && status_of(out[k], self.services[k]),
                    decreases self.services.len() - i,
                {
                    out.push(status_at(&self.services[i]));
                    i = i + 1;
                }
                proof {
                    assert forall|k: int| 0 <= k < out.len() implies self@.contains_key(
                        #[trigger] out[k].name@,
                    ) && status_of(out[k], self@[out[k].name@]) by {
                        assert(self.model@.contains_key(self.services[k].name()));
                    }
                    assert forall|n: Seq<char>| #[trigger]
                        self@.contains_key(n) implies exists|k: int|
                            0 <= k < out.len() && out[k].name@ == n by {
                        let k = choose|k: int| 0 <= k < self.services.len() && #[trigger] self.services[k].name() == n;
                        assert(out[k].name@ == n);
                    }
                    assert forall|k1: int, k2: int|
                        0 <= k1 < k2 < out.len() implies #[trigger] out[k1].name@ != #[trigger] out[k2].name@ by {
                        assert(self.services[k1].name() != self.services[k2].name());
                    }
                }
                out
            },
        }
    }

    /// The names of all services, each once.
    pub fn list_services(&self) -> (r: Vec<String>)
        requires
            self.wf(),
        ensures
            names_of(self@, r@),
    {
        let mut out: Vec<String> = Vec::new();
        let mut i: usize = 0;
        while i < self.services.len()
            invariant
                self.wf(),
                i <= self.services.len(),
                out.len() == i,
                forall|k: int| 0 <= k < i ==> #[trigger] out[k]@ == self.services[k].name(),
            decreases self.services.len() - i,
        {
            out.push(self.services[i].definition.service.name.clone());
            i = i + 1;
        }
        proof {
            assert forall|k: int| 0 <= k < out.len() implies self@.contains_key(#[trigger] out[k]@) by {
                assert(self.model@.contains_key(self.services[k].name()));
            }
            assert forall|n: Seq<char>| #[trigger]
                self@.contains_key(n) implies exists|k: int| 0 <= k < out.len() && out[k]@ == n by {
                let k = choose|k: int| 0 <= k < self.services.len() && #[trigger] self.services[k].name() == n;
                assert(out[k]@ == n);
            }
            assert forall|k1: int, k2: int|
                0 <= k1 < k2 < out.len() implies #[trigger] out[k1]@ != #[trigger] out[k2]@ by {
                assert(self.services[k1].name() != self.services[k2].name());
            }
        }
        out
    }
}

/// The kinds of outcome of a manual start request.
pub enum StartCase {
    NotFound,
    AlreadyActive,
    Rejected,
    Launch,
}

pub open spec fn start_case(m: Map<Seq<char>, ServiceInstance>, name: Seq<char>) -> StartCase {
    if !m.contains_key(name) {
        StartCase::NotFound
    } else if m[name].state == ServiceState::Running || m[name].state == ServiceState::Starting {
        StartCase::AlreadyActive
    } else if command_words(m[name].definition.service.execution.start@).len() == 0 {
        StartCase::Rejected
    } else {
        StartCase::Launch
    }
}

/// The registry after a manual start request on `name`.
pub open spec fn started(m: Map<Seq<char>, ServiceInstance>, name: Seq<char>) -> Map<
    Seq<char>,
    ServiceInstance,
> {
    match start_case(m, name) {
        StartCase::Rejected => m.insert(name, with_runtime(m[name], ServiceState::Failed, None, 0)),
        StartCase::Launch => m.insert(
            name,
            with_runtime(m[name], ServiceState::Starting, None, 0),
        ),
        _ => m,
    }
}

/// `v` is the status list for `name`: the one entry of that service (none
/// if it is unknown), or one entry per service when no name is given.
pub open spec fn statuses_of(
    m: Map<Seq<char>, ServiceInstance>,
    name: Option<Seq<char>>,
    v: Seq<ServiceStatus>,
) -> bool {
    match name {
        Some(n) => if m.contains_key(n) {
            v.len() == 1 && status_of(v[0], m[n])
        } else {
            v.len() == 0
        },
        None => {
            &&& forall|k: int|
                0 <= k < v.len() ==> m.contains_key(#[trigger] v[k].name@) && status_of(
                    v[k],
                    m[v[k].name@],
                )
            &&& forall|n: Seq<char>| #[trigger]
                m.contains_key(n) ==> exists|k: int| 0 <= k < v.len() && v[k].name@ == n
            &&& forall|k1: int, k2: int|
                0 <= k1 < k2 < v.len() ==> #[trigger] v[k1].name@ != #[trigger] v[k2].name@
        },
    }
}

/// `v` names every service once.
pub open spec fn names_of(m: Map<Seq<char>, ServiceInstance>, v: Seq<String>) -> bool {
    &&& forall|k: int| 0 <= k < v.len() ==> m.contains_key(#[trigger] v[k]@)
    &&& forall|n: Seq<char>| #[trigger] m.contains_key(n) ==> exists|k: int| 0 <= k < v.len() && v[k]@ == n
    &&& forall|k1: int, k2: int| 0 <= k1 < k2 < v.len() ==> #[trigger] v[k1]@ != #[trigger] v[k2]@
}

/// What a stop request on `name` has to do.
pub open spec fn stop_plan_of(m: Map<Seq<char>, ServiceInstance>, name: Seq<char>) -> StopPlan {
    if !m.contains_key(name) {
        StopPlan::NotFound
    } else {
        match m[name].pid {
            Some(p) => StopPlan::Signal(p),
            None => StopPlan::AlreadyStopped,
        }
    }
}

/// The registry after a stop request on `name` whose signal, if one was
/// due, was delivered or not.
pub open spec fn stopped(m: Map<Seq<char>, ServiceInstance>, name: Seq<char>, delivered: bool) -> Map<
    Seq<char>,
    ServiceInstance,
> {
    if !m.contains_key(name) || m[name].pid is None {
        m
    } else if delivered {
        m.insert(name, with_runtime(m[name], ServiceState::Stopped, None, m[name].restart_count))
    } else {
        m.insert(name, with_runtime(m[name], ServiceState::Failed, m[name].pid, m[name].restart_count))
    }
}

fn status_at(inst: &ServiceInstance) -> (r: ServiceStatus)
    ensures
        status_of(r, *inst),
        r.name@ == inst.name(),
{
    ServiceStatus {
        name: inst.definition.service.name.clone(),
        state: inst.state.label(),
        pid: inst.pid,
        enabled: false,
        restart_count: inst.restart_count,
    }
}

/// After loading, the known names are the earlier ones and those of the definitions.
pub proof fn lemma_load_all_names(m: Map<Seq<char>, ServiceInstance>, defs: Seq<ServiceDefinition>)
    ensures
        forall|n: Seq<char>| #[trigger]
            load_all(m, defs).contains_key(n) <==> m.contains_key(n) || exists|k: int|
                0 <= k < defs.len() && defs[k].service.name@ == n,
    decreases defs.len(),
{
    if defs.len() > 0 {
        let init = defs.drop_last();
        lemma_load_all_names(m, init);
        assert forall|n: Seq<char>| #[trigger]
            load_all(m, defs).contains_key(n) <==> m.contains_key(n) || exists|k: int|
                0 <= k < defs.len() && defs[k].service.name@ == n by {
            let prev = load_all(m, init);
            assert(load_all(m, defs) == upsert(prev, defs.last()));
            assert(load_all(m, defs).contains_key(n) <==> prev.contains_key(n) || defs.last().service.name@ == n);
            if defs.last().service.name@ == n {
                assert(defs[defs.len() - 1].service.name@ == n);
            }
            if exists|k: int| 0 <= k < defs.len() && defs[k].service.name@ == n {
                let k = choose|k: int| 0 <= k < defs.len() && defs[k].service.name@ == n;
                if k < defs.len() - 1 {
                    assert(init[k] == defs[k]);
                }
            }
            if exists|k: int| 0 <= k < init.len() && init[k].service.name@ == n {
                let k = choose|k: int| 0 <= k < init.len() && init[k].service.name@ == n;
                assert(defs[k] == init[k]);
            }
        }
    }
}

/// Reloading definitions never loses a service: after a second load the
/// registry holds every name of the new definitions and every name it held
/// before.
pub proof fn lemma_reload_keeps_names(
    m: Map<Seq<char>, ServiceInstance>,
    first: Seq<ServiceDefinition>,
    second: Seq<ServiceDefinition>,
)
    ensures
        forall|k: int|
            0 <= k < second.len() ==> load_all(load_all(m, first), second).contains_key(
                #[trigger] second[k].service.name@,
            ),
        forall|n: Seq<char>| #[trigger]
            load_all(m, first).contains_key(n) ==> load_all(load_all(m, first), second).contains_key(
                n,
            ),
{
    lemma_load_all_names(load_all(m, first), second);
}

/// Whatever sequence of operations a registry has gone through, a running
/// service holds a process, and only a running service or a failed one
/// that a termination signal missed can: in particular no stopped service
/// has one.
pub proof fn lemma_state_matches_pid(r: &Registry, name: Seq<char>)
    requires
        r.wf(),
        r@.contains_key(name),
    ensures
        r@[name].state == ServiceState::Running ==> r@[name].pid is Some,
        r@[name].pid is Some ==> (r@[name].state == ServiceState::Running || r@[name].state
            == ServiceState::Failed),
        r@[name].state == ServiceState::Stopped ==> r@[name].pid is None,
{
    r.lemma_consistent();
}

/// The instance after its process ended with `exit` and, when a restart
/// was due, the restart launched process `pid`.
pub open spec fn crash_and_relaunch(inst: ServiceInstance, exit: ExitKind, pid: u32) -> ServiceInstance {
    let next = after_exit(inst, exit);
    if next.state == ServiceState::Starting {
        with_runtime(next, ServiceState::Running, Some(pid), next.restart_count)
    } else {
        next
    }
}

/// The instance after its process ended `k` times in a row with `exit`.
pub open spec fn crash_loop(inst: ServiceInstance, exit: ExitKind, pid: u32, k: nat) -> ServiceInstance
    decreases k,
{
    if k == 0 {
        inst
    } else {
        crash_and_relaunch(crash_loop(inst, exit, pid, (k - 1) as nat), exit, pid)
    }
}

/// Under a policy that asks for a restart after `exit`, a freshly started
/// service whose process keeps ending that way is restarted `max_retries`
/// times, each restart counted, and after that parks in Failed with no
/// process and its counter at `max_retries`.
pub proof fn lemma_crash_loop(inst: ServiceInstance, exit: ExitKind, pid: u32, k: nat)
    requires
        inst.state == ServiceState::Running,
        inst.restart_count == 0,
        policy_wants_restart(inst.definition.service.restart.policy, exit),
    ensures
        crash_loop(inst, exit, pid, k).definition == inst.definition,
        k <= inst.definition.service.restart.max_retries ==> {
            &&& crash_loop(inst, exit, pid, k).state == ServiceState::Running
            &&& crash_loop(inst, exit, pid, k).restart_count == k
        },
        k > inst.definition.service.restart.max_retries ==> {
            &&& crash_loop(inst, exit, pid, k).state == ServiceState::Failed
            &&& crash_loop(inst, exit, pid, k).pid is None
            &&& crash_loop(inst, exit, pid, k).restart_count
                == inst.definition.service.restart.max_retries
        },
    decreases k,
{
    if k > 0 {
        lemma_crash_loop(inst, exit, pid, (k - 1) as nat);
    }
}

} // verus!
