//! Turning control-plane requests into registry operations and replies.
//!
//! A request is handled in one exclusive section over the registry. Where a
//! process has to be spawned, the handler hands back a launch plan; the
//! caller spawns it and reports the outcome with `finish_launch`.
use vstd::prelude::*;

use crate::process::StopOutcome;
use crate::protocol::{IpcRequest, IpcResponse, ResponseView};
use crate::registry::{
    load_all, names_of, start_case, started, statuses_of, stop_plan_of, stopped, with_runtime,
    LaunchPlan, Registry, StartCase, StartDecision, StopPlan,
};
use crate::service::{ServiceDefinition, ServiceInstance, ServiceState};

verus! {

/// Whether a launch serves a start or a restart request.
#[derive(Debug, Clone, Copy, PartialEq, Eq, Structural)]
pub enum LaunchKind {
    Start,
    Restart,
}

/// What the caller does next for a request.
#[derive(Debug)]
pub enum Dispatch {
    /// Send this reply.
    Reply(IpcResponse),
    /// The service is Starting: spawn the plan, then call `finish_launch`.
    Launch { name: String, plan: LaunchPlan, kind: LaunchKind },
    /// Load the definitions again, then call `finish_reload`.
    Reload,
}

pub open spec fn verb(kind: LaunchKind) -> Seq<char> {
    match kind {
        LaunchKind::Start => "start"@,
        LaunchKind::Restart => "restart"@,
    }
}

pub open spec fn done_word(kind: LaunchKind) -> Seq<char> {
    match kind {
        LaunchKind::Start => "started"@,
        LaunchKind::Restart => "restarted"@,
    }
}

/// "Service 'web' started", and the like.
pub open spec fn done_message(name: Seq<char>, word: Seq<char>) -> Seq<char> {
    "Service '"@ + name + "' "@ + word
}

/// "Failed to start service 'web': reason", and the like.
pub open spec fn failed_message(verb: Seq<char>, name: Seq<char>, reason: Seq<char>) -> Seq<char> {
    "Failed to "@ + verb + " service '"@ + name + "': "@ + reason
}

pub open spec fn not_found_reason() -> Seq<char> {
    "service not found"@
}

pub open spec fn empty_command_reason() -> Seq<char> {
    "empty start command"@
}

pub open spec fn spawn_failed_reason() -> Seq<char> {
    "process could not be spawned"@
}

pub open spec fn signal_failed_reason() -> Seq<char> {
    "termination signal could not be delivered"@
}

pub open spec fn unsupported_message() -> Seq<char> {
    "Enabling and disabling services is not supported in this build"@
}

pub open spec fn reloaded_message() -> Seq<char> {
    "Configuration reloaded"@
}

/// The reply to a start request that spawns nothing.
pub open spec fn start_reply(case: StartCase, kind: LaunchKind, name: Seq<char>) -> ResponseView {
    match case {
        StartCase::NotFound => ResponseView::Error(
            failed_message(verb(kind), name, not_found_reason()),
        ),
        StartCase::Rejected => ResponseView::Error(
            failed_message(verb(kind), name, empty_command_reason()),
        ),
        _ => ResponseView::Success(done_message(name, done_word(kind))),
    }
}

/// The reply to a stop request.
pub open spec fn stop_reply(outcome: StopOutcome, name: Seq<char>) -> ResponseView {
    match outcome {
        StopOutcome::NotFound => ResponseView::Error(
            failed_message("stop"@, name, not_found_reason()),
        ),
        StopOutcome::SignalFailed => ResponseView::Error(
            failed_message("stop"@, name, signal_failed_reason()),
        ),
        _ => ResponseView::Success(done_message(name, "stopped"@)),
    }
}

/// `mid` is a registry that a stop request on `name` can leave behind,
/// with `outcome` its result.
pub open spec fn stop_result(
    m: Map<Seq<char>, ServiceInstance>,
    name: Seq<char>,
    outcome: StopOutcome,
    mid: Map<Seq<char>, ServiceInstance>,
) -> bool {
    match stop_plan_of(m, name) {
        StopPlan::NotFound => outcome == StopOutcome::NotFound && mid == m,
        StopPlan::AlreadyStopped => outcome == StopOutcome::AlreadyStopped && mid == m,
        StopPlan::Signal(_) => (outcome == StopOutcome::Stopped && mid == stopped(m, name, true)) || (
        outcome == StopOutcome::SignalFailed && mid == stopped(m, name, false)),
    }
}

/// The dispatch that follows a start request in `m`.
pub open spec fn start_dispatch(
    m: Map<Seq<char>, ServiceInstance>,
    name: Seq<char>,
    kind: LaunchKind,
    d: Dispatch,
) -> bool {
    match start_case(m, name) {
        StartCase::Launch => d matches Dispatch::Launch { name: n, plan, kind: k } && n@ == name
            && k == kind && plan.follows(
            m[name].definition.service.execution,
            m[name].definition.service.environment@,
        ),
        _ => d matches Dispatch::Reply(resp) && resp@ == start_reply(start_case(m, name), kind, name),
    }
}

fn message3(a: &str, b: &str, c: &str) -> (r: String)
    ensures
        r@ == a@ + b@ + c@,
{
    let mut s = a.to_owned();
    s.append(b);
    s.append(c);
    s
}

fn done_reply(name: &str, word: &str) -> (r: IpcResponse)
    ensures
        r@ == ResponseView::Success(done_message(name@, word@)),
{
    let mut m = message3("Service '", name, "' ");
    m.append(word);
    IpcResponse::Success { message: m }
}

fn failed_reply(verb: &str, name: &str, reason: &str) -> (r: IpcResponse)
    ensures
        r@ == ResponseView::Error(failed_message(verb@, name@, reason@)),
{
    let mut m = message3("Failed to ", verb, " service '");
    m.append(name);
    m.append("': ");
    m.append(reason);
    IpcResponse::Error { message: m }
}

fn verb_text(kind: LaunchKind) -> (r: &'static str)
    ensures
        r@ == verb(kind),
{
    proof {
        reveal_strlit("start");
        reveal_strlit("restart");
    }
    match kind {
        LaunchKind::Start => "start",
        LaunchKind::Restart => "restart",
    }
}

fn done_text(kind: LaunchKind) -> (r: &'static str)
    ensures
        r@ == done_word(kind),
{
    match kind {
        LaunchKind::Start => "started",
        LaunchKind::Restart => "restarted",
    }
}

impl Registry {
    fn start_request(&mut self, name: String, kind: LaunchKind) -> (r: Dispatch)
        requires
            old(self).wf(),
        ensures
            final(self).wf(),
            final(self)@ == started(old(self)@, name@),
            start_dispatch(old(self)@, name@, kind, r),
    {
        match self.begin_start(name.as_str()) {
            StartDecision::NotFound => Dispatch::Reply(
                failed_reply(verb_text(kind), name.as_str(), "service not found"),
            ),
            StartDecision::AlreadyActive => Dispatch::Reply(
                done_reply(name.as_str(), done_text(kind)),
            ),
            StartDecision::Rejected => Dispatch::Reply(
                failed_reply(verb_text(kind), name.as_str(), "empty start command"),
            ),
            StartDecision::Launch(plan) => Dispatch::Launch { name, plan, kind },
        }
    }

    /// Handles one control-plane request.
    pub fn handle_ipc_request(&mut self, request: IpcRequest) -> (r: Dispatch)
        requires
            old(self).wf(),
        ensures
            final(self).wf(),
            match request {
                IpcRequest::StartService { name } => final(self)@ == started(old(self)@, name@)
                    && start_dispatch(old(self)@, name@, LaunchKind::Start, r),
                IpcRequest::StopService { name } => exists|o: StopOutcome|
                    stop_result(old(self)@, name@, o, final(self)@) && (r matches Dispatch::Reply(
                        resp,
                    ) && resp@ == stop_reply(o, name@)),
                IpcRequest::RestartService { name } => exists|
                    o: StopOutcome,
                    mid: Map<Seq<char>, ServiceInstance>,
                |
                    stop_result(old(self)@, name@, o, mid) && final(self)@ == started(mid, name@)
                        && start_dispatch(mid, name@, LaunchKind::Restart, r),
                IpcRequest::GetStatus { name } => final(self)@ == old(self)@ && (r matches Dispatch::Reply(
                    IpcResponse::Status { services },
                ) && statuses_of(
                    old(self)@,
                    match name {
                        Some(n) => Some(n@),
                        None => None,
                    },
                    services@,
                )),
                IpcRequest::ListServices => final(self)@ == old(self)@ && (r matches Dispatch::Reply(
                    IpcResponse::ServiceList { services },
                ) && names_of(old(self)@, services@)),
                IpcRequest::EnableService { .. } => {
                    &&& final(self)@ == old(self)@
                    &&& r matches Dispatch::Reply(resp) && resp@ == ResponseView::Error(
                        unsupported_message(),
                    )
                },
                IpcRequest::DisableService { .. } => {
                    &&& final(self)@ == old(self)@
                    &&& r matches Dispatch::Reply(resp) && resp@ == ResponseView::Error(
                        unsupported_message(),
                    )
                },
                IpcRequest::ReloadDaemon => final(self)@ == old(self)@ && r is Reload,
            },
    {
        match request {
            IpcRequest::StartService { name } => {
                let ghost n = name@;
                let r = self.start_request(name, LaunchKind::Start);
                r
            },
            IpcRequest::StopService { name } => {
                let ghost m0 = self@;
                let outcome = self.stop_service(name.as_str());
                assert(stop_result(m0, name@, outcome, self@));
                let reply = match outcome {
                    StopOutcome::NotFound => failed_reply("stop", name.as_str(), "service not found"),
                    StopOutcome::SignalFailed => failed_reply(
                        "stop",
                        name.as_str(),
                        "termination signal could not be delivered",
                    ),
                    _ => done_reply(name.as_str(), "stopped"),
                };
                assert(reply@ == stop_reply(outcome, name@));
                Dispatch::Reply(reply)
            },
            IpcRequest::RestartService { name } => {
                let ghost m0 = self@;
                let outcome = self.stop_service(name.as_str());
                let ghost mid = self@;
                let r = self.start_request(name, LaunchKind::Restart);
                assert(stop_result(m0, name@, outcome, mid));
                r
            },
            IpcRequest::GetStatus { name } => {
                let services = match &name {
                    Some(n) => self.get_status(Some(n.as_str())),
                    None => self.get_status(None),
                };
                Dispatch::Reply(IpcResponse::Status { services })
            },
            IpcRequest::ListServices => Dispatch::Reply(
                IpcResponse::ServiceList { services: self.list_services() },
            ),
            IpcRequest::EnableService { .. } | IpcRequest::DisableService { .. } => {
                Dispatch::Reply(
                    IpcResponse::Error {
                        message: "Enabling and disabling services is not supported in this build".to_owned(),
                    },
                )
            },
            IpcRequest::ReloadDaemon => Dispatch::Reload,
        }
    }

    /// Records the outcome of spawning a launch plan and gives the reply.
    pub fn finish_launch(&mut self, name: &str, kind: LaunchKind, spawned: Option<u32>) -> (r:
        IpcResponse)
        requires
            old(self).wf(),
        ensures
            final(self).wf(),
            ({
                if old(self)@.contains_key(name@) && old(self)@[name@].state
                    == ServiceState::Starting {
                    let inst = old(self)@[name@];
                    if spawned matches Some(p) && ServiceInstance::valid_pid(p) {
                        &&& final(self)@ == old(self)@.insert(
                            name@,
                            with_runtime(inst, ServiceState::Running, spawned, inst.restart_count),
                        )
                        &&& r@ == ResponseView::Success(done_message(name@, done_word(kind)))
                    } else {
                        &&& final(self)@ == old(self)@.insert(
                            name@,
                            with_runtime(inst, ServiceState::Failed, None, inst.restart_count),
                        )
                        &&& r@ == ResponseView::Error(
                            failed_message(verb(kind), name@, spawn_failed_reason()),
                        )
                    }
                } else {
                    final(self)@ == old(self)@ && r@ == ResponseView::Error(
                        failed_message(verb(kind), name@, spawn_failed_reason()),
                    )
                }
            }),
    {
        proof {
            old(self).lemma_consistent();
        }
        if self.finish_start(name, spawned) {
            done_reply(name, done_text(kind))
        } else {
            failed_reply(verb_text(kind), name, "process could not be spawned")
        }
    }

    /// Loads freshly read definitions and gives the reply to the reload request.
    pub fn finish_reload(&mut self, defs: Vec<ServiceDefinition>) -> (r: IpcResponse)
        requires
            old(self).wf(),
            forall|k: int| 0 <= k < defs.len() ==> (#[trigger] defs[k]).service.wf(),
        ensures
            final(self).wf(),
            final(self)@ == load_all(old(self)@, defs@),
            r@ == ResponseView::Success(reloaded_message()),
    {
        self.load(defs);
        IpcResponse::Success { message: "Configuration reloaded".to_owned() }
    }
}

} // verus!
