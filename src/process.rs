//! Signalling supervised processes and collecting their exits.
use nix::sys::wait::{waitpid, WaitPidFlag, WaitStatus};
use vstd::prelude::*;

use crate::registry::{
    after_exit, consistent, exits_applied, respawn_names, stop_plan_of, stopped, ExitKind, Registry, Respawn,
    StopPlan,
};
use crate::service::ServiceState;
use crate::service::ServiceInstance;

verus! {

/// Relies on `nix::sys::signal::kill` with SIGTERM: the result says whether
/// the signal was delivered to the process `pid`.
#[verifier::external_body]
fn terminate(pid: u32) -> (delivered: bool)
    requires
        ServiceInstance::valid_pid(pid),
{
    nix::sys::signal::kill(
        nix::unistd::Pid::from_raw(pid as i32),
        nix::sys::signal::Signal::SIGTERM,
    ).is_ok()
}

/// A child process collected by the supervisor.
#[derive(Debug, Clone, Copy, PartialEq, Eq, Structural)]
pub enum Reaped {
    Exited { pid: u32, exit: ExitKind },
    Nothing,
}

/// Relies on `nix::sys::wait::waitpid` on any child, without blocking: a
/// child that exited or was killed by a signal is collected and reported.
#[verifier::external_body]
fn reap_any_child() -> (r: Reaped) {
    match waitpid(None::<nix::unistd::Pid>, Some(WaitPidFlag::WNOHANG)) {
        Ok(WaitStatus::Exited(p, code)) => Reaped::Exited {
            pid: p.as_raw() as u32,
            exit: ExitKind::Code(code),
        },
        Ok(WaitStatus::Signaled(p, sig, _)) => Reaped::Exited {
            pid: p.as_raw() as u32,
            exit: ExitKind::Signal(sig as i32),
        },
        _ => Reaped::Nothing,
    }
}

/// How a stop request ended.
#[derive(Debug, Clone, Copy, PartialEq, Eq, Structural)]
pub enum StopOutcome {
    NotFound,
    /// Nothing was running: no signal was sent and nothing changed.
    AlreadyStopped,
    /// The termination signal was delivered: the service is Stopped.
    Stopped,
    /// The termination signal could not be delivered: the service is Failed
    /// and keeps its process.
    SignalFailed,
}

/// Upper bound on the children collected in one sweep.
pub const MAX_REAPS_PER_SWEEP: usize = 1024;

impl Registry {
    /// Stops a service: a service with a process is sent a termination
    /// signal; one without a process is left as it is.
    pub fn stop_service(&mut self, name: &str) -> (r: StopOutcome)
        requires
            old(self).wf(),
        ensures
            final(self).wf(),
            match stop_plan_of(old(self)@, name@) {
                StopPlan::NotFound => r == StopOutcome::NotFound && final(self)@ == old(self)@,
                StopPlan::AlreadyStopped => r == StopOutcome::AlreadyStopped && final(self)@
                    == old(self)@,
                StopPlan::Signal(_) => (r == StopOutcome::Stopped && final(self)@ == stopped(
                    old(self)@,
                    name@,
                    true,
                )) || (r == StopOutcome::SignalFailed && final(self)@ == stopped(
                    old(self)@,
                    name@,
                    false,
                )),
            },
    {
        proof {
            self.lemma_consistent();
        }
        match self.plan_stop(name) {
            StopPlan::NotFound => StopOutcome::NotFound,
            StopPlan::AlreadyStopped => StopOutcome::AlreadyStopped,
            StopPlan::Signal(pid) => {
                let delivered = terminate(pid);
                self.record_stop(name, delivered);
                if delivered {
                    StopOutcome::Stopped
                } else {
                    StopOutcome::SignalFailed
                }
            },
        }
    }

    /// The liveness sweep: collects the children that have ended and applies
    /// each service's restart policy. Returns the restarts now due.
    pub fn sweep(&mut self) -> (r: Vec<Respawn>)
        requires
            old(self).wf(),
        ensures
            final(self).wf(),
            swept(old(self)@, final(self)@, r@),
    {
        let ghost m0 = self@;
        proof {
            self.lemma_consistent();
        }
        let mut due: Vec<Respawn> = Vec::new();
        let mut k: usize = 0;
        assert(respawn_names(due@) =~= Seq::<Seq<char>>::empty());
        while k < MAX_REAPS_PER_SWEEP
            invariant_except_break
                k <= MAX_REAPS_PER_SWEEP,
            invariant
                self.wf(),
                m0 == old(self)@,
                consistent(m0),
                swept(m0, self@, due@),
            decreases MAX_REAPS_PER_SWEEP - k,
        {
            match reap_any_child() {
                Reaped::Exited { pid, exit } => {
                    let ghost cur = self@;
                    let ghost due0 = due@;
                    let mut restarts = self.record_exit(pid, exit);
                    let ghost fresh = restarts@;
                    due.append(&mut restarts);
                    proof {
                        lemma_swept_step(m0, cur, self@, due0, fresh, pid, exit);
                    }
                },
                Reaped::Nothing => {
                    break ;
                },
            }
            k = k + 1;
        }
        due
    }
}

/// What a sweep can have done, whatever the collected exits were: every
/// service is as it was or, if it had a process, as after that process
/// ended; services without a process are untouched; the restarts returned
/// are exactly the services that a collected exit made Starting, each once.
pub open spec fn swept(
    m0: Map<Seq<char>, ServiceInstance>,
    m: Map<Seq<char>, ServiceInstance>,
    due: Seq<Respawn>,
) -> bool {
    &&& m.dom() == m0.dom()
    &&& forall|n: Seq<char>| #[trigger]
        m.contains_key(n) ==> m[n] == m0[n] || (m0[n].pid is Some && exists|e: ExitKind|
            m[n] == after_exit(m0[n], e))
    &&& forall|n: Seq<char>| #[trigger] m.contains_key(n) && m0[n].pid is None ==> m[n] == m0[n]
    &&& forall|k: int|
        0 <= k < due.len() ==> m.contains_key(#[trigger] due[k].name@) && m[due[k].name@].state
            == ServiceState::Starting && m0[due[k].name@].state != ServiceState::Starting
    &&& forall|n: Seq<char>|
        #[trigger] m.contains_key(n) && m0[n].state != ServiceState::Starting && m[n].state
            == ServiceState::Starting ==> exists|k: int| 0 <= k < due.len() && due[k].name@ == n
    &&& respawn_names(due).no_duplicates()
}

/// One collected exit keeps what a sweep promises.
proof fn lemma_swept_step(
    m0: Map<Seq<char>, ServiceInstance>,
    cur: Map<Seq<char>, ServiceInstance>,
    next: Map<Seq<char>, ServiceInstance>,
    due0: Seq<Respawn>,
    fresh: Seq<Respawn>,
    pid: u32,
    exit: ExitKind,
)
    requires
        consistent(m0),
        swept(m0, cur, due0),
        next == exits_applied(cur, pid, exit),
        forall|k: int|
            0 <= k < fresh.len() ==> {
                let n = #[trigger] fresh[k].name@;
                &&& cur.contains_key(n)
                &&& cur[n].pid == Some(pid)
                &&& next[n].state == ServiceState::Starting
            },
        forall|n: Seq<char>|
            #[trigger] cur.contains_key(n) && cur[n].pid == Some(pid) && next[n].state
                == ServiceState::Starting ==> exists|k: int| 0 <= k < fresh.len() && fresh[k].name@ == n,
        respawn_names(fresh).no_duplicates(),
    ensures
        swept(m0, next, due0 + fresh),
{
    let due = due0 + fresh;
    assert(next.dom() =~= m0.dom());
    assert forall|n: Seq<char>| #[trigger]
        next.contains_key(n) implies next[n] == m0[n] || (m0[n].pid is Some && exists|e: ExitKind|
            next[n] == after_exit(m0[n], e)) by {
        if cur[n].pid == Some(pid) {
            if cur[n] != m0[n] {
                let e = choose|e: ExitKind| cur[n] == after_exit(m0[n], e);
                assert(cur[n].pid is None);
            }
            assert(next[n] == after_exit(m0[n], exit));
        }
    }
    assert forall|n: Seq<char>| #[trigger] next.contains_key(n) && m0[n].pid is None implies next[n] == m0[n] by {
        assert(cur[n] == m0[n]);
    }
    assert forall|k: int|
        0 <= k < due.len() implies next.contains_key(#[trigger] due[k].name@) && next[due[k].name@].state
            == ServiceState::Starting && m0[due[k].name@].state != ServiceState::Starting by {
        if k < due0.len() {
            assert(due[k] == due0[k]);
            let n = due0[k].name@;
            assert(cur.contains_key(n));
            assert(cur[n].pid is None);
        } else {
            assert(due[k] == fresh[k - due0.len()]);
            let n = fresh[k - due0.len()].name@;
            assert(cur.contains_key(n));
            assert(m0.contains_key(n) && m0[n].wf());
            if cur[n] != m0[n] {
                let e = choose|e: ExitKind| cur[n] == after_exit(m0[n], e);
                assert(cur[n].pid is None);
            }
        }
    }
    assert forall|n: Seq<char>|
        #[trigger] next.contains_key(n) && m0[n].state != ServiceState::Starting && next[n].state
            == ServiceState::Starting implies exists|k: int| 0 <= k < due.len() && due[k].name@ == n by {
        assert(cur.contains_key(n));
        if cur[n].state == ServiceState::Starting {
            let k = choose|k: int| 0 <= k < due0.len() && due0[k].name@ == n;
            assert(due[k] == due0[k]);
        } else {
            assert(cur[n].pid == Some(pid));
            let k = choose|k: int| 0 <= k < fresh.len() && fresh[k].name@ == n;
            assert(due[due0.len() + k] == fresh[k]);
        }
    }
    assert(respawn_names(due) =~= respawn_names(due0) + respawn_names(fresh));
    assert forall|a: int, b: int| 0 <= a < b < respawn_names(due).len() implies respawn_names(due)[a]
        != respawn_names(due)[b] by {
        if b < due0.len() {
            assert(respawn_names(due0)[a] != respawn_names(due0)[b]);
        } else if a >= due0.len() {
            assert(respawn_names(fresh)[a - due0.len()] != respawn_names(fresh)[b - due0.len()]);
        } else {
            let n = due0[a].name@;
            assert(cur.contains_key(n) && cur[n].state == ServiceState::Starting);
            assert(cur[n].pid is None) by {
                if cur[n] != m0[n] {
                    let e = choose|e: ExitKind| cur[n] == after_exit(m0[n], e);
                }
            }
            assert(due[b] == fresh[b - due0.len()]);
        }
    }
}

} // verus!
