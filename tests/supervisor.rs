use juinit::control::{Dispatch, LaunchKind};
use juinit::process::StopOutcome;
use juinit::protocol::{IpcRequest, IpcResponse};
use juinit::registry::{
    should_restart, split_command, ExitKind, Registry, StartDecision, StopPlan,
};
use juinit::service::{
    Dependencies, ExecConfig, RestartPolicy, RestartPolicyType, ServiceConfig, ServiceDefinition,
    ServiceInstance, ServiceState, ServiceType,
};

fn definition(name: &str, start: &str, policy: RestartPolicyType, max_retries: u32) -> ServiceDefinition {
    ServiceDefinition {
        service: ServiceConfig {
            name: name.to_string(),
            description: format!("{} service", name),
            service_type: ServiceType::Simple,
            execution: ExecConfig {
                start: start.to_string(),
                stop: None,
                user: None,
                group: None,
                working_directory: Some("/srv".to_string()),
            },
            dependencies: Dependencies::default(),
            environment: vec![("MODE".to_string(), "test".to_string())],
            restart: RestartPolicy { policy, delay_seconds: 0, max_retries },
        },
    }
}

fn registry_with(defs: Vec<ServiceDefinition>) -> Registry {
    let mut reg = Registry::new();
    reg.load(defs);
    reg
}

fn launch(reg: &mut Registry, name: &str, pid: u32) {
    match reg.begin_start(name) {
        StartDecision::Launch(_) => {}
        other => panic!("expected a launch, got {:?}", other),
    }
    assert!(reg.finish_start(name, Some(pid)));
}

#[test]
fn new_instance_is_stopped() {
    let inst = ServiceInstance::new(definition("web", "/bin/true", RestartPolicyType::Never, 3));
    assert_eq!(inst.state, ServiceState::Stopped);
    assert_eq!(inst.pid, None);
    assert_eq!(inst.restart_count, 0);
}

#[test]
fn default_restart_policy_values() {
    let p = RestartPolicy::default();
    assert_eq!(p.policy, RestartPolicyType::Never);
    assert_eq!(p.delay_seconds, 5);
    assert_eq!(p.max_retries, 3);
}

#[test]
fn start_builds_launch_plan_from_command_line() {
    let mut reg = registry_with(vec![definition("web", "  /usr/bin/httpd -p\t8080 ", RestartPolicyType::Never, 3)]);
    match reg.begin_start("web") {
        StartDecision::Launch(plan) => {
            assert_eq!(plan.program, "/usr/bin/httpd");
            assert_eq!(plan.args, vec!["-p", "8080"]);
            assert_eq!(plan.environment, vec![("MODE".to_string(), "test".to_string())]);
            assert_eq!(plan.working_directory, Some("/srv".to_string()));
        }
        other => panic!("expected a launch, got {:?}", other),
    }
    assert_eq!(reg.get("web").unwrap().state, ServiceState::Starting);
    assert!(reg.finish_start("web", Some(4242)));
    let inst = reg.get("web").unwrap();
    assert_eq!(inst.state, ServiceState::Running);
    assert_eq!(inst.pid, Some(4242));
}

#[test]
fn start_is_idempotent_on_running_service() {
    let mut reg = registry_with(vec![definition("web", "/bin/sleep 100", RestartPolicyType::Never, 3)]);
    launch(&mut reg, "web", 777);
    match reg.handle_ipc_request(IpcRequest::StartService { name: "web".to_string() }) {
        Dispatch::Reply(IpcResponse::Success { message }) => {
            assert_eq!(message, "Service 'web' started")
        }
        other => panic!("unexpected {:?}", other),
    }
    let inst = reg.get("web").unwrap();
    assert_eq!(inst.state, ServiceState::Running);
    assert_eq!(inst.pid, Some(777));
}

#[test]
fn stop_is_idempotent_on_stopped_service() {
    let mut reg = registry_with(vec![definition("web", "/bin/true", RestartPolicyType::Never, 3)]);
    assert_eq!(reg.plan_stop("web"), StopPlan::AlreadyStopped);
    assert_eq!(reg.stop_service("web"), StopOutcome::AlreadyStopped);
    match reg.handle_ipc_request(IpcRequest::StopService { name: "web".to_string() }) {
        Dispatch::Reply(IpcResponse::Success { message }) => {
            assert_eq!(message, "Service 'web' stopped")
        }
        other => panic!("unexpected {:?}", other),
    }
    assert_eq!(reg.get("web").unwrap().state, ServiceState::Stopped);
}

#[test]
fn stop_of_running_service_plans_a_signal() {
    let mut reg = registry_with(vec![definition("web", "/bin/sleep 100", RestartPolicyType::Never, 3)]);
    launch(&mut reg, "web", 5150);
    assert_eq!(reg.plan_stop("web"), StopPlan::Signal(5150));
    reg.record_stop("web", true);
    let inst = reg.get("web").unwrap();
    assert_eq!(inst.state, ServiceState::Stopped);
    assert_eq!(inst.pid, None);
}

#[test]
fn failed_signal_marks_service_failed() {
    let mut reg = registry_with(vec![definition("web", "/bin/sleep 100", RestartPolicyType::Never, 3)]);
    launch(&mut reg, "web", 5151);
    reg.record_stop("web", false);
    let inst = reg.get("web").unwrap();
    assert_eq!(inst.state, ServiceState::Failed);
    assert_eq!(inst.pid, Some(5151));
    assert_eq!(reg.plan_stop("web"), StopPlan::Signal(5151));
    assert!(reg.record_exit(5151, ExitKind::Code(0)).is_empty());
    let inst = reg.get("web").unwrap();
    assert_eq!(inst.state, ServiceState::Failed);
    assert_eq!(inst.pid, None);
    assert_eq!(reg.plan_stop("web"), StopPlan::AlreadyStopped);
}

#[test]
fn unknown_service_is_reported() {
    let mut reg = Registry::new();
    assert_eq!(reg.plan_stop("ghost"), StopPlan::NotFound);
    assert_eq!(reg.stop_service("ghost"), StopOutcome::NotFound);
    match reg.handle_ipc_request(IpcRequest::StartService { name: "ghost".to_string() }) {
        Dispatch::Reply(IpcResponse::Error { message }) => {
            assert_eq!(message, "Failed to start service 'ghost': service not found")
        }
        other => panic!("unexpected {:?}", other),
    }
}

#[test]
fn crash_loop_restarts_up_to_max_retries_then_fails() {
    let mut reg = registry_with(vec![definition("web", "/bin/false", RestartPolicyType::Always, 3)]);
    let mut pid = 100;
    launch(&mut reg, "web", pid);
    for attempt in 1..=3u32 {
        let due = reg.record_exit(pid, ExitKind::Code(1));
        assert_eq!(due.len(), 1);
        assert_eq!(due[0].name, "web");
        assert_eq!(due[0].delay_seconds, 0);
        let status = reg.get_status(Some("web"));
        assert_eq!(status[0].state, "Starting");
        assert_eq!(status[0].restart_count, attempt);
        let plan = reg.resume_restart("web").expect("restart is due");
        assert_eq!(plan.program, "/bin/false");
        pid += 1;
        assert!(reg.finish_start("web", Some(pid)));
    }
    let due = reg.record_exit(pid, ExitKind::Code(1));
    assert!(due.is_empty());
    let status = reg.get_status(Some("web"));
    assert_eq!(status[0].state, "Failed");
    assert_eq!(status[0].pid, None);
    assert_eq!(status[0].restart_count, 3);

    match reg.begin_start("web") {
        StartDecision::Launch(_) => {}
        other => panic!("expected a launch, got {:?}", other),
    }
    assert_eq!(reg.get("web").unwrap().restart_count, 0);
}

#[test]
fn empty_command_fails_without_pid() {
    let mut reg = registry_with(vec![definition("bad", "   ", RestartPolicyType::Always, 3)]);
    match reg.begin_start("bad") {
        StartDecision::Rejected => {}
        other => panic!("expected a rejection, got {:?}", other),
    }
    let inst = reg.get("bad").unwrap();
    assert_eq!(inst.state, ServiceState::Failed);
    assert_eq!(inst.pid, None);
    match reg.handle_ipc_request(IpcRequest::StartService { name: "bad".to_string() }) {
        Dispatch::Reply(IpcResponse::Error { message }) => {
            assert_eq!(message, "Failed to start service 'bad': empty start command")
        }
        other => panic!("unexpected {:?}", other),
    }
}

#[test]
fn exited_service_with_never_policy_parks_in_failed() {
    let mut reg = registry_with(vec![definition("web", "/bin/true", RestartPolicyType::Never, 3)]);
    match reg.handle_ipc_request(IpcRequest::StartService { name: "web".to_string() }) {
        Dispatch::Launch { name, plan, kind } => {
            assert_eq!(name, "web");
            assert_eq!(plan.program, "/bin/true");
            assert_eq!(kind, LaunchKind::Start);
            match reg.finish_launch(&name, kind, Some(31337)) {
                IpcResponse::Success { message } => assert_eq!(message, "Service 'web' started"),
                other => panic!("unexpected {:?}", other),
            }
        }
        other => panic!("unexpected {:?}", other),
    }
    let due = reg.record_exit(31337, ExitKind::Code(0));
    assert!(due.is_empty());
    let status = reg.get_status(Some("web"));
    assert_eq!(status.len(), 1);
    assert_eq!(status[0].state, "Failed");
    assert_eq!(status[0].pid, None);
    assert_eq!(status[0].restart_count, 0);
}

#[test]
fn status_of_missing_service_is_empty() {
    let mut reg = Registry::new();
    match reg.handle_ipc_request(IpcRequest::GetStatus { name: Some("missing".to_string()) }) {
        Dispatch::Reply(IpcResponse::Status { services }) => assert!(services.is_empty()),
        other => panic!("unexpected {:?}", other),
    }
}

#[test]
fn reload_keeps_old_names_and_runtime_state() {
    let mut reg = registry_with(vec![definition("a", "/bin/a", RestartPolicyType::Never, 3)]);
    launch(&mut reg, "a", 900);
    match reg.handle_ipc_request(IpcRequest::ReloadDaemon) {
        Dispatch::Reload => {}
        other => panic!("unexpected {:?}", other),
    }
    let reply = reg.finish_reload(vec![
        definition("b", "/bin/b", RestartPolicyType::Never, 3),
        definition("a", "/bin/a2", RestartPolicyType::Always, 3),
    ]);
    match reply {
        IpcResponse::Success { message } => assert_eq!(message, "Configuration reloaded"),
        other => panic!("unexpected {:?}", other),
    }
    let mut names = reg.list_services();
    names.sort();
    assert_eq!(names, vec!["a", "b"]);
    let a = reg.get("a").unwrap();
    assert_eq!(a.state, ServiceState::Running);
    assert_eq!(a.pid, Some(900));
    assert_eq!(a.definition.service.execution.start, "/bin/a2");
    assert_eq!(reg.get("b").unwrap().state, ServiceState::Stopped);
}

#[test]
fn enable_and_disable_are_not_supported() {
    let mut reg = Registry::new();
    for req in [
        IpcRequest::EnableService { name: "web".to_string() },
        IpcRequest::DisableService { name: "web".to_string() },
    ] {
        match reg.handle_ipc_request(req) {
            Dispatch::Reply(IpcResponse::Error { message }) => assert_eq!(
                message,
                "Enabling and disabling services is not supported in this build"
            ),
            other => panic!("unexpected {:?}", other),
        }
    }
}

#[test]
fn start_after_stop_launches_a_new_process() {
    let mut reg = registry_with(vec![definition("web", "/bin/srv", RestartPolicyType::Always, 3)]);
    launch(&mut reg, "web", 42);
    reg.record_stop("web", true);
    match reg.handle_ipc_request(IpcRequest::StartService { name: "web".to_string() }) {
        Dispatch::Launch { kind, .. } => assert_eq!(kind, LaunchKind::Start),
        other => panic!("unexpected {:?}", other),
    }
    match reg.finish_launch("web", LaunchKind::Start, None) {
        IpcResponse::Error { message } => assert_eq!(
            message,
            "Failed to start service 'web': process could not be spawned"
        ),
        other => panic!("unexpected {:?}", other),
    }
    assert_eq!(reg.get("web").unwrap().state, ServiceState::Failed);
}

#[test]
fn stop_without_process_is_a_no_op() {
    let mut reg = registry_with(vec![definition("web", "/bin/srv", RestartPolicyType::Always, 3)]);
    launch(&mut reg, "web", 43);
    assert_eq!(reg.record_exit(43, ExitKind::Code(2)).len(), 1);
    assert_eq!(reg.plan_stop("web"), StopPlan::AlreadyStopped);
    assert_eq!(reg.stop_service("web"), StopOutcome::AlreadyStopped);
    assert_eq!(reg.get("web").unwrap().state, ServiceState::Starting);
    match reg.handle_ipc_request(IpcRequest::RestartService { name: "web".to_string() }) {
        Dispatch::Reply(IpcResponse::Success { message }) => {
            assert_eq!(message, "Service 'web' restarted")
        }
        other => panic!("unexpected {:?}", other),
    }
    assert!(reg.resume_restart("web").is_some());
}

#[test]
fn unicode_blank_command_is_rejected() {
    let mut reg = registry_with(vec![definition("bad", "\u{a0}\u{3000}", RestartPolicyType::Never, 3)]);
    assert!(matches!(reg.begin_start("bad"), StartDecision::Rejected));
    assert_eq!(split_command("a\u{a0}b\u{2003}c"), vec!["a", "b", "c"]);
}

#[test]
fn sweep_without_children_changes_nothing() {
    let mut reg = registry_with(vec![definition("web", "/bin/srv", RestartPolicyType::Always, 3)]);
    assert!(reg.sweep().is_empty());
    assert_eq!(reg.get("web").unwrap().state, ServiceState::Stopped);
}

#[test]
fn restart_policies_follow_exit_kind() {
    let p = |policy| RestartPolicy { policy, delay_seconds: 1, max_retries: 2 };
    assert!(!should_restart(&p(RestartPolicyType::Never), 0, ExitKind::Signal(9)));
    assert!(should_restart(&p(RestartPolicyType::Always), 1, ExitKind::Code(0)));
    assert!(!should_restart(&p(RestartPolicyType::Always), 2, ExitKind::Code(1)));
    assert!(should_restart(&p(RestartPolicyType::OnFailure), 0, ExitKind::Code(3)));
    assert!(!should_restart(&p(RestartPolicyType::OnFailure), 0, ExitKind::Code(0)));
    assert!(should_restart(&p(RestartPolicyType::OnAbnormalExit), 0, ExitKind::Signal(15)));
    assert!(!should_restart(&p(RestartPolicyType::OnAbnormalExit), 0, ExitKind::Code(1)));
}

#[test]
fn exits_of_unknown_processes_change_nothing() {
    let mut reg = registry_with(vec![definition("web", "/bin/srv", RestartPolicyType::Always, 3)]);
    launch(&mut reg, "web", 60);
    assert!(reg.record_exit(61, ExitKind::Code(1)).is_empty());
    assert_eq!(reg.get("web").unwrap().pid, Some(60));
}

#[test]
fn invalid_pid_counts_as_failed_spawn() {
    let mut reg = registry_with(vec![definition("web", "/bin/srv", RestartPolicyType::Never, 3)]);
    assert!(matches!(reg.begin_start("web"), StartDecision::Launch(_)));
    assert!(!reg.finish_start("web", Some(0)));
    assert_eq!(reg.get("web").unwrap().state, ServiceState::Failed);
}

#[test]
fn status_and_list_cover_every_service() {
    let reg = registry_with(vec![
        definition("a", "/bin/a", RestartPolicyType::Never, 3),
        definition("b", "/bin/b", RestartPolicyType::Never, 3),
    ]);
    let all = reg.get_status(None);
    assert_eq!(all.len(), 2);
    assert!(all.iter().all(|s| s.state == "Stopped" && !s.enabled));
    assert_eq!(reg.list_services().len(), 2);
}

#[test]
fn command_lines_split_on_whitespace() {
    assert_eq!(split_command(" a\tb\n c "), vec!["a", "b", "c"]);
    assert!(split_command(" \t ").is_empty());
}

#[test]
fn state_labels() {
    assert_eq!(ServiceState::Running.label(), "Running");
    assert_eq!(ServiceState::Stopping.label(), "Stopping");
}

#[test]
fn interleaved_operations_keep_pid_and_state_consistent() {
    let mut reg = registry_with(vec![
        definition("web", "/bin/srv", RestartPolicyType::Always, 2),
        definition("db", "/bin/db", RestartPolicyType::OnFailure, 1),
    ]);
    let consistent = |reg: &Registry| {
        reg.get_status(None)
            .iter()
            .all(|s| {
                (s.state != "Running" || s.pid.is_some())
                    && (s.pid.is_none() || s.state == "Running" || s.state == "Failed")
            })
    };
    launch(&mut reg, "web", 10);
    assert!(consistent(&reg));
    launch(&mut reg, "db", 11);
    reg.record_exit(10, ExitKind::Signal(11));
    assert!(consistent(&reg));
    let _ = reg.handle_ipc_request(IpcRequest::StartService { name: "web".to_string() });
    assert!(consistent(&reg));
    reg.record_exit(11, ExitKind::Code(0));
    assert!(consistent(&reg));
    assert_eq!(reg.get("db").unwrap().state, ServiceState::Failed);
    assert!(reg.resume_restart("web").is_some());
    assert!(reg.finish_start("web", Some(12)));
    reg.record_stop("web", true);
    assert!(consistent(&reg));
}
