use luna::common::{BundleId, ProcessId, SessionId, Version};
use luna::runtime::{
    ApplicationInstance, ApplicationInstanceId, ExitReport, FailureStage, InMemoryApplicationRuntime, InstanceState, LinuxApplicationRuntime, ProcessExit,
    ProcessState, RuntimeError,
};

fn instance() -> ApplicationInstance {
    ApplicationInstance::new(
        ApplicationInstanceId::new(1),
        BundleId::from_str("example.app"),
        Version::new(1, 0, 0),
        SessionId::new(7),
    )
}

#[test]
fn normal_lifecycle_transitions_are_allowed() {
    let mut instance = instance();
    assert_eq!(instance.state(), InstanceState::Created);
    instance.transition(InstanceState::Starting).unwrap();
    instance.transition(InstanceState::Running).unwrap();
    instance.transition(InstanceState::Stopping).unwrap();
    instance.transition(InstanceState::Stopped).unwrap();
    assert!(instance.is_terminal());
}

#[test]
fn starting_can_fail() {
    let mut instance = instance();
    instance.transition(InstanceState::Starting).unwrap();
    instance.record_failure(FailureStage::Starting, "exec failed".into()).unwrap();
    assert_eq!(instance.state(), InstanceState::Failed);
    assert_eq!(instance.failure().unwrap().stage(), FailureStage::Starting);
}

#[test]
fn stopping_can_fail() {
    let mut instance = instance();
    instance.transition(InstanceState::Starting).unwrap();
    instance.transition(InstanceState::Running).unwrap();
    instance.transition(InstanceState::Stopping).unwrap();
    instance.record_failure(FailureStage::Stopping, "termination failed".into()).unwrap();
    assert_eq!(instance.state(), InstanceState::Failed);
}

#[test]
fn running_can_crash_and_records_exit() {
    let mut instance = instance();
    instance.transition(InstanceState::Starting).unwrap();
    instance.attach_process(ProcessId::new(42)).unwrap();
    instance.transition(InstanceState::Running).unwrap();
    instance.record_process_exit(ExitReport { code: Some(17), signal: None }).unwrap();
    assert_eq!(instance.state(), InstanceState::Crashed);
    assert_eq!(instance.exit(), Some(ProcessExit::Exited { code: 17 }));
}

#[test]
fn normal_exit_becomes_stopped() {
    let mut instance = instance();
    instance.transition(InstanceState::Starting).unwrap();
    instance.attach_process(ProcessId::new(42)).unwrap();
    instance.transition(InstanceState::Running).unwrap();
    instance.record_process_exit(ExitReport { code: Some(0), signal: None }).unwrap();
    assert_eq!(instance.state(), InstanceState::Stopped);
    assert_eq!(instance.exit(), Some(ProcessExit::Exited { code: 0 }));
}

#[test]
fn terminal_states_cannot_return_to_running() {
    let mut stopped = instance();
    stopped.transition(InstanceState::Starting).unwrap();
    stopped.transition(InstanceState::Running).unwrap();
    stopped.transition(InstanceState::Stopping).unwrap();
    stopped.transition(InstanceState::Stopped).unwrap();
    assert!(matches!(
        stopped.transition(InstanceState::Running),
        Err(RuntimeError::InvalidTransition { from: InstanceState::Stopped, to: InstanceState::Running })
    ));

    let mut failed = instance();
    failed.transition(InstanceState::Starting).unwrap();
    failed.record_failure(FailureStage::Starting, "setup failed".into()).unwrap();
    assert!(matches!(
        failed.transition(InstanceState::Running),
        Err(RuntimeError::InvalidTransition { from: InstanceState::Failed, to: InstanceState::Running })
    ));
}

#[test]
fn created_cannot_skip_starting() {
    let mut instance = instance();
    assert!(matches!(
        instance.transition(InstanceState::Stopped),
        Err(RuntimeError::InvalidTransition { from: InstanceState::Created, to: InstanceState::Stopped })
    ));
}

#[test]
fn signal_exit_is_a_crash_and_requested_stop_is_stopped() {
    let mut a = instance();
    a.transition(InstanceState::Starting).unwrap();
    a.attach_process(ProcessId::new(3)).unwrap();
    assert!(matches!(a.attach_process(ProcessId::new(4)), Err(RuntimeError::ProcessAlreadyAttached)));
    a.transition(InstanceState::Running).unwrap();
    a.record_process_exit(ExitReport { code: None, signal: Some(9) }).unwrap();
    assert_eq!(a.state(), InstanceState::Crashed);
    assert_eq!(a.exit(), Some(ProcessExit::Signaled { signal: 9 }));
    assert!(matches!(a.record_process_exit(ExitReport { code: Some(0), signal: None }), Err(RuntimeError::ProcessAlreadyExited)));

    let mut b = instance();
    b.transition(InstanceState::Starting).unwrap();
    b.attach_process(ProcessId::new(5)).unwrap();
    b.transition(InstanceState::Running).unwrap();
    b.transition(InstanceState::Stopping).unwrap();
    b.record_requested_stop(ExitReport { code: None, signal: Some(15) }).unwrap();
    assert_eq!(b.state(), InstanceState::Stopped);
    assert!(matches!(instance().record_requested_stop(ExitReport { code: Some(0), signal: None }), Err(RuntimeError::NoProcess)));
}

#[test]
fn in_memory_runtime_registers_stops_and_fails_instances() {
    let mut runtime = InMemoryApplicationRuntime::new();
    let launched = runtime.register_launch(BundleId::from_str("a.app"), Version::new(1, 2, 3), SessionId::new(1), luna::common::RuntimeSpec::luna());
    assert_eq!(launched.id().get(), 1);
    assert_eq!(launched.state(), InstanceState::Running);
    let second = runtime.register_launch(BundleId::from_str("b.app"), Version::new(1, 0, 0), SessionId::new(1), luna::common::RuntimeSpec::luna());
    assert_eq!(second.id().get(), 2);
    runtime.stop(launched.id()).unwrap();
    assert_eq!(runtime.instance(launched.id()).unwrap().state(), InstanceState::Stopped);
    assert!(matches!(runtime.stop(launched.id()), Err(RuntimeError::InvalidTransition { .. })));
    runtime.fail(second.id()).unwrap();
    let failed = runtime.instance(second.id()).unwrap();
    assert_eq!(failed.state(), InstanceState::Failed);
    assert_eq!(failed.failure().unwrap().stage(), FailureStage::Supervision);
    assert!(matches!(runtime.instance(ApplicationInstanceId::new(99)), Err(RuntimeError::InstanceNotFound)));
}

fn running_instance(id: u128, process: u32) -> ApplicationInstance {
    let mut instance = ApplicationInstance::new(
        ApplicationInstanceId::new(id),
        BundleId::from_str("example.app"),
        Version::new(1, 0, 0),
        SessionId::new(7),
    );
    instance.transition(InstanceState::Starting).unwrap();
    instance.attach_process(ProcessId::new(process)).unwrap();
    instance.transition(InstanceState::Running).unwrap();
    instance
}

#[test]
fn linux_runtime_poll_records_an_exit() {
    let mut runtime = LinuxApplicationRuntime::new();
    runtime.track(ProcessId::new(40), running_instance(1, 40));
    let id = ApplicationInstanceId::new(1);
    let process = runtime.poll_target(id).unwrap();
    assert_eq!(process, ProcessId::new(40));
    assert_eq!(runtime.poll(id, process, ProcessState::Running).unwrap(), InstanceState::Running);
    assert_eq!(runtime.tracked_processes(), vec![ProcessId::new(40)]);
    let state = runtime.poll(id, process, ProcessState::Exited(ExitReport { code: Some(3), signal: None })).unwrap();
    assert_eq!(state, InstanceState::Crashed);
    assert!(runtime.tracked_processes().is_empty());
    assert!(matches!(runtime.poll_target(id), Err(RuntimeError::NoProcess)));
    assert!(matches!(runtime.poll_target(ApplicationInstanceId::new(9)), Err(RuntimeError::InstanceNotFound)));
}

#[test]
fn linux_runtime_terminate_stops_or_fails() {
    let mut runtime = LinuxApplicationRuntime::new();
    runtime.track(ProcessId::new(10), running_instance(1, 10));
    runtime.track(ProcessId::new(11), running_instance(2, 11));
    let first = ApplicationInstanceId::new(1);
    let process = runtime.begin_terminate(first).unwrap();
    assert_eq!(runtime.instance(first).unwrap().state(), InstanceState::Stopping);
    runtime.terminate(first, process, Ok(ExitReport { code: None, signal: Some(15) })).unwrap();
    assert_eq!(runtime.instance(first).unwrap().state(), InstanceState::Stopped);

    let second = ApplicationInstanceId::new(2);
    let process = runtime.begin_terminate(second).unwrap();
    let error = runtime.terminate(second, process, Err("kill failed".to_owned())).unwrap_err();
    assert!(matches!(error, RuntimeError::Supervisor(message) if message == "kill failed"));
    let instance = runtime.instance(second).unwrap();
    assert_eq!(instance.state(), InstanceState::Failed);
    assert_eq!(instance.failure().unwrap().stage(), FailureStage::Stopping);
    assert_eq!(runtime.tracked_processes(), vec![ProcessId::new(11)]);
}

#[test]
fn linux_runtime_reconcile_reports_exited_processes() {
    let mut runtime = LinuxApplicationRuntime::new();
    runtime.track(ProcessId::new(7), running_instance(1, 7));
    runtime.track(ProcessId::new(3), running_instance(2, 3));
    let mut listed = runtime.tracked_processes();
    listed.sort();
    assert_eq!(listed, vec![ProcessId::new(3), ProcessId::new(7)]);
    assert_eq!(runtime.reconcile(ProcessId::new(3), ProcessState::Running).unwrap(), None);
    let change = runtime.reconcile(ProcessId::new(7), ProcessState::Exited(ExitReport { code: Some(0), signal: None })).unwrap();
    assert_eq!(change, Some((ApplicationInstanceId::new(1), InstanceState::Stopped)));
    assert_eq!(runtime.reconcile(ProcessId::new(7), ProcessState::Exited(ExitReport { code: Some(0), signal: None })).unwrap(), None);
    assert_eq!(runtime.tracked_processes(), vec![ProcessId::new(3)]);
}
