//! Application instance lifecycle: the states an application execution goes
//! through, the transitions allowed between them, and the record of its
//! supervised process.

use vstd::prelude::*;
use crate::common::{BundleId, Version, SessionId, ProcessId, RuntimeSpec, RuntimeKind};
use crate::text::{decimal, push_decimal, prefixed};

verus! {

#[derive(Clone, Copy, Debug, PartialEq, Eq, Structural, Hash, PartialOrd, Ord)]
pub struct ApplicationInstanceId {
    value: u128,
}

impl ApplicationInstanceId {
    pub closed spec fn spec_get(self) -> u128 {
        self.value
    }

    pub fn new(value: u128) -> (res: ApplicationInstanceId)
        ensures
            res.spec_get() == value,
    {
        ApplicationInstanceId { value }
    }

    pub fn get(self) -> (res: u128)
        ensures
            res == self.spec_get(),
    {
        self.value
    }
}

#[derive(Clone, Copy, Debug, PartialEq, Eq, Structural)]
pub enum InstanceState {
    Created,
    Starting,
    Running,
    Stopping,
    Stopped,
    Crashed,
    Failed,
}

/// The lifecycle edges: `Created → Starting → Running → Stopping`, with
/// `Starting` able to fail, `Running` able to stop, crash or fail directly,
/// and `Stopping` ending stopped, crashed or failed.
pub open spec fn transition_allowed(from: InstanceState, to: InstanceState) -> bool {
    match (from, to) {
        (InstanceState::Created, InstanceState::Starting) => true,
        (InstanceState::Starting, InstanceState::Running) => true,
        (InstanceState::Starting, InstanceState::Failed) => true,
        (InstanceState::Running, InstanceState::Stopping) => true,
        (InstanceState::Running, InstanceState::Stopped) => true,
        (InstanceState::Running, InstanceState::Crashed) => true,
        (InstanceState::Running, InstanceState::Failed) => true,
        (InstanceState::Stopping, InstanceState::Stopped) => true,
        (InstanceState::Stopping, InstanceState::Crashed) => true,
        (InstanceState::Stopping, InstanceState::Failed) => true,
        _ => false,
    }
}

pub open spec fn is_terminal_state(s: InstanceState) -> bool {
    s == InstanceState::Stopped || s == InstanceState::Crashed || s == InstanceState::Failed
}

/// Position of a state along the lifecycle.
pub open spec fn lifecycle_rank(s: InstanceState) -> nat {
    match s {
        InstanceState::Created => 0,
        InstanceState::Starting => 1,
        InstanceState::Running => 2,
        InstanceState::Stopping => 3,
        _ => 4,
    }
}

/// A terminal state (stopped, crashed, failed) has no way out.
pub proof fn lemma_terminal_states_are_final(from: InstanceState, to: InstanceState)
    requires
        is_terminal_state(from),
    ensures
        !transition_allowed(from, to),
{
}

/// Every allowed transition moves strictly forward, so no state is ever
/// entered twice by one instance.
pub proof fn lemma_transitions_advance(from: InstanceState, to: InstanceState)
    requires
        transition_allowed(from, to),
    ensures
        lifecycle_rank(from) < lifecycle_rank(to),
{
}

/// A created instance can only start: it cannot skip `Starting`.
pub proof fn lemma_created_only_starts(to: InstanceState)
    ensures
        transition_allowed(InstanceState::Created, to) <==> to == InstanceState::Starting,
{
}

#[derive(Clone, Copy, Debug, PartialEq, Eq, Structural)]
pub enum ProcessExit {
    Exited { code: i32 },
    Signaled { signal: i32 },
    UnknownFailure,
}

/// What is known of how a process ended: its exit code, if it exited, and
/// the signal that ended it, if one did.
#[derive(Clone, Copy, Debug, PartialEq, Eq, Structural)]
pub struct ExitReport {
    pub code: Option<i32>,
    pub signal: Option<i32>,
}

impl ExitReport {
    /// Success is a zero exit code; a signal is never success.
    pub open spec fn spec_success(self) -> bool {
        self.code == Some(0i32)
    }

    pub fn success(&self) -> (res: bool)
        ensures
            res == self.spec_success(),
    {
        match self.code {
            Some(c) => c == 0,
            None => false,
        }
    }
}

pub open spec fn exit_of_report(r: ExitReport) -> ProcessExit {
    match r.code {
        Some(code) => ProcessExit::Exited { code },
        None => match r.signal {
            Some(signal) => ProcessExit::Signaled { signal },
            None => ProcessExit::UnknownFailure,
        },
    }
}

impl ProcessExit {
    /// The exit code if there is one, else the signal, else unknown.
    pub fn from_report(report: &ExitReport) -> (res: ProcessExit)
        ensures
            res == exit_of_report(*report),
    {
        match report.code {
            Some(code) => ProcessExit::Exited { code },
            None => match report.signal {
                Some(signal) => ProcessExit::Signaled { signal },
                None => ProcessExit::UnknownFailure,
            },
        }
    }
}

#[derive(Clone, Copy, Debug, PartialEq, Eq, Structural)]
pub struct ApplicationProcess {
    pub id: ProcessId,
    pub exit: Option<ProcessExit>,
}

impl ApplicationProcess {
    pub fn id(&self) -> (res: ProcessId)
        ensures
            res == self.id,
    {
        self.id
    }

    pub fn exit(&self) -> (res: Option<ProcessExit>)
        ensures
            res == self.exit,
    {
        self.exit
    }

    /// Still running: no exit has been recorded.
    pub fn is_running(&self) -> (res: bool)
        ensures
            res == (self.exit is None),
    {
        self.exit.is_none()
    }
}

#[derive(Clone, Copy, Debug, PartialEq, Eq, Structural)]
pub enum FailureStage {
    Starting,
    Stopping,
    Supervision,
}

#[derive(Clone, Debug)]
pub struct InstanceFailure {
    stage: FailureStage,
    message: String,
}

impl InstanceFailure {
    pub closed spec fn spec_stage(&self) -> FailureStage {
        self.stage
    }

    pub closed spec fn spec_message(&self) -> Seq<char> {
        self.message@
    }

    pub fn new(stage: FailureStage, message: String) -> (res: InstanceFailure)
        ensures
            res.spec_stage() == stage,
            res.spec_message() == message@,
    {
        InstanceFailure { stage, message }
    }

    pub fn stage(&self) -> (res: FailureStage)
        ensures
            res == self.spec_stage(),
    {
        self.stage
    }

    pub fn message(&self) -> (res: &str)
        ensures
            res@ == self.spec_message(),
    {
        self.message.as_str()
    }

    /// A copy of this record.
    pub fn duplicate(&self) -> (res: InstanceFailure)
        ensures
            res.spec_stage() == self.spec_stage(),
            res.spec_message() == self.spec_message(),
    {
        InstanceFailure { stage: self.stage, message: self.message.clone() }
    }
}

#[derive(Debug)]
pub enum RuntimeError {
    InvalidTransition { from: InstanceState, to: InstanceState },
    InvalidBundle(String),
    Security(String),
    SessionNotActive,
    SessionMismatch { expected: SessionId, actual: SessionId },
    InstanceNotFound,
    Process(String),
    Supervisor(String),
    ProcessAlreadyAttached,
    ProcessAlreadyExited,
    NoProcess,
    InvalidExecutable(String),
    Staging(String),
    RuntimeMismatch { mapping: Option<RuntimeKind>, requested: RuntimeKind },
}

/// The name a lifecycle state is written with.
pub open spec fn instance_state_name(state: InstanceState) -> Seq<char> {
    match state {
        InstanceState::Created => "Created"@,
        InstanceState::Starting => "Starting"@,
        InstanceState::Running => "Running"@,
        InstanceState::Stopping => "Stopping"@,
        InstanceState::Stopped => "Stopped"@,
        InstanceState::Crashed => "Crashed"@,
        InstanceState::Failed => "Failed"@,
    }
}

fn state_name(state: InstanceState) -> (res: &'static str)
    ensures
        res@ == instance_state_name(state),
{
    match state {
        InstanceState::Created => "Created",
        InstanceState::Starting => "Starting",
        InstanceState::Running => "Running",
        InstanceState::Stopping => "Stopping",
        InstanceState::Stopped => "Stopped",
        InstanceState::Crashed => "Crashed",
        InstanceState::Failed => "Failed",
    }
}

/// The name a runtime kind is written with.
pub open spec fn runtime_kind_name(kind: RuntimeKind) -> Seq<char> {
    match kind {
        RuntimeKind::Luna => "Luna"@,
        RuntimeKind::Glibc => "Glibc"@,
        RuntimeKind::Bundle => "Bundle"@,
    }
}

fn kind_name(kind: RuntimeKind) -> (res: &'static str)
    ensures
        res@ == runtime_kind_name(kind),
{
    match kind {
        RuntimeKind::Luna => "Luna",
        RuntimeKind::Glibc => "Glibc",
        RuntimeKind::Bundle => "Bundle",
    }
}

/// An optional runtime kind written as `Some(..)` or `None`.
pub open spec fn optional_kind_text(kind: Option<RuntimeKind>) -> Seq<char> {
    match kind {
        Some(k) => "Some("@ + runtime_kind_name(k) + ")"@,
        None => "None"@,
    }
}

/// The description of a `RuntimeError`.
pub open spec fn runtime_error_text(e: RuntimeError) -> Seq<char> {
    match e {
        RuntimeError::InvalidTransition { from, to } =>
            "invalid application instance transition from "@ + instance_state_name(from) + " to "@
                + instance_state_name(to),
        RuntimeError::InvalidBundle(m) => "invalid bundle: "@ + m@,
        RuntimeError::Security(m) => "security authorization failed: "@ + m@,
        RuntimeError::SessionNotActive => "session is not active"@,
        RuntimeError::SessionMismatch { expected, actual } =>
            "application plan session "@ + decimal(expected.spec_get() as nat)
                + " does not match launch session "@ + decimal(actual.spec_get() as nat),
        RuntimeError::InstanceNotFound => "application instance not found"@,
        RuntimeError::Process(m) => "process supervision failed: "@ + m@,
        RuntimeError::Supervisor(m) => "system runtime operation failed: "@ + m@,
        RuntimeError::ProcessAlreadyAttached => "application instance already has a process"@,
        RuntimeError::ProcessAlreadyExited => "application instance process exit was already recorded"@,
        RuntimeError::NoProcess => "application instance has no running process"@,
        RuntimeError::InvalidExecutable(m) => "invalid application executable: "@ + m@,
        RuntimeError::Staging(m) => "namespace staging failed: "@ + m@,
        RuntimeError::RuntimeMismatch { mapping, requested } =>
            "runtime mismatch: mapping="@ + optional_kind_text(mapping) + ", requested="@
                + runtime_kind_name(requested),
    }
}

impl RuntimeError {
    /// Human-readable description.
    pub fn message(&self) -> (res: String)
        ensures
            res@ == runtime_error_text(*self),
    {
        match self {
            RuntimeError::InvalidTransition { from, to } => {
                let mut s = String::from_str("invalid application instance transition from ");
                s.append(state_name(*from));
                s.append(" to ");
                s.append(state_name(*to));
                s
            },
            RuntimeError::InvalidBundle(e) => prefixed("invalid bundle: ", e.as_str()),
            RuntimeError::Security(e) => prefixed("security authorization failed: ", e.as_str()),
            RuntimeError::SessionNotActive => String::from_str("session is not active"),
            RuntimeError::SessionMismatch { expected, actual } => {
                let mut s = String::from_str("application plan session ");
                push_decimal(&mut s, expected.get());
                s.append(" does not match launch session ");
                push_decimal(&mut s, actual.get());
                s
            },
            RuntimeError::InstanceNotFound => String::from_str("application instance not found"),
            RuntimeError::Process(e) => prefixed("process supervision failed: ", e.as_str()),
            RuntimeError::Supervisor(e) => prefixed("system runtime operation failed: ", e.as_str()),
            RuntimeError::ProcessAlreadyAttached => String::from_str(
                "application instance already has a process",
            ),
            RuntimeError::ProcessAlreadyExited => String::from_str(
                "application instance process exit was already recorded",
            ),
            RuntimeError::NoProcess => String::from_str("application instance has no running process"),
            RuntimeError::InvalidExecutable(e) => prefixed("invalid application executable: ", e.as_str()),
            RuntimeError::Staging(e) => prefixed("namespace staging failed: ", e.as_str()),
            RuntimeError::RuntimeMismatch { mapping, requested } => {
                let mut s = String::from_str("runtime mismatch: mapping=");
                match mapping {
                    Some(k) => {
                        s.append("Some(");
                        s.append(kind_name(*k));
                        s.append(")");
                    },
                    None => {
                        s.append("None");
                    },
                }
                s.append(", requested=");
                s.append(kind_name(*requested));
                s
            },
        }
    }
}

/// Mathematical content of an application instance.
pub ghost struct InstanceView {
    pub id: u128,
    pub application: Seq<char>,
    pub version: Version,
    pub session: SessionId,
    pub runtime: RuntimeSpec,
    pub state: InstanceState,
    pub process: Option<ApplicationProcess>,
    pub failure: Option<(FailureStage, Seq<char>)>,
}

/// One concrete application execution lifecycle. Its state changes only
/// through the validated transition methods.
#[derive(Debug)]
pub struct ApplicationInstance {
    id: ApplicationInstanceId,
    application: BundleId,
    version: Version,
    session: SessionId,
    runtime: RuntimeSpec,
    state: InstanceState,
    process: Option<ApplicationProcess>,
    failure: Option<InstanceFailure>,
}

pub open spec fn failure_view(f: Option<InstanceFailure>) -> Option<(FailureStage, Seq<char>)> {
    match f {
        Some(x) => Some((x.spec_stage(), x.spec_message())),
        None => None,
    }
}

impl View for ApplicationInstance {
    type V = InstanceView;

    closed spec fn view(&self) -> InstanceView {
        InstanceView {
            id: self.id.spec_get(),
            application: self.application@,
            version: self.version,
            session: self.session,
            runtime: self.runtime,
            state: self.state,
            process: self.process,
            failure: failure_view(self.failure),
        }
    }
}

/// The instance with its state replaced.
pub open spec fn with_state(v: InstanceView, s: InstanceState) -> InstanceView {
    InstanceView { state: s, ..v }
}

impl ApplicationInstance {
    /// A new instance on the native Luna runtime.
    pub fn new(id: ApplicationInstanceId, application: BundleId, version: Version, session: SessionId) -> (res: ApplicationInstance)
        ensures
            res@.id == id.spec_get(),
            res@.application == application@,
            res@.version == version,
            res@.session == session,
            res@.runtime.spec_kind() == RuntimeKind::Luna,
            res@.state == InstanceState::Created,
            res@.process is None,
            res@.failure is None,
    {
        ApplicationInstance::new_with_runtime(id, application, version, session, RuntimeSpec::luna())
    }

    pub fn new_with_runtime(id: ApplicationInstanceId, application: BundleId, version: Version, session: SessionId, runtime: RuntimeSpec) -> (res: ApplicationInstance)
        ensures
            res@ == (InstanceView {
                id: id.spec_get(),
                application: application@,
                version,
                session,
                runtime,
                state: InstanceState::Created,
                process: None,
                failure: None,
            }),
    {
        ApplicationInstance {
            id,
            application,
            version,
            session,
            runtime,
            state: InstanceState::Created,
            process: None,
            failure: None,
        }
    }

    pub fn id(&self) -> (res: ApplicationInstanceId)
        ensures
            res.spec_get() == self@.id,
    {
        self.id
    }

    pub fn application(&self) -> (res: &BundleId)
        ensures
            res@ == self@.application,
    {
        &self.application
    }

    pub fn version(&self) -> (res: Version)
        ensures
            res == self@.version,
    {
        self.version
    }

    pub fn session(&self) -> (res: SessionId)
        ensures
            res == self@.session,
    {
        self.session
    }

    pub fn runtime(&self) -> (res: RuntimeSpec)
        ensures
            res == self@.runtime,
    {
        self.runtime
    }

    pub fn state(&self) -> (res: InstanceState)
        ensures
            res == self@.state,
    {
        self.state
    }

    pub fn process_info(&self) -> (res: Option<&ApplicationProcess>)
        ensures
            match self@.process {
                Some(p) => res matches Some(q) && *q == p,
                None => res is None,
            },
    {
        match &self.process {
            Some(p) => Some(p),
            None => None,
        }
    }

    pub fn process(&self) -> (res: Option<ProcessId>)
        ensures
            res == (match self@.process {
                Some(p) => Some(p.id),
                None => None::<ProcessId>,
            }),
    {
        match self.process {
            Some(p) => Some(p.id),
            None => None,
        }
    }

    pub fn exit(&self) -> (res: Option<ProcessExit>)
        ensures
            res == (match self@.process {
                Some(p) => p.exit,
                None => None::<ProcessExit>,
            }),
    {
        match self.process {
            Some(p) => p.exit,
            None => None,
        }
    }

    pub fn failure(&self) -> (res: Option<&InstanceFailure>)
        ensures
            failure_view(match res {
                Some(f) => Some(*f),
                None => None::<InstanceFailure>,
            }) == self@.failure,
    {
        match &self.failure {
            Some(f) => Some(f),
            None => None,
        }
    }

    pub fn is_terminal(&self) -> (res: bool)
        ensures
            res == is_terminal_state(self@.state),
    {
        match self.state {
            InstanceState::Stopped | InstanceState::Crashed | InstanceState::Failed => true,
            _ => false,
        }
    }

    /// The process, while it is still running.
    pub fn active_process(&self) -> (res: Option<ProcessId>)
        ensures
            res == (match self@.process {
                Some(p) => if p.exit is None {
                    Some(p.id)
                } else {
                    None::<ProcessId>
                },
                None => None::<ProcessId>,
            }),
    {
        match self.process {
            Some(p) => if p.exit.is_none() {
                Some(p.id)
            } else {
                None
            },
            None => None,
        }
    }

    /// A copy of this instance.
    pub fn duplicate(&self) -> (res: ApplicationInstance)
        ensures
            res@ == self@,
    {
        ApplicationInstance {
            id: self.id,
            application: self.application.duplicate(),
            version: self.version,
            session: self.session,
            runtime: self.runtime,
            state: self.state,
            process: self.process,
            failure: match &self.failure {
                Some(f) => Some(f.duplicate()),
                None => None,
            },
        }
    }

    /// Attaches the supervised process; only while starting, and only once.
    pub fn attach_process(&mut self, process: ProcessId) -> (res: Result<(), RuntimeError>)
        ensures
            old(self)@.state != InstanceState::Starting ==> (res matches Err(RuntimeError::InvalidTransition { from, to }) && from == old(self)@.state && to == InstanceState::Running && final(self)@ == old(self)@),
            old(self)@.state == InstanceState::Starting && old(self)@.process is Some ==> (res matches Err(RuntimeError::ProcessAlreadyAttached) && final(self)@ == old(self)@),
            old(self)@.state == InstanceState::Starting && old(self)@.process is None ==> res is Ok
                && final(self)@ == (InstanceView {
                process: Some(ApplicationProcess { id: process, exit: None }),
                ..old(self)@
            }),
    {
        if self.state != InstanceState::Starting {
            return Err(RuntimeError::InvalidTransition { from: self.state, to: InstanceState::Running });
        }
        if self.process.is_some() {
            return Err(RuntimeError::ProcessAlreadyAttached);
        }
        self.process = Some(ApplicationProcess { id: process, exit: None });
        Ok(())
    }

    /// Moves to `next` when the lifecycle allows it; otherwise reports the
    /// refused edge and leaves the instance unchanged.
    pub fn transition(&mut self, next: InstanceState) -> (res: Result<(), RuntimeError>)
        ensures
            transition_allowed(old(self)@.state, next) ==> res is Ok && final(self)@ == with_state(
                old(self)@,
                next,
            ),
            !transition_allowed(old(self)@.state, next) ==> (res matches Err(RuntimeError::InvalidTransition { from, to }) && from == old(self)@.state && to == next && final(self)@ == old(self)@),
    {
        let valid = match (self.state, next) {
            (InstanceState::Created, InstanceState::Starting) => true,
            (InstanceState::Starting, InstanceState::Running) => true,
            (InstanceState::Starting, InstanceState::Failed) => true,
            (InstanceState::Running, InstanceState::Stopping) => true,
            (InstanceState::Running, InstanceState::Stopped) => true,
            (InstanceState::Running, InstanceState::Crashed) => true,
            (InstanceState::Running, InstanceState::Failed) => true,
            (InstanceState::Stopping, InstanceState::Stopped) => true,
            (InstanceState::Stopping, InstanceState::Crashed) => true,
            (InstanceState::Stopping, InstanceState::Failed) => true,
            _ => false,
        };
        if !valid {
            return Err(RuntimeError::InvalidTransition { from: self.state, to: next });
        }
        self.state = next;
        Ok(())
    }

    /// Moves to `Failed` and records why.
    pub fn record_failure(&mut self, stage: FailureStage, message: String) -> (res: Result<(), RuntimeError>)
        ensures
            transition_allowed(old(self)@.state, InstanceState::Failed) ==> res is Ok && final(self)@
                == (InstanceView {
                state: InstanceState::Failed,
                failure: Some((stage, message@)),
                ..old(self)@
            }),
            !transition_allowed(old(self)@.state, InstanceState::Failed) ==> (res matches Err(RuntimeError::InvalidTransition { from, to }) && from == old(self)@.state && to == InstanceState::Failed && final(self)@ == old(self)@),
    {
        match self.transition(InstanceState::Failed) {
            Ok(()) => {},
            Err(e) => return Err(e),
        }
        self.failure = Some(InstanceFailure::new(stage, message));
        Ok(())
    }

    /// Records that the running process ended on its own: a successful exit
    /// stops the instance, any other end crashes it.
    pub fn record_process_exit(&mut self, report: ExitReport) -> (res: Result<(), RuntimeError>)
        ensures
            old(self)@.process is None ==> (res matches Err(RuntimeError::NoProcess) && final(self)@
                == old(self)@),
            old(self)@.process matches Some(p) && p.exit is Some ==> (res matches Err(RuntimeError::ProcessAlreadyExited) && final(self)@ == old(self)@),
            old(self)@.process matches Some(p) ==> (p.exit is None ==> ({
                let next = if report.spec_success() {
                    InstanceState::Stopped
                } else {
                    InstanceState::Crashed
                };
                if transition_allowed(old(self)@.state, next) {
                    res is Ok && final(self)@ == (InstanceView {
                        state: next,
                        process: Some(ApplicationProcess { id: p.id, exit: Some(exit_of_report(report)) }),
                        ..old(self)@
                    })
                } else {
                    res matches Err(RuntimeError::InvalidTransition { from, to }) && from == old(
                        self,
                    )@.state && to == next && final(self)@ == old(self)@
                }
            })),
    {
        let current = match self.process {
            None => return Err(RuntimeError::NoProcess),
            Some(p) => p,
        };
        if current.exit.is_some() {
            return Err(RuntimeError::ProcessAlreadyExited);
        }
        let outcome = ProcessExit::from_report(&report);
        let next = if report.success() {
            InstanceState::Stopped
        } else {
            InstanceState::Crashed
        };
        match self.transition(next) {
            Ok(()) => {},
            Err(e) => return Err(e),
        }
        self.process = Some(ApplicationProcess { id: current.id, exit: Some(outcome) });
        Ok(())
    }

    /// Records that the process ended because a stop was requested: the
    /// instance becomes stopped whatever the exit status.
    pub fn record_requested_stop(&mut self, report: ExitReport) -> (res: Result<(), RuntimeError>)
        ensures
            old(self)@.process is None ==> (res matches Err(RuntimeError::NoProcess) && final(self)@
                == old(self)@),
            old(self)@.process matches Some(p) && p.exit is Some ==> (res matches Err(RuntimeError::ProcessAlreadyExited) && final(self)@ == old(self)@),
            old(self)@.process matches Some(p) ==> (p.exit is None ==> (if transition_allowed(
                old(self)@.state,
                InstanceState::Stopped,
            ) {
                res is Ok && final(self)@ == (InstanceView {
                    state: InstanceState::Stopped,
                    process: Some(ApplicationProcess { id: p.id, exit: Some(exit_of_report(report)) }),
                    ..old(self)@
                })
            } else {
                res matches Err(RuntimeError::InvalidTransition { from, to }) && from == old(
                    self,
                )@.state && to == InstanceState::Stopped && final(self)@ == old(self)@
            })),
    {
        let current = match self.process {
            None => return Err(RuntimeError::NoProcess),
            Some(p) => p,
        };
        if current.exit.is_some() {
            return Err(RuntimeError::ProcessAlreadyExited);
        }
        match self.transition(InstanceState::Stopped) {
            Ok(()) => {},
            Err(e) => return Err(e),
        }
        self.process = Some(ApplicationProcess { id: current.id, exit: Some(ProcessExit::from_report(&report)) });
        Ok(())
    }
}


// ---------------------------------------------------------------------------
// Instance registry
// ---------------------------------------------------------------------------

pub open spec fn ids_distinct(v: Seq<InstanceView>) -> bool {
    forall|i: int, j: int| 0 <= i < v.len() && 0 <= j < v.len() && i != j ==> v[i].id != v[j].id
}

/// The instance registered under `id`, if any.
pub open spec fn lookup_instance(v: Seq<InstanceView>, id: u128) -> Option<InstanceView> {
    if exists|i: int| 0 <= i < v.len() && v[i].id == id {
        Some(v[choose|i: int| 0 <= i < v.len() && v[i].id == id])
    } else {
        None
    }
}

proof fn lemma_lookup_at(v: Seq<InstanceView>, i: int)
    requires
        ids_distinct(v),
        0 <= i < v.len(),
    ensures
        lookup_instance(v, v[i].id) == Some(v[i]),
{
    let j = choose|j: int| 0 <= j < v.len() && v[j].id == v[i].id;
}

proof fn lemma_lookup_update(v: Seq<InstanceView>, i: int, x: InstanceView, k: u128)
    requires
        ids_distinct(v),
        0 <= i < v.len(),
        x.id == v[i].id,
    ensures
        ids_distinct(v.update(i, x)),
        lookup_instance(v.update(i, x), k) == if k == x.id {
            Some(x)
        } else {
            lookup_instance(v, k)
        },
{
    let w = v.update(i, x);
    assert(ids_distinct(w));
    if k == x.id {
        lemma_lookup_at(w, i);
    } else if exists|j: int| 0 <= j < v.len() && v[j].id == k {
        let j = choose|j: int| 0 <= j < v.len() && v[j].id == k;
        assert(w[j] == v[j]);
        lemma_lookup_at(v, j);
        lemma_lookup_at(w, j);
    } else {
        assert forall|j: int| 0 <= j < w.len() implies w[j].id != k by {
            if j != i {
                assert(w[j] == v[j]);
            }
        }
    }
}

proof fn lemma_lookup_push(v: Seq<InstanceView>, x: InstanceView, k: u128)
    requires
        ids_distinct(v),
        lookup_instance(v, x.id) is None,
    ensures
        ids_distinct(v.push(x)),
        lookup_instance(v.push(x), k) == if k == x.id {
            Some(x)
        } else {
            lookup_instance(v, k)
        },
{
    let w = v.push(x);
    assert forall|i: int, j: int| 0 <= i < w.len() && 0 <= j < w.len() && i != j implies w[i].id
        != w[j].id by {
        if i < v.len() && j < v.len() {
        } else if i == v.len() {
            assert(w[j] == v[j]);
        } else {
            assert(w[i] == v[i]);
        }
    }
    if k == x.id {
        lemma_lookup_at(w, v.len() as int);
    } else if exists|j: int| 0 <= j < v.len() && v[j].id == k {
        let j = choose|j: int| 0 <= j < v.len() && v[j].id == k;
        assert(w[j] == v[j]);
        lemma_lookup_at(v, j);
        lemma_lookup_at(w, j);
    } else {
        assert forall|j: int| 0 <= j < w.len() implies w[j].id != k by {
            if j < v.len() {
                assert(w[j] == v[j]);
            }
        }
    }
}

/// The failure stage a reported failure is attributed to.
pub open spec fn failure_stage_of(s: InstanceState) -> FailureStage {
    match s {
        InstanceState::Starting => FailureStage::Starting,
        InstanceState::Stopping => FailureStage::Stopping,
        _ => FailureStage::Supervision,
    }
}

pub open spec fn views_of(v: Seq<ApplicationInstance>) -> Seq<InstanceView> {
    Seq::new(v.len(), |i: int| v[i]@)
}

/// What recording the end of an instance's process gives: the instance
/// stopped (a requested stop, or a successful exit) or crashed, with the
/// process's exit recorded; an instance without a live process, or whose
/// lifecycle refuses the change, is left as it is and the error says why.
pub open spec fn exit_step(v: InstanceView, report: ExitReport, requested: bool) -> Result<InstanceView, RuntimeError> {
    match v.process {
        None => Err(RuntimeError::NoProcess),
        Some(p) => if p.exit is Some {
            Err(RuntimeError::ProcessAlreadyExited)
        } else {
            let next = if requested || report.spec_success() {
                InstanceState::Stopped
            } else {
                InstanceState::Crashed
            };
            if transition_allowed(v.state, next) {
                Ok(InstanceView { state: next, process: Some(ApplicationProcess { id: p.id, exit: Some(exit_of_report(report)) }), ..v })
            } else {
                Err(RuntimeError::InvalidTransition { from: v.state, to: next })
            }
        },
    }
}

proof fn lemma_lookup_id(v: Seq<InstanceView>, k: u128)
    ensures
        lookup_instance(v, k) matches Some(x) ==> x.id == k,
{
}


fn map_keys(m: &std::collections::BTreeMap<u32, u128>) -> (res: Vec<u32>)
    ensures
        res@.to_set() == m@.dom(),
        res@.no_duplicates(),
{
    broadcast use vstd::std_specs::btree::axiom_spec_keys_iter;
    let ghost s = vstd::std_specs::iter::IteratorSpec::remaining(&vstd::std_specs::btree::spec_keys_iter(m));
    let mut out: Vec<u32> = Vec::new();
    for p in it: m.keys()
        invariant
            it.seq() == s,
            out@ == s.take(it.index() as int).map_values(|k: &u32| *k),
    {
        out.push(*p);
        assert(out@ =~= s.take(it.index() as int + 1).map_values(|k: &u32| *k));
    }
    assert(out@.len() == s.len());
    assert(out@ =~= s.unref());
    assert(s.unref().to_set() == m@.dom());
    assert(s.no_duplicates());
    out
}

/// Registry of application instances kept in memory, keyed by instance id.
pub struct InMemoryApplicationRuntime {
    next_id: u128,
    instances: Vec<ApplicationInstance>,
}

impl InMemoryApplicationRuntime {
    #[verifier::type_invariant]
    spec fn well_formed(&self) -> bool {
        ids_distinct(self.spec_instances())
    }

    /// The registered instances, in registration order.
    pub closed spec fn spec_instances(&self) -> Seq<InstanceView> {
        views_of(self.instances@)
    }

    pub closed spec fn spec_next_id(&self) -> u128 {
        self.next_id
    }

    /// The instance registered under `id`.
    pub open spec fn spec_lookup(&self, id: u128) -> Option<InstanceView> {
        lookup_instance(self.spec_instances(), id)
    }

    pub fn new() -> (res: InMemoryApplicationRuntime)
        ensures
            res.spec_next_id() == 1,
            forall|k: u128| res.spec_lookup(k) is None,
    {
        InMemoryApplicationRuntime { next_id: 1, instances: Vec::new() }
    }

    fn find_index(&self, id: u128) -> (res: Option<usize>)
        ensures
            match res {
                Some(i) => i < self.instances@.len() && self.instances@[i as int]@.id == id,
                None => self.spec_lookup(id) is None,
            },
    {
        let mut i: usize = 0;
        while i < self.instances.len()
            invariant
                i <= self.instances@.len(),
                forall|j: int| 0 <= j < i ==> self.instances@[j]@.id != id,
            decreases self.instances@.len() - i,
        {
            if self.instances[i].id.value == id {
                return Some(i);
            }
            i = i + 1;
        }
        proof {
            assert forall|j: int| 0 <= j < self.spec_instances().len() implies self.spec_instances()[j].id
                != id by {
                assert(self.spec_instances()[j] == self.instances@[j]@);
            }
        }
        None
    }

    /// The instance registered under `id`.
    pub fn instance(&self, id: ApplicationInstanceId) -> (res: Result<&ApplicationInstance, RuntimeError>)
        ensures
            match self.spec_lookup(id.spec_get()) {
                Some(v) => res matches Ok(a) && a@ == v,
                None => res matches Err(RuntimeError::InstanceNotFound),
            },
    {
        proof {
            use_type_invariant(self);
        }
        match self.find_index(id.value) {
            Some(i) => {
                proof {
                    assert(self.spec_instances()[i as int] == self.instances@[i as int]@);
                    lemma_lookup_at(self.spec_instances(), i as int);
                }
                Ok(&self.instances[i])
            },
            None => Err(RuntimeError::InstanceNotFound),
        }
    }

    /// Hands out the next instance id; the counter saturates at its maximum.
    pub fn allocate_instance_id(&mut self) -> (res: ApplicationInstanceId)
        ensures
            res.spec_get() == old(self).spec_next_id(),
            final(self).spec_next_id() == (if old(self).spec_next_id() == u128::MAX {
                u128::MAX
            } else {
                (old(self).spec_next_id() + 1) as u128
            }),
            forall|k: u128| final(self).spec_lookup(k) == old(self).spec_lookup(k),
    {
        proof {
            use_type_invariant(&*self);
        }
        let id = ApplicationInstanceId::new(self.next_id);
        self.next_id = self.next_id.saturating_add(1);
        id
    }

    /// Registers `instance`, replacing any instance with the same id.
    pub fn insert(&mut self, instance: ApplicationInstance)
        ensures
            final(self).spec_next_id() == old(self).spec_next_id(),
            forall|k: u128| #[trigger] final(self).spec_lookup(k) == if k == instance@.id {
                Some(instance@)
            } else {
                old(self).spec_lookup(k)
            },
    {
        proof {
            use_type_invariant(&*self);
        }
        let ghost before = self.spec_instances();
        let ghost x = instance@;
        match self.find_index(instance.id.value) {
            Some(i) => {
                let mut items: Vec<ApplicationInstance> = Vec::new();
                std::mem::swap(&mut items, &mut self.instances);
                items.set(i, instance);
                proof {
                    assert(views_of(items@) =~= before.update(i as int, x));
                    lemma_lookup_update(before, i as int, x, 0);
                }
                self.instances = items;
                proof {
                    assert(self.spec_instances() =~= before.update(i as int, x));
                    assert forall|k: u128| #[trigger] self.spec_lookup(k) == if k == x.id {
                        Some(x)
                    } else {
                        lookup_instance(before, k)
                    } by {
                        lemma_lookup_update(before, i as int, x, k);
                    }
                    lemma_lookup_update(before, i as int, x, 0);
                }
            },
            None => {
                let mut items: Vec<ApplicationInstance> = Vec::new();
                std::mem::swap(&mut items, &mut self.instances);
                items.push(instance);
                proof {
                    assert(views_of(items@) =~= before.push(x));
                    lemma_lookup_push(before, x, 0);
                }
                self.instances = items;
                proof {
                    assert(self.spec_instances() =~= before.push(x));
                    assert forall|k: u128| #[trigger] self.spec_lookup(k) == if k == x.id {
                        Some(x)
                    } else {
                        lookup_instance(before, k)
                    } by {
                        lemma_lookup_push(before, x, k);
                    }
                    lemma_lookup_push(before, x, 0);
                }
            },
        }
    }

    /// Registers a launched application: a fresh instance that has gone
    /// through `Starting` to `Running`. Returns a copy of it.
    pub fn register_launch(&mut self, application: BundleId, version: Version, session: SessionId, runtime: RuntimeSpec) -> (res: ApplicationInstance)
        ensures
            res@.id == old(self).spec_next_id(),
            res@.application == application@,
            res@.version == version,
            res@.session == session,
            res@.runtime == runtime,
            res@.state == InstanceState::Running,
            res@.process is None,
            res@.failure is None,
            forall|k: u128| #[trigger] final(self).spec_lookup(k) == if k == res@.id {
                Some(res@)
            } else {
                old(self).spec_lookup(k)
            },
    {
        let id = self.allocate_instance_id();
        let mut instance = ApplicationInstance::new_with_runtime(id, application, version, session, runtime);
        let _ = instance.transition(InstanceState::Starting);
        let _ = instance.transition(InstanceState::Running);
        let copy = instance.duplicate();
        self.insert(instance);
        copy
    }

    /// Applies `f` to the instance registered under `id` (see `stop` and
    /// `fail`).
    fn stop_at(&mut self, i: usize) -> (res: Result<(), RuntimeError>)
        requires
            i < old(self).instances@.len(),
        ensures
            final(self).spec_next_id() == old(self).spec_next_id(),
            ({
                let v = old(self).instances@[i as int]@;
                if v.state == InstanceState::Running {
                    res is Ok && forall|k: u128| #[trigger] final(self).spec_lookup(k) == if k == v.id {
                        Some(with_state(v, InstanceState::Stopped))
                    } else {
                        old(self).spec_lookup(k)
                    }
                } else {
                    (res matches Err(RuntimeError::InvalidTransition { from, to }) && from == v.state
                        && to == InstanceState::Stopping) && forall|k: u128| #[trigger] final(self).spec_lookup(k)
                        == old(self).spec_lookup(k)
                }
            }),
    {
        proof {
            use_type_invariant(&*self);
        }
        let ghost before = self.spec_instances();
        let ghost v = self.instances@[i as int]@;
        let mut instance = self.instances[i].duplicate();
        match instance.transition(InstanceState::Stopping) {
            Ok(()) => {},
            Err(e) => {
                return Err(e);
            },
        }
        let _ = instance.transition(InstanceState::Stopped);
        let ghost x = instance@;
        let mut items: Vec<ApplicationInstance> = Vec::new();
        std::mem::swap(&mut items, &mut self.instances);
        items.set(i, instance);
        proof {
            assert(before[i as int] == v);
            assert(views_of(items@) =~= before.update(i as int, x));
            lemma_lookup_update(before, i as int, x, 0);
        }
        self.instances = items;
        proof {
            assert(before[i as int] == v);
            assert(self.spec_instances() =~= before.update(i as int, x));
            assert forall|k: u128| #[trigger] self.spec_lookup(k) == if k == v.id {
                Some(x)
            } else {
                lookup_instance(before, k)
            } by {
                lemma_lookup_update(before, i as int, x, k);
            }
            lemma_lookup_update(before, i as int, x, 0);
        }
        Ok(())
    }

    /// Stops a running instance: `Running → Stopping → Stopped`.
    pub fn stop(&mut self, id: ApplicationInstanceId) -> (res: Result<(), RuntimeError>)
        ensures
            final(self).spec_next_id() == old(self).spec_next_id(),
            match old(self).spec_lookup(id.spec_get()) {
                None => res matches Err(RuntimeError::InstanceNotFound) && forall|k: u128|
                    #[trigger] final(self).spec_lookup(k) == old(self).spec_lookup(k),
                Some(v) => if v.state == InstanceState::Running {
                    res is Ok && forall|k: u128| #[trigger] final(self).spec_lookup(k) == if k == v.id {
                        Some(with_state(v, InstanceState::Stopped))
                    } else {
                        old(self).spec_lookup(k)
                    }
                } else {
                    (res matches Err(RuntimeError::InvalidTransition { from, to }) && from == v.state
                        && to == InstanceState::Stopping) && forall|k: u128| #[trigger] final(self).spec_lookup(k)
                        == old(self).spec_lookup(k)
                },
            },
    {
        proof {
            use_type_invariant(&*self);
        }
        match self.find_index(id.value) {
            None => Err(RuntimeError::InstanceNotFound),
            Some(i) => {
                proof {
                    assert(self.spec_instances()[i as int] == self.instances@[i as int]@);
                    lemma_lookup_at(self.spec_instances(), i as int);
                }
                self.stop_at(i)
            },
        }
    }

    fn fail_at(&mut self, i: usize) -> (res: Result<(), RuntimeError>)
        requires
            i < old(self).instances@.len(),
        ensures
            final(self).spec_next_id() == old(self).spec_next_id(),
            ({
                let v = old(self).instances@[i as int]@;
                if transition_allowed(v.state, InstanceState::Failed) {
                    res is Ok && forall|k: u128| #[trigger] final(self).spec_lookup(k) == if k == v.id {
                        Some(
                            InstanceView {
                                state: InstanceState::Failed,
                                failure: Some(
                                    (failure_stage_of(v.state), "runtime reported application failure"@),
                                ),
                                ..v
                            },
                        )
                    } else {
                        old(self).spec_lookup(k)
                    }
                } else {
                    (res matches Err(RuntimeError::InvalidTransition { from, to }) && from == v.state
                        && to == InstanceState::Failed) && forall|k: u128| #[trigger] final(self).spec_lookup(k)
                        == old(self).spec_lookup(k)
                }
            }),
    {
        proof {
            use_type_invariant(&*self);
        }
        let ghost before = self.spec_instances();
        let ghost v = self.instances@[i as int]@;
        let mut instance = self.instances[i].duplicate();
        let stage = match instance.state() {
            InstanceState::Starting => FailureStage::Starting,
            InstanceState::Stopping => FailureStage::Stopping,
            _ => FailureStage::Supervision,
        };
        match instance.record_failure(stage, String::from_str("runtime reported application failure")) {
            Ok(()) => {},
            Err(e) => return Err(e),
        }
        let ghost x = instance@;
        let mut items: Vec<ApplicationInstance> = Vec::new();
        std::mem::swap(&mut items, &mut self.instances);
        items.set(i, instance);
        proof {
            assert(before[i as int] == v);
            assert(views_of(items@) =~= before.update(i as int, x));
            lemma_lookup_update(before, i as int, x, 0);
        }
        self.instances = items;
        proof {
            assert(before[i as int] == v);
            assert(self.spec_instances() =~= before.update(i as int, x));
            assert forall|k: u128| #[trigger] self.spec_lookup(k) == if k == v.id {
                Some(x)
            } else {
                lookup_instance(before, k)
            } by {
                lemma_lookup_update(before, i as int, x, k);
            }
            lemma_lookup_update(before, i as int, x, 0);
        }
        Ok(())
    }

    /// Marks an instance failed, attributing the failure to the stage it was
    /// in (starting, stopping, or supervision otherwise).
    pub fn fail(&mut self, id: ApplicationInstanceId) -> (res: Result<(), RuntimeError>)
        ensures
            final(self).spec_next_id() == old(self).spec_next_id(),
            match old(self).spec_lookup(id.spec_get()) {
                None => res matches Err(RuntimeError::InstanceNotFound) && forall|k: u128|
                    #[trigger] final(self).spec_lookup(k) == old(self).spec_lookup(k),
                Some(v) => if transition_allowed(v.state, InstanceState::Failed) {
                    res is Ok && forall|k: u128| #[trigger] final(self).spec_lookup(k) == if k == v.id {
                        Some(
                            InstanceView {
                                state: InstanceState::Failed,
                                failure: Some(
                                    (failure_stage_of(v.state), "runtime reported application failure"@),
                                ),
                                ..v
                            },
                        )
                    } else {
                        old(self).spec_lookup(k)
                    }
                } else {
                    (res matches Err(RuntimeError::InvalidTransition { from, to }) && from == v.state
                        && to == InstanceState::Failed) && forall|k: u128| #[trigger] final(self).spec_lookup(k)
                        == old(self).spec_lookup(k)
                },
            },
    {
        proof {
            use_type_invariant(&*self);
        }
        match self.find_index(id.value) {
            None => Err(RuntimeError::InstanceNotFound),
            Some(i) => {
                proof {
                    assert(self.spec_instances()[i as int] == self.instances@[i as int]@);
                    lemma_lookup_at(self.spec_instances(), i as int);
                }
                self.fail_at(i)
            },
        }
    }

    /// Records that the process of instance `id` ended: on its own
    /// (`requested` false: success stops the instance, anything else crashes
    /// it) or because a stop was asked (the instance stops). Gives the state
    /// the instance is left in.
    pub fn record_exit(&mut self, id: ApplicationInstanceId, report: ExitReport, requested: bool) -> (res: Result<InstanceState, RuntimeError>)
        ensures
            final(self).spec_next_id() == old(self).spec_next_id(),
            match old(self).spec_lookup(id.spec_get()) {
                None => res matches Err(RuntimeError::InstanceNotFound) && forall|k: u128|
                    #[trigger] final(self).spec_lookup(k) == old(self).spec_lookup(k),
                Some(v) => match exit_step(v, report, requested) {
                    Ok(w) => res == Ok::<InstanceState, RuntimeError>(w.state) && forall|k: u128|
                        #[trigger] final(self).spec_lookup(k) == if k == id.spec_get() {
                            Some(w)
                        } else {
                            old(self).spec_lookup(k)
                        },
                    Err(e) => res == Err::<InstanceState, RuntimeError>(e) && forall|k: u128|
                        #[trigger] final(self).spec_lookup(k) == old(self).spec_lookup(k),
                },
            },
    {
        proof {
            use_type_invariant(&*self);
        }
        let mut inst = match self.instance(id) {
            Ok(a) => a.duplicate(),
            Err(e) => return Err(e),
        };
        proof {
            lemma_lookup_id(self.spec_instances(), id.spec_get());
        }
        let r = if requested {
            inst.record_requested_stop(report)
        } else {
            inst.record_process_exit(report)
        };
        match r {
            Ok(()) => {},
            Err(e) => return Err(e),
        }
        let state = inst.state();
        self.insert(inst);
        Ok(state)
    }

    /// Marks a running instance as stopping; any other instance is left as
    /// it is.
    pub fn begin_stop(&mut self, id: ApplicationInstanceId) -> (res: Result<(), RuntimeError>)
        ensures
            final(self).spec_next_id() == old(self).spec_next_id(),
            match old(self).spec_lookup(id.spec_get()) {
                None => res matches Err(RuntimeError::InstanceNotFound) && forall|k: u128|
                    #[trigger] final(self).spec_lookup(k) == old(self).spec_lookup(k),
                Some(v) => res is Ok && forall|k: u128|
                    #[trigger] final(self).spec_lookup(k) == if k == id.spec_get() && v.state == InstanceState::Running {
                        Some(with_state(v, InstanceState::Stopping))
                    } else {
                        old(self).spec_lookup(k)
                    },
            },
    {
        proof {
            use_type_invariant(&*self);
        }
        let mut inst = match self.instance(id) {
            Ok(a) => a.duplicate(),
            Err(e) => return Err(e),
        };
        proof {
            lemma_lookup_id(self.spec_instances(), id.spec_get());
        }
        if inst.state() == InstanceState::Running {
            let _ = inst.transition(InstanceState::Stopping);
            self.insert(inst);
        }
        Ok(())
    }

    /// Records that stopping instance `id` failed, with the supervisor's
    /// message: the instance fails at the `Stopping` stage.
    pub fn record_stop_failure(&mut self, id: ApplicationInstanceId, message: String) -> (res: Result<(), RuntimeError>)
        ensures
            final(self).spec_next_id() == old(self).spec_next_id(),
            match old(self).spec_lookup(id.spec_get()) {
                None => res matches Err(RuntimeError::InstanceNotFound) && forall|k: u128|
                    #[trigger] final(self).spec_lookup(k) == old(self).spec_lookup(k),
                Some(v) => if transition_allowed(v.state, InstanceState::Failed) {
                    res is Ok && forall|k: u128|
                        #[trigger] final(self).spec_lookup(k) == if k == id.spec_get() {
                            Some(InstanceView { state: InstanceState::Failed, failure: Some((FailureStage::Stopping, message@)), ..v })
                        } else {
                            old(self).spec_lookup(k)
                        }
                } else {
                    res == Err::<(), RuntimeError>(RuntimeError::InvalidTransition { from: v.state, to: InstanceState::Failed })
                        && forall|k: u128| #[trigger] final(self).spec_lookup(k) == old(self).spec_lookup(k)
                },
            },
    {
        proof {
            use_type_invariant(&*self);
        }
        let mut inst = match self.instance(id) {
            Ok(a) => a.duplicate(),
            Err(e) => return Err(e),
        };
        proof {
            lemma_lookup_id(self.spec_instances(), id.spec_get());
        }
        match inst.record_failure(FailureStage::Stopping, message) {
            Ok(()) => {},
            Err(e) => return Err(e),
        }
        self.insert(inst);
        Ok(())
    }
}


/// What the system runtime reports of a supervised process.
#[derive(Clone, Copy, Debug, PartialEq, Eq)]
pub enum ProcessState {
    Running,
    Exited(ExitReport),
}

/// The live process of an instance: its process, while that has not
/// exited.
pub open spec fn live_process(v: InstanceView) -> Option<ProcessId> {
    match v.process {
        Some(p) => if p.exit is None {
            Some(p.id)
        } else {
            None
        },
        None => None,
    }
}

/// The application runtime's bookkeeping on Linux: the instance registry,
/// and for each live supervised process (by process id) the instance it
/// runs. Talking to the system runtime (polling, terminating) and removing
/// a process's staged root are done by the caller, which hands in what it
/// observed.
pub struct LinuxApplicationRuntime {
    model: InMemoryApplicationRuntime,
    processes: std::collections::BTreeMap<u32, u128>,
}

impl LinuxApplicationRuntime {
    pub closed spec fn spec_model(&self) -> InMemoryApplicationRuntime {
        self.model
    }

    /// The instance each tracked process runs, by process id.
    pub closed spec fn spec_processes(&self) -> Map<u32, u128> {
        self.processes@
    }

    pub fn new() -> (res: LinuxApplicationRuntime)
        ensures
            res.spec_model().spec_next_id() == 1,
            forall|k: u128| res.spec_model().spec_lookup(k) is None,
            res.spec_processes() == Map::<u32, u128>::empty(),
    {
        LinuxApplicationRuntime { model: InMemoryApplicationRuntime::new(), processes: std::collections::BTreeMap::new() }
    }

    /// The instance registered under `id`.
    pub fn instance(&self, id: ApplicationInstanceId) -> (res: Result<&ApplicationInstance, RuntimeError>)
        ensures
            match self.spec_model().spec_lookup(id.spec_get()) {
                Some(v) => res matches Ok(a) && a@ == v,
                None => res matches Err(RuntimeError::InstanceNotFound),
            },
    {
        self.model.instance(id)
    }

    /// Records a launched instance and the process that runs it.
    pub fn track(&mut self, process: ProcessId, instance: ApplicationInstance)
        ensures
            final(self).spec_model().spec_next_id() == old(self).spec_model().spec_next_id(),
            forall|k: u128| #[trigger] final(self).spec_model().spec_lookup(k) == if k == instance@.id {
                Some(instance@)
            } else {
                old(self).spec_model().spec_lookup(k)
            },
            final(self).spec_processes() == old(self).spec_processes().insert(process.spec_get(), instance@.id),
    {
        let id = instance.id().get();
        self.model.insert(instance);
        self.processes.insert(process.get(), id);
    }

    /// The tracked processes, each once.
    pub fn tracked_processes(&self) -> (res: Vec<ProcessId>)
        ensures
            res@.len() == self.spec_processes().dom().len(),
            forall|i: int| 0 <= i < res@.len() ==> self.spec_processes().dom().contains(#[trigger] res@[i].spec_get()),
            forall|p: u32| self.spec_processes().dom().contains(p) ==> exists|i: int| 0 <= i < res@.len() && #[trigger] res@[i].spec_get() == p,
    {
        let keys = map_keys(&self.processes);
        proof {
            keys@.unique_seq_to_set();
        }
        let mut out: Vec<ProcessId> = Vec::new();
        let mut i: usize = 0;
        while i < keys.len()
            invariant
                i <= keys@.len(),
                out@.len() == i,
                forall|j: int| 0 <= j < i ==> #[trigger] out@[j].spec_get() == keys@[j],
            decreases keys@.len() - i,
        {
            out.push(ProcessId::new(keys[i]));
            i = i + 1;
        }
        proof {
            assert forall|j: int| 0 <= j < out@.len() implies self.spec_processes().dom().contains(#[trigger] out@[j].spec_get()) by {
                assert(keys@.to_set().contains(keys@[j]));
            }
            assert forall|p: u32| self.spec_processes().dom().contains(p) implies exists|j: int|
                0 <= j < out@.len() && #[trigger] out@[j].spec_get() == p by {
                assert(keys@.to_set().contains(p));
                let j = choose|j: int| 0 <= j < keys@.len() && keys@[j] == p;
                assert(out@[j].spec_get() == p);
            }
        }
        out
    }

    /// The live process of instance `id`, to be polled or terminated.
    pub fn poll_target(&self, id: ApplicationInstanceId) -> (res: Result<ProcessId, RuntimeError>)
        ensures
            match self.spec_model().spec_lookup(id.spec_get()) {
                None => res matches Err(RuntimeError::InstanceNotFound),
                Some(v) => match live_process(v) {
                    Some(p) => res == Ok::<ProcessId, RuntimeError>(p),
                    None => res matches Err(RuntimeError::NoProcess),
                },
            },
    {
        let instance = match self.model.instance(id) {
            Ok(a) => a,
            Err(e) => return Err(e),
        };
        match instance.active_process() {
            Some(p) => Ok(p),
            None => Err(RuntimeError::NoProcess),
        }
    }

    /// Applies what polling `process`, the live process of instance `id`,
    /// reported: a running process changes nothing; an exited one is no
    /// longer tracked and its exit is recorded on the instance.
    pub fn poll(&mut self, id: ApplicationInstanceId, process: ProcessId, state: ProcessState) -> (res: Result<InstanceState, RuntimeError>)
        ensures
            final(self).spec_model().spec_next_id() == old(self).spec_model().spec_next_id(),
            match state {
                ProcessState::Running => res == Ok::<InstanceState, RuntimeError>(InstanceState::Running)
                    && final(self).spec_processes() == old(self).spec_processes()
                    && forall|k: u128| #[trigger] final(self).spec_model().spec_lookup(k) == old(self).spec_model().spec_lookup(k),
                ProcessState::Exited(report) => final(self).spec_processes() == old(self).spec_processes().remove(process.spec_get())
                    && exit_recorded(old(self).spec_model(), final(self).spec_model(), id.spec_get(), report, false, res),
            },
    {
        match state {
            ProcessState::Running => Ok(InstanceState::Running),
            ProcessState::Exited(report) => {
                let key = process.get();
                let _ = self.processes.remove(&key);
                self.model.record_exit(id, report, false)
            },
        }
    }

    /// Starts terminating instance `id`: gives its live process and marks
    /// a running instance as stopping.
    pub fn begin_terminate(&mut self, id: ApplicationInstanceId) -> (res: Result<ProcessId, RuntimeError>)
        ensures
            final(self).spec_model().spec_next_id() == old(self).spec_model().spec_next_id(),
            final(self).spec_processes() == old(self).spec_processes(),
            match old(self).spec_model().spec_lookup(id.spec_get()) {
                None => res matches Err(RuntimeError::InstanceNotFound) && forall|k: u128|
                    #[trigger] final(self).spec_model().spec_lookup(k) == old(self).spec_model().spec_lookup(k),
                Some(v) => match live_process(v) {
                    None => res matches Err(RuntimeError::NoProcess) && forall|k: u128|
                        #[trigger] final(self).spec_model().spec_lookup(k) == old(self).spec_model().spec_lookup(k),
                    Some(p) => res == Ok::<ProcessId, RuntimeError>(p) && forall|k: u128|
                        #[trigger] final(self).spec_model().spec_lookup(k) == if k == id.spec_get() && v.state == InstanceState::Running {
                            Some(with_state(v, InstanceState::Stopping))
                        } else {
                            old(self).spec_model().spec_lookup(k)
                        },
                },
            },
    {
        let process = match self.poll_target(id) {
            Ok(p) => p,
            Err(e) => return Err(e),
        };
        match self.model.begin_stop(id) {
            Ok(()) => {},
            Err(e) => return Err(e),
        }
        Ok(process)
    }

    /// Finishes terminating instance `id` with what the supervisor
    /// reported: the exit status (the process is no longer tracked and the
    /// instance stops), or the supervisor's error message (the instance
    /// fails at the `Stopping` stage and the error is returned).
    pub fn terminate(&mut self, id: ApplicationInstanceId, process: ProcessId, outcome: Result<ExitReport, String>) -> (res: Result<(), RuntimeError>)
        ensures
            final(self).spec_model().spec_next_id() == old(self).spec_model().spec_next_id(),
            match outcome {
                Ok(report) => final(self).spec_processes() == old(self).spec_processes().remove(process.spec_get())
                    && exists|r: Result<InstanceState, RuntimeError>| exit_recorded(
                        old(self).spec_model(),
                        final(self).spec_model(),
                        id.spec_get(),
                        report,
                        true,
                        r,
                    ) && (r is Ok <==> res is Ok) && (r matches Err(e) ==> res == Err::<(), RuntimeError>(e)),
                Err(message) => final(self).spec_processes() == old(self).spec_processes() && match old(self).spec_model().spec_lookup(id.spec_get()) {
                    None => res matches Err(RuntimeError::InstanceNotFound) && forall|k: u128|
                        #[trigger] final(self).spec_model().spec_lookup(k) == old(self).spec_model().spec_lookup(k),
                    Some(v) => if transition_allowed(v.state, InstanceState::Failed) {
                        (res matches Err(RuntimeError::Supervisor(m)) && m@ == message@) && forall|k: u128|
                            #[trigger] final(self).spec_model().spec_lookup(k) == if k == id.spec_get() {
                                Some(InstanceView { state: InstanceState::Failed, failure: Some((FailureStage::Stopping, message@)), ..v })
                            } else {
                                old(self).spec_model().spec_lookup(k)
                            }
                    } else {
                        res == Err::<(), RuntimeError>(RuntimeError::InvalidTransition { from: v.state, to: InstanceState::Failed })
                            && forall|k: u128| #[trigger] final(self).spec_model().spec_lookup(k) == old(self).spec_model().spec_lookup(k)
                    },
                },
            },
    {
        match outcome {
            Err(message) => {
                let copy = message.clone();
                match self.model.record_stop_failure(id, message) {
                    Ok(()) => {},
                    Err(e) => return Err(e),
                }
                Err(RuntimeError::Supervisor(copy))
            },
            Ok(report) => {
                let ghost before = self.model;
                let key = process.get();
                let _ = self.processes.remove(&key);
                let r = self.model.record_exit(id, report, true);
                assert(exit_recorded(before, self.model, id.spec_get(), report, true, r));
                match r {
                    Ok(_) => Ok(()),
                    Err(e) => Err(e),
                }
            },
        }
    }

    /// One step of reconciling: what polling the tracked process `process`
    /// reported. An exited process is no longer tracked, and the exit is
    /// recorded on the instance it ran, which is reported with its new
    /// state; anything else changes nothing.
    pub fn reconcile(&mut self, process: ProcessId, state: ProcessState) -> (res: Result<Option<(ApplicationInstanceId, InstanceState)>, RuntimeError>)
        ensures
            final(self).spec_model().spec_next_id() == old(self).spec_model().spec_next_id(),
            match state {
                ProcessState::Exited(report) if old(self).spec_processes().contains_key(process.spec_get()) => {
                    let id = old(self).spec_processes()[process.spec_get()];
                    &&& final(self).spec_processes() == old(self).spec_processes().remove(process.spec_get())
                    &&& exists|r: Result<InstanceState, RuntimeError>| exit_recorded(
                        old(self).spec_model(),
                        final(self).spec_model(),
                        id,
                        report,
                        false,
                        r,
                    ) && match r {
                        Ok(s) => res matches Ok(Some(c)) && c.0.spec_get() == id && c.1 == s,
                        Err(e) => res == Err::<Option<(ApplicationInstanceId, InstanceState)>, RuntimeError>(e),
                    }
                },
                _ => res matches Ok(None) && final(self).spec_processes() == old(self).spec_processes() && forall|k: u128|
                    #[trigger] final(self).spec_model().spec_lookup(k) == old(self).spec_model().spec_lookup(k),
            },
    {
        match state {
            ProcessState::Running => Ok(None),
            ProcessState::Exited(report) => {
                let ghost before = self.model;
                let key = process.get();
                match self.processes.remove(&key) {
                    None => Ok(None),
                    Some(raw) => {
                        let id = ApplicationInstanceId::new(raw);
                        let r = self.model.record_exit(id, report, false);
                        assert(exit_recorded(before, self.model, raw as u128, report, false, r));
                        match r {
                            Ok(s) => Ok(Some((id, s))),
                            Err(e) => Err(e),
                        }
                    },
                }
            },
        }
    }
}

/// `after` is `before` with the end of instance `id`'s process recorded as
/// `record_exit` does, giving `res`.
pub open spec fn exit_recorded(
    before: InMemoryApplicationRuntime,
    after: InMemoryApplicationRuntime,
    id: u128,
    report: ExitReport,
    requested: bool,
    res: Result<InstanceState, RuntimeError>,
) -> bool {
    &&& after.spec_next_id() == before.spec_next_id()
    &&& match before.spec_lookup(id) {
        None => res matches Err(RuntimeError::InstanceNotFound) && forall|k: u128| #[trigger] after.spec_lookup(k) == before.spec_lookup(k),
        Some(v) => match exit_step(v, report, requested) {
            Ok(w) => res == Ok::<InstanceState, RuntimeError>(w.state) && forall|k: u128|
                #[trigger] after.spec_lookup(k) == if k == id {
                    Some(w)
                } else {
                    before.spec_lookup(k)
                },
            Err(e) => res == Err::<InstanceState, RuntimeError>(e) && forall|k: u128| #[trigger] after.spec_lookup(k) == before.spec_lookup(k),
        },
    }
}

} // verus!
