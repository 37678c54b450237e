//! Interactive execution of standard flake operations, as decisions between outside actions.
//!
//! An operation is a sequence of stages. The caller performs the action that a stage asks for
//! (open the interface, ask the engine, run the app) and hands back what happened.

use std::path::PathBuf;

use vstd::prelude::*;

use crate::command;
use crate::command::AppExecutionPolicy;
use crate::flake::CheckSelector;
use crate::model::{
    BuildRequest, CheckRequest, Clock, DiscoverRequest, DiscoveredTargets, EngineConfig,
    EngineError, EngineRequest, EngineResponse, FlakeModel, FlakeRef, Manifest, PreparedRun,
    RequestModel, RunRequest,
};
use crate::outcome;
use crate::outcome::{Error, ErrorKind, ErrorModel};
use crate::process;
use crate::process::{
    Cancellation, InputPolicy, ProcessResult, ProcessRunner, ProcessSpec, StreamPolicy,
};
use crate::text;
use crate::ui::session::OutputMode;

verus! {

/// How a realized app is executed.
#[derive(Clone, Copy, Debug, PartialEq, Eq, Structural)]
pub enum AppExecutionMode {
    /// As a child with bounded output capture.
    Supervised,
    /// In place of the program itself.
    Exec,
}

/// Runtime-wide engine, app execution, and output limits.
#[derive(Clone, Debug, PartialEq, Eq)]
pub struct RuntimeConfig {
    /// Complete engine configuration, including resource limits and trusted substituters.
    pub engine: EngineConfig,
    /// Working directory and environment inherited by realized applications.
    pub execution: AppExecutionPolicy,
    /// Maximum bytes captured from each realized application output stream.
    pub app_output_limit: usize,
    /// How realized applications are executed.
    pub app_execution_mode: AppExecutionMode,
}

impl RuntimeConfig {
    /// Creates runtime configuration with explicit engine and application execution policy.
    pub fn new(engine: EngineConfig, execution: AppExecutionPolicy) -> (result: Self)
        ensures
            result.engine == engine,
            result.execution == execution,
            result.app_output_limit == 8 * 1024 * 1024,
            result.app_execution_mode == AppExecutionMode::Supervised,
    {
        RuntimeConfig {
            engine,
            execution,
            app_output_limit: 8_388_608,
            app_execution_mode: AppExecutionMode::Supervised,
        }
    }
}

/// Process, cancellation, and clock adapters shared by one runtime.
#[derive(Clone, Copy)]
pub struct RuntimeDependencies<'services> {
    /// Executes Nix and realized applications.
    pub runner: &'services dyn ProcessRunner,
    /// Carries caller- or signal-requested cancellation through all phases.
    pub cancellation: &'services Cancellation,
    /// Supplies manifest timestamps.
    pub clock: &'services dyn Clock,
}

/// One standard flake operation with caller-owned naming and target selection.
#[derive(Clone, Debug, PartialEq, Eq)]
pub enum RuntimeCommand {
    /// Builds all outputs when `targets` is empty, or the selected package outputs.
    Build {
        /// Title rendered by the interactive interface.
        title: String,
        /// Flake to realize.
        flake: FlakeRef,
        /// Package output names.
        targets: Vec<String>,
        /// Optional result symlink path.
        out_link: Option<PathBuf>,
        /// Requested display interface.
        output: OutputMode,
    },
    /// Checks all outputs when `targets` is empty, or the caller-selected checks.
    Check {
        /// Title rendered by the interactive interface.
        title: String,
        /// Flake to realize.
        flake: FlakeRef,
        /// Check output names selected by caller policy.
        targets: Vec<String>,
        /// Requested display interface.
        output: OutputMode,
    },
    /// Realizes and executes one app.
    Run {
        /// Title rendered by the interactive interface.
        title: String,
        /// Flake containing the app.
        flake: FlakeRef,
        /// App output name.
        app: String,
        /// Arguments passed to the app, as raw bytes.
        arguments: Vec<Vec<u8>>,
        /// Requested display interface.
        output: OutputMode,
    },
}

/// Selected-check operation with caller-owned selection policy.
pub struct SelectedCheckCommand<'selector> {
    /// Title rendered by the interactive interface.
    pub title: String,
    /// Flake containing the checks.
    pub flake: FlakeRef,
    /// Caller-defined scope passed to the selector.
    pub scope: String,
    /// Policy that maps the scope and discovered names to exact check names.
    pub selector: &'selector dyn CheckSelector,
    /// Requested display interface.
    pub output: OutputMode,
}

impl RuntimeCommand {
    /// The title and the interface of a command.
    pub open spec fn shown(&self) -> (Seq<char>, OutputMode) {
        match *self {
            RuntimeCommand::Build { title, output, .. } => (title@, output),
            RuntimeCommand::Check { title, output, .. } => (title@, output),
            RuntimeCommand::Run { title, output, .. } => (title@, output),
        }
    }

    /// The work that a command means.
    pub open spec fn task(&self, judged: bool) -> TaskModel {
        match *self {
            RuntimeCommand::Build { flake, targets, out_link, .. } => TaskModel::Realize {
                request: RequestModel::Build {
                    flake: flake@,
                    targets: targets.deep_view(),
                    out_link,
                },
                operation: "build"@,
                judged,
            },
            RuntimeCommand::Check { flake, targets, .. } => TaskModel::Realize {
                request: RequestModel::Check { flake: flake@, targets: targets.deep_view() },
                operation: "check"@,
                judged,
            },
            RuntimeCommand::Run { flake, app, arguments, .. } => TaskModel::Prepare {
                request: RequestModel::Run {
                    flake: flake@,
                    app: app@,
                    arguments: arguments.deep_view(),
                },
            },
        }
    }

    fn into_parts(self, judged: bool) -> (result: (String, OutputMode, Task))
        ensures
            self.shown() == (result.0@, result.1),
            result.2@ == self.task(judged),
    {
        match self {
            RuntimeCommand::Build { title, flake, targets, out_link, output } => (
                title,
                output,
                Task::Realize {
                    request: EngineRequest::Build(BuildRequest { flake, targets, out_link }),
                    operation: "build",
                    judged,
                },
            ),
            RuntimeCommand::Check { title, flake, targets, output } => (
                title,
                output,
                Task::Realize {
                    request: EngineRequest::Check(CheckRequest { flake, targets }),
                    operation: "check",
                    judged,
                },
            ),
            RuntimeCommand::Run { title, flake, app, arguments, output } => (
                title,
                output,
                Task::Prepare {
                    request: EngineRequest::Run(RunRequest { flake, app, arguments }),
                },
            ),
        }
    }
}

/// What an operation asks of the engine.
pub enum Task {
    /// A realization, whose manifest is judged or handed on as it is.
    Realize {
        /// What is realized.
        request: EngineRequest,
        /// The operation's name.
        operation: &'static str,
        /// Whether a manifest that is no success becomes an error.
        judged: bool,
    },
    /// An app to prepare.
    Prepare {
        /// Which app.
        request: EngineRequest,
    },
    /// Checks that the caller selects once they are discovered.
    Select {
        /// The flake that holds them.
        flake: FlakeRef,
        /// The scope passed to the caller's policy.
        scope: String,
    },
}

/// What a task asks for.
#[verifier::ext_equal]
pub enum TaskModel {
    /// A realization.
    Realize {
        /// What is realized.
        request: RequestModel,
        /// The operation's name.
        operation: Seq<char>,
        /// Whether a manifest that is no success becomes an error.
        judged: bool,
    },
    /// An app to prepare.
    Prepare {
        /// Which app.
        request: RequestModel,
    },
    /// Checks that the caller selects.
    Select {
        /// The flake that holds them.
        flake: FlakeModel,
        /// The scope passed to the caller's policy.
        scope: Seq<char>,
    },
}

impl View for Task {
    type V = TaskModel;

    open spec fn view(&self) -> TaskModel {
        match *self {
            Task::Realize { request, operation, judged } => TaskModel::Realize {
                request: request@,
                operation: operation@,
                judged,
            },
            Task::Prepare { request } => TaskModel::Prepare { request: request@ },
            Task::Select { flake, scope } => TaskModel::Select { flake: flake@, scope: scope@ },
        }
    }
}

/// How an operation ends once its interface is closed.
pub enum Ending {
    /// It failed.
    Fails(Error),
    /// Something was realized.
    Realizes {
        /// The realization record.
        manifest: Manifest,
        /// The operation's name.
        operation: &'static str,
        /// Whether a manifest that is no success becomes an error.
        judged: bool,
    },
    /// An app was prepared.
    Prepares(PreparedRun),
}

/// What an ending says.
#[verifier::ext_equal]
pub enum EndingModel {
    /// It failed.
    Fails(ErrorModel),
    /// Something was realized.
    Realizes {
        /// The realization record.
        manifest: Manifest,
        /// The operation's name.
        operation: Seq<char>,
        /// Whether a manifest that is no success becomes an error.
        judged: bool,
    },
    /// An app was prepared.
    Prepares(PreparedRun),
}

impl View for Ending {
    type V = EndingModel;

    open spec fn view(&self) -> EndingModel {
        match *self {
            Ending::Fails(error) => EndingModel::Fails(error@),
            Ending::Realizes { manifest, operation, judged } => EndingModel::Realizes {
                manifest,
                operation: operation@,
                judged,
            },
            Ending::Prepares(prepared) => EndingModel::Prepares(prepared),
        }
    }
}

/// Where an operation stands.
pub enum Stage {
    /// The engine is being set up without an interface.
    Configuring {
        /// The flake whose outputs are listed.
        flake: FlakeRef,
    },
    /// The engine lists the outputs for the caller.
    Listing,
    /// The interface is being opened and the engine set up.
    Opening(Task),
    /// The engine lists the outputs from which checks are selected.
    Discovering {
        /// The flake that holds them.
        flake: FlakeRef,
        /// The scope passed to the caller's policy.
        scope: String,
    },
    /// The caller selects checks.
    Selecting {
        /// The flake that holds them.
        flake: FlakeRef,
        /// The discovered checks.
        checks: Vec<String>,
    },
    /// The engine realizes something.
    Realizing {
        /// The operation's name.
        operation: &'static str,
        /// Whether a manifest that is no success becomes an error.
        judged: bool,
    },
    /// The engine prepares an app.
    Preparing,
    /// The interface is being closed.
    Closing(Ending),
    /// The app runs.
    Running {
        /// The record of its realization.
        manifest: Manifest,
        /// The executable.
        program: Vec<u8>,
    },
    /// The operation is over.
    Ended,
}

/// What a stage says.
#[verifier::ext_equal]
pub enum StageModel {
    /// The engine is being set up without an interface.
    Configuring {
        /// The flake whose outputs are listed.
        flake: FlakeModel,
    },
    /// The engine lists the outputs for the caller.
    Listing,
    /// The interface is being opened and the engine set up.
    Opening(TaskModel),
    /// The engine lists the outputs from which checks are selected.
    Discovering {
        /// The flake that holds them.
        flake: FlakeModel,
        /// The scope passed to the caller's policy.
        scope: Seq<char>,
    },
    /// The caller selects checks.
    Selecting {
        /// The flake that holds them.
        flake: FlakeModel,
        /// The discovered checks.
        checks: Seq<Seq<char>>,
    },
    /// The engine realizes something.
    Realizing {
        /// The operation's name.
        operation: Seq<char>,
        /// Whether a manifest that is no success becomes an error.
        judged: bool,
    },
    /// The engine prepares an app.
    Preparing,
    /// The interface is being closed.
    Closing(EndingModel),
    /// The app runs.
    Running {
        /// The record of its realization.
        manifest: Manifest,
        /// The executable.
        program: Seq<u8>,
    },
    /// The operation is over.
    Ended,
}

impl View for Stage {
    type V = StageModel;

    open spec fn view(&self) -> StageModel {
        match *self {
            Stage::Configuring { flake } => StageModel::Configuring { flake: flake@ },
            Stage::Listing => StageModel::Listing,
            Stage::Opening(task) => StageModel::Opening(task@),
            Stage::Discovering { flake, scope } => StageModel::Discovering {
                flake: flake@,
                scope: scope@,
            },
            Stage::Selecting { flake, checks } => StageModel::Selecting {
                flake: flake@,
                checks: checks.deep_view(),
            },
            Stage::Realizing { operation, judged } => StageModel::Realizing {
                operation: operation@,
                judged,
            },
            Stage::Preparing => StageModel::Preparing,
            Stage::Closing(ending) => StageModel::Closing(ending@),
            Stage::Running { manifest, program } => StageModel::Running {
                manifest,
                program: program@,
            },
            Stage::Ended => StageModel::Ended,
        }
    }
}

impl StageModel {
    /// How many steps an operation may still take.
    pub open spec fn rank(self) -> int {
        match self {
            StageModel::Configuring { .. } => 2,
            StageModel::Listing => 1,
            StageModel::Opening(_) => 6,
            StageModel::Discovering { .. } => 5,
            StageModel::Selecting { .. } => 4,
            StageModel::Realizing { .. } => 3,
            StageModel::Preparing => 3,
            StageModel::Closing(_) => 2,
            StageModel::Running { .. } => 1,
            StageModel::Ended => 0,
        }
    }
}

/// What happened outside.
pub enum Event {
    /// The engine was set up without an interface, or refused its configuration.
    Configured(Result<(), EngineError>),
    /// The interface is open, and the engine was set up or refused its configuration.
    Opened(Result<(), EngineError>),
    /// The engine answered.
    Answered(Result<EngineResponse, EngineError>),
    /// The caller's policy selected checks or rejected the scope.
    Selected(Result<Vec<String>, Error>),
    /// The interface is closed.
    Closed,
    /// The app ended, or could not be run.
    Exited(Result<ProcessResult, Error>),
}

/// The event is one that the stage waits for.
pub open spec fn fits(stage: StageModel, event: Event) -> bool {
    match stage {
        StageModel::Configuring { .. } => event is Configured,
        StageModel::Listing => event is Answered,
        StageModel::Opening(_) => event is Opened,
        StageModel::Discovering { .. } => event is Answered,
        StageModel::Selecting { .. } => event is Selected,
        StageModel::Realizing { .. } => event is Answered,
        StageModel::Preparing => event is Answered,
        StageModel::Closing(_) => event is Closed,
        StageModel::Running { .. } => event is Exited,
        StageModel::Ended => false,
    }
}

/// What has to be done outside.
pub enum Action {
    /// Set the engine up without an interface.
    Configure,
    /// Open the interface, and set the engine up with its progress.
    Open {
        /// The title it shows.
        title: String,
        /// The interface that was asked for.
        output: OutputMode,
    },
    /// Ask the engine.
    Ask(EngineRequest),
    /// Ask the caller's policy.
    Offer {
        /// The scope.
        scope: String,
        /// The discovered checks.
        checks: Vec<String>,
    },
    /// Close the interface, showing the stage's manifest where it has one.
    Close,
    /// Execute the app.
    Launch {
        /// The app's process.
        spec: ProcessSpec,
        /// How it is executed.
        mode: AppExecutionMode,
    },
    /// Return these outputs.
    Report(Result<DiscoveredTargets, Error>),
    /// Return this.
    Finish(Result<Manifest, Error>),
}

/// An app's process.
#[verifier::ext_equal]
pub struct LaunchModel {
    /// The executable.
    pub program: Seq<u8>,
    /// Its arguments.
    pub args: Seq<Seq<u8>>,
    /// Its working directory.
    pub cwd: Option<PathBuf>,
    /// Its complete environment.
    pub env: Map<Seq<u8>, Seq<u8>>,
    /// What it reads.
    pub stdin: InputPolicy,
    /// What becomes of its standard output.
    pub stdout: StreamPolicy,
    /// What becomes of its standard error.
    pub stderr: StreamPolicy,
}

/// What an action asks for.
#[verifier::ext_equal]
pub enum ActionModel {
    /// Set the engine up without an interface.
    Configure,
    /// Open the interface.
    Open {
        /// The title it shows.
        title: Seq<char>,
        /// The interface that was asked for.
        output: OutputMode,
    },
    /// Ask the engine.
    Ask(RequestModel),
    /// Ask the caller's policy.
    Offer {
        /// The scope.
        scope: Seq<char>,
        /// The discovered checks.
        checks: Seq<Seq<char>>,
    },
    /// Close the interface.
    Close,
    /// Execute the app.
    Launch {
        /// The app's process.
        spec: LaunchModel,
        /// How it is executed.
        mode: AppExecutionMode,
    },
    /// Return these outputs.
    Report(Result<DiscoveredTargets, ErrorModel>),
    /// Return this.
    Finish(Result<Manifest, ErrorModel>),
}

impl View for Action {
    type V = ActionModel;

    open spec fn view(&self) -> ActionModel {
        match *self {
            Action::Configure => ActionModel::Configure,
            Action::Open { title, output } => ActionModel::Open { title: title@, output },
            Action::Ask(request) => ActionModel::Ask(request@),
            Action::Offer { scope, checks } => ActionModel::Offer {
                scope: scope@,
                checks: checks.deep_view(),
            },
            Action::Close => ActionModel::Close,
            Action::Launch { spec, mode } => ActionModel::Launch {
                spec: LaunchModel {
                    program: spec.program@,
                    args: spec.args.deep_view(),
                    cwd: spec.cwd,
                    env: spec.env@,
                    stdin: spec.stdin,
                    stdout: spec.stdout,
                    stderr: spec.stderr,
                },
                mode,
            },
            Action::Report(Ok(targets)) => ActionModel::Report(Ok(targets)),
            Action::Report(Err(error)) => ActionModel::Report(Err(error@)),
            Action::Finish(Ok(manifest)) => ActionModel::Finish(Ok(manifest)),
            Action::Finish(Err(error)) => ActionModel::Finish(Err(error@)),
        }
    }
}

/// The next stage and the action that leads to it, for a failure that the interface closes on.
pub open spec fn failing(error: ErrorModel) -> (StageModel, ActionModel) {
    (StageModel::Closing(EndingModel::Fails(error)), ActionModel::Close)
}

/// The end of an operation.
pub open spec fn finishing(result: Result<Manifest, ErrorModel>) -> (StageModel, ActionModel) {
    (StageModel::Ended, ActionModel::Finish(result))
}

/// The end of a discovery.
pub open spec fn reporting(result: Result<DiscoveredTargets, ErrorModel>) -> (
    StageModel,
    ActionModel,
) {
    (StageModel::Ended, ActionModel::Report(result))
}

/// The checks that are realized for a selection: it must not be empty, since an empty list of
/// checks would stand for all of them.
pub open spec fn chosen(selected: Seq<Seq<char>>, checks: Seq<Seq<char>>) -> Result<
    Seq<Seq<char>>,
    ErrorModel,
> {
    if selected.len() == 0 {
        Err(outcome::usage("selector chose no checks"@))
    } else {
        command::accepted(selected, checks)
    }
}

/// An app may take the program's place unless the work was cancelled.
pub open spec fn replacement(mode: AppExecutionMode, signal: Option<i32>) -> Result<(), ErrorModel> {
    match (mode, signal) {
        (AppExecutionMode::Exec, Some(signal)) => Err(
            outcome::cancelled(signal as int, "app execution cancelled"@),
        ),
        _ => Ok(()),
    }
}

/// What a runtime does with an app: where it runs, what it sees and how much of it is kept.
#[verifier::ext_equal]
pub struct PolicyModel {
    /// The app's working directory.
    pub cwd: Option<PathBuf>,
    /// The app's complete environment.
    pub env: Map<Seq<u8>, Seq<u8>>,
    /// The bytes kept of each stream.
    pub limit: usize,
    /// How the app is executed.
    pub mode: AppExecutionMode,
}

impl PolicyModel {
    /// The action that executes a prepared app.
    pub open spec fn launch(self, prepared: PreparedRun) -> ActionModel {
        ActionModel::Launch {
            spec: LaunchModel {
                program: vstd::utf8::encode_utf8(prepared.program@),
                args: prepared.arguments.deep_view(),
                cwd: self.cwd,
                env: self.env,
                stdin: InputPolicy::Inherit,
                stdout: StreamPolicy::RelayAndCapture { limit: self.limit },
                stderr: StreamPolicy::RelayAndCapture { limit: self.limit },
            },
            mode: self.mode,
        }
    }

    /// What follows an event.
    pub open spec fn step(self, stage: StageModel, event: Event, signal: Option<i32>) -> (
        StageModel,
        ActionModel,
    ) {
        match (stage, event) {
            (StageModel::Configuring { flake }, Event::Configured(ready)) => match ready {
                Err(error) => reporting(Err(command::engine_failure(error, signal))),
                Ok(_) => (StageModel::Listing, ActionModel::Ask(RequestModel::Discover { flake })),
            },
            (StageModel::Listing, Event::Answered(reply)) => reporting(
                command::discovery(reply, signal),
            ),
            (StageModel::Opening(task), Event::Opened(ready)) => match ready {
                Err(error) => finishing(Err(command::engine_failure(error, signal))),
                Ok(_) => match task {
                    TaskModel::Realize { request, operation, judged } => (
                        StageModel::Realizing { operation, judged },
                        ActionModel::Ask(request),
                    ),
                    TaskModel::Prepare { request } => (
                        StageModel::Preparing,
                        ActionModel::Ask(request),
                    ),
                    TaskModel::Select { flake, scope } => (
                        StageModel::Discovering { flake, scope },
                        ActionModel::Ask(RequestModel::Discover { flake }),
                    ),
                },
            },
            (StageModel::Discovering { flake, scope }, Event::Answered(reply)) => {
                match command::discovery(reply, signal) {
                    Err(error) => failing(error),
                    Ok(targets) => (
                        StageModel::Selecting { flake, checks: targets.checks.deep_view() },
                        ActionModel::Offer { scope, checks: targets.checks.deep_view() },
                    ),
                }
            },
            (StageModel::Selecting { flake, checks }, Event::Selected(choice)) => match choice {
                Err(error) => failing(error@),
                Ok(selected) => match chosen(selected.deep_view(), checks) {
                    Err(error) => failing(error),
                    Ok(targets) => (
                        StageModel::Realizing { operation: "check"@, judged: true },
                        ActionModel::Ask(RequestModel::Check { flake, targets }),
                    ),
                },
            },
            (StageModel::Realizing { operation, judged }, Event::Answered(reply)) => match reply {
                Ok(EngineResponse::Realization(manifest)) => (
                    StageModel::Closing(EndingModel::Realizes { manifest, operation, judged }),
                    ActionModel::Close,
                ),
                Ok(_) => failing(
                    outcome::plain(
                        ErrorKind::Internal,
                        "engine returned a non-realization response for "@ + operation,
                    ),
                ),
                Err(error) => failing(command::engine_failure(error, signal)),
            },
            (StageModel::Preparing, Event::Answered(reply)) => match reply {
                Ok(EngineResponse::PreparedRun(prepared)) => (
                    StageModel::Closing(EndingModel::Prepares(prepared)),
                    ActionModel::Close,
                ),
                Ok(_) => failing(
                    outcome::plain(
                        ErrorKind::Internal,
                        "engine returned a non-app response for run"@,
                    ),
                ),
                Err(error) => failing(command::engine_failure(error, signal)),
            },
            (StageModel::Closing(ending), Event::Closed) => match ending {
                EndingModel::Fails(error) => finishing(Err(error)),
                EndingModel::Realizes { manifest, operation, judged } => if judged {
                    match command::verdict(manifest, operation, signal) {
                        Ok(_) => finishing(Ok(manifest)),
                        Err(error) => finishing(Err(error)),
                    }
                } else {
                    finishing(Ok(manifest))
                },
                EndingModel::Prepares(prepared) => match command::verdict(
                    prepared.manifest,
                    "run"@,
                    signal,
                ) {
                    Err(error) => finishing(Err(error)),
                    Ok(_) => match replacement(self.mode, signal) {
                        Err(error) => finishing(Err(error)),
                        Ok(_) => (
                            StageModel::Running {
                                manifest: prepared.manifest,
                                program: vstd::utf8::encode_utf8(prepared.program@),
                            },
                            self.launch(prepared),
                        ),
                    },
                },
            },
            (StageModel::Running { manifest, program }, Event::Exited(ended)) => match ended {
                Err(error) => finishing(Err(error@)),
                Ok(child) => if child.termination == process::ChildTermination::Exited(0) {
                    finishing(Ok(manifest))
                } else {
                    finishing(Err(process::failure(program, child.termination)))
                },
            },
            _ => (stage, ActionModel::Close),
        }
    }
}

/// Checks that an app may take the program's place.
pub fn check_replacement(mode: AppExecutionMode, signal: Option<i32>) -> (result: Result<(), Error>)
    ensures
        outcome::agrees(result, replacement(mode, signal)),
{
    match mode {
        AppExecutionMode::Supervised => Ok(()),
        AppExecutionMode::Exec => match signal {
            Some(signal) => Err(Error::cancelled(signal, "app execution cancelled".to_owned())),
            None => Ok(()),
        },
    }
}

/// Orders and checks a caller's selection, which must not be empty.
pub fn choose_checks(selected: &Vec<String>, checks: &Vec<String>) -> (result: Result<
    Vec<String>,
    Error,
>)
    ensures
        crate::flake::lists(result, chosen(selected.deep_view(), checks.deep_view())),
{
    if selected.len() == 0 {
        Err(Error::usage("selector chose no checks".to_owned()))
    } else {
        command::accept_selection(selected, checks)
    }
}

/// Standard-command runtime backed by one engine context.
pub struct Runtime<'services> {
    config: RuntimeConfig,
    dependencies: RuntimeDependencies<'services>,
}

impl<'services> Runtime<'services> {
    /// The configuration.
    pub closed spec fn configuration(&self) -> RuntimeConfig {
        self.config
    }

    /// The adapters.
    pub closed spec fn adapters(&self) -> RuntimeDependencies<'services> {
        self.dependencies
    }

    /// What the runtime does with an app.
    pub open spec fn policy(&self) -> PolicyModel {
        PolicyModel {
            cwd: self.configuration().execution.directory(),
            env: self.configuration().execution.variables(),
            limit: self.configuration().app_output_limit,
            mode: self.configuration().app_execution_mode,
        }
    }

    /// Creates a runtime.
    pub fn new(config: RuntimeConfig, dependencies: RuntimeDependencies<'services>) -> (result:
        Self)
        ensures
            result.configuration() == config,
            result.adapters() == dependencies,
    {
        Runtime { config, dependencies }
    }

    /// Returns the configuration.
    pub fn config(&self) -> (result: &RuntimeConfig)
        ensures
            *result == self.configuration(),
    {
        &self.config
    }

    /// Returns the adapters.
    pub fn dependencies(&self) -> (result: &RuntimeDependencies<'services>)
        ensures
            *result == self.adapters(),
    {
        &self.dependencies
    }

    /// Starts the discovery of standard outputs for caller-owned selection policy. It shows no
    /// interface.
    pub fn discover(&self, flake: FlakeRef) -> (result: (Stage, Action))
        ensures
            result.0@ == (StageModel::Configuring { flake: flake@ }),
            result.1@ == ActionModel::Configure,
    {
        (Stage::Configuring { flake }, Action::Configure)
    }

    /// Starts a command whose manifest has to be a success.
    pub fn execute(&self, command: RuntimeCommand) -> (result: (Stage, Action))
        ensures
            result.0@ == StageModel::Opening(command.task(true)),
            result.1@ == (ActionModel::Open {
                title: command.shown().0,
                output: command.shown().1,
            }),
    {
        let (title, output, task) = command.into_parts(true);
        (Stage::Opening(task), Action::Open { title, output })
    }

    /// Starts a build or a check whose settled manifest is returned as it is. An app is not run
    /// this way, since running one is no settled realization.
    pub fn execute_settled(&self, command: RuntimeCommand) -> (result: Result<
        (Stage, Action),
        Error,
    >)
        ensures
            match result {
                Ok(begun) => {
                    &&& !(command is Run)
                    &&& begun.0@ == StageModel::Opening(command.task(false))
                    &&& begun.1@ == (ActionModel::Open {
                        title: command.shown().0,
                        output: command.shown().1,
                    })
                },
                Err(error) => command is Run && error@ == outcome::usage(
                    "settled execution supports only build and check commands"@,
                ),
            },
    {
        match &command {
            RuntimeCommand::Run { .. } => {
                return Err(
                    Error::usage(
                        "settled execution supports only build and check commands".to_owned(),
                    ),
                );
            },
            _ => {},
        }
        let (title, output, task) = command.into_parts(false);
        Ok((Stage::Opening(task), Action::Open { title, output }))
    }

    /// Starts the discovery, selection and realization of checks within one interface.
    pub fn check_selected(
        &self,
        title: String,
        flake: FlakeRef,
        scope: String,
        output: OutputMode,
    ) -> (result: (Stage, Action))
        ensures
            result.0@ == StageModel::Opening(TaskModel::Select { flake: flake@, scope: scope@ }),
            result.1@ == (ActionModel::Open { title: title@, output }),
    {
        (Stage::Opening(Task::Select { flake, scope }), Action::Open { title, output })
    }

    /// Takes what happened outside, given the signal of a requested cancellation, and says what is
    /// to be done next.
    pub fn step(&self, stage: Stage, event: Event, signal: Option<i32>) -> (result: (Stage, Action))
        requires
            fits(stage@, event),
        ensures
            (result.0@, result.1@) == self.policy().step(stage@, event, signal),
    {
        match stage {
            Stage::Configuring { flake } => match event {
                Event::Configured(ready) => match ready {
                    Err(error) => report(Err(command::engine_error(&error, signal))),
                    Ok(_) => (
                        Stage::Listing,
                        Action::Ask(EngineRequest::Discover(DiscoverRequest { flake })),
                    ),
                },
                _ => (Stage::Ended, Action::Close),
            },
            Stage::Listing => match event {
                Event::Answered(reply) => report(command::settle_discovery(reply, signal)),
                _ => (Stage::Ended, Action::Close),
            },
            Stage::Opening(task) => match event {
                Event::Opened(ready) => self.opened(task, ready, signal),
                _ => (Stage::Ended, Action::Close),
            },
            Stage::Discovering { flake, scope } => match event {
                Event::Answered(reply) => match command::settle_discovery(reply, signal) {
                    Err(error) => fail(error),
                    Ok(targets) => {
                        let offered = text::copy_list(&targets.checks);
                        (
                            Stage::Selecting { flake, checks: targets.checks },
                            Action::Offer { scope, checks: offered },
                        )
                    },
                },
                _ => (Stage::Ended, Action::Close),
            },
            Stage::Selecting { flake, checks } => match event {
                Event::Selected(choice) => match choice {
                    Err(error) => fail(error),
                    Ok(selected) => match choose_checks(&selected, &checks) {
                        Err(error) => fail(error),
                        Ok(targets) => (
                            Stage::Realizing { operation: "check", judged: true },
                            Action::Ask(EngineRequest::Check(CheckRequest { flake, targets })),
                        ),
                    },
                },
                _ => (Stage::Ended, Action::Close),
            },
            Stage::Realizing { operation, judged } => match event {
                Event::Answered(reply) => match reply {
                    Ok(EngineResponse::Realization(manifest)) => (
                        Stage::Closing(Ending::Realizes { manifest, operation, judged }),
                        Action::Close,
                    ),
                    Ok(_) => fail(
                        Error::new(
                            ErrorKind::Internal,
                            text::cat2(
                                "engine returned a non-realization response for ",
                                operation,
                            ),
                        ),
                    ),
                    Err(error) => fail(command::engine_error(&error, signal)),
                },
                _ => (Stage::Ended, Action::Close),
            },
            Stage::Preparing => match event {
                Event::Answered(reply) => match reply {
                    Ok(EngineResponse::PreparedRun(prepared)) => (
                        Stage::Closing(Ending::Prepares(prepared)),
                        Action::Close,
                    ),
                    Ok(_) => fail(
                        Error::new(
                            ErrorKind::Internal,
                            "engine returned a non-app response for run".to_owned(),
                        ),
                    ),
                    Err(error) => fail(command::engine_error(&error, signal)),
                },
                _ => (Stage::Ended, Action::Close),
            },
            Stage::Closing(ending) => self.closed(ending, signal),
            Stage::Running { manifest, program } => match event {
                Event::Exited(ended) => match ended {
                    Err(error) => finish(Err(error)),
                    Ok(child) => {
                        if child.termination.success() {
                            finish(Ok(manifest))
                        } else {
                            finish(Err(process::child_failure(&program, child.termination)))
                        }
                    },
                },
                _ => (Stage::Ended, Action::Close),
            },
            Stage::Ended => (Stage::Ended, Action::Close),
        }
    }

    /// Takes what happened outside, with the signal that the runtime's cancellation holds, and says
    /// what is to be done next.
    pub fn proceed(&self, stage: Stage, event: Event) -> (result: (Stage, Action))
        requires
            fits(stage@, event),
        ensures
            exists|held: i32| #[trigger]
                self.adapters().cancellation.may_hold(held) && (result.0@, result.1@)
                    == self.policy().step(stage@, event, process::held_signal(held)),
    {
        let signal = self.dependencies.cancellation.signal();
        proof {
            let held = choose|held: i32| #[trigger]
                self.adapters().cancellation.may_hold(held) && signal == process::held_signal(held);
            assert(self.adapters().cancellation.may_hold(held));
        }
        self.step(stage, event, signal)
    }

    fn opened(&self, task: Task, ready: Result<(), EngineError>, signal: Option<i32>) -> (result: (
        Stage,
        Action,
    ))
        ensures
            (result.0@, result.1@) == self.policy().step(
                StageModel::Opening(task@),
                Event::Opened(ready),
                signal,
            ),
    {
        match ready {
            Err(error) => finish(Err(command::engine_error(&error, signal))),
            Ok(_) => match task {
                Task::Realize { request, operation, judged } => (
                    Stage::Realizing { operation, judged },
                    Action::Ask(request),
                ),
                Task::Prepare { request } => (Stage::Preparing, Action::Ask(request)),
                Task::Select { flake, scope } => {
                    let request = EngineRequest::Discover(DiscoverRequest { flake: flake.clone() });
                    (Stage::Discovering { flake, scope }, Action::Ask(request))
                },
            },
        }
    }

    fn closed(&self, ending: Ending, signal: Option<i32>) -> (result: (Stage, Action))
        ensures
            (result.0@, result.1@) == self.policy().step(
                StageModel::Closing(ending@),
                Event::Closed,
                signal,
            ),
    {
        match ending {
            Ending::Fails(error) => finish(Err(error)),
            Ending::Realizes { manifest, operation, judged } => {
                if !judged {
                    return finish(Ok(manifest));
                }
                match command::settle(&manifest, operation, signal) {
                    Ok(_) => finish(Ok(manifest)),
                    Err(error) => finish(Err(error)),
                }
            },
            Ending::Prepares(prepared) => {
                match command::settle(&prepared.manifest, "run", signal) {
                    Ok(_) => {},
                    Err(error) => {
                        return finish(Err(error));
                    },
                }
                match check_replacement(self.config.app_execution_mode, signal) {
                    Ok(_) => {},
                    Err(error) => {
                        return finish(Err(error));
                    },
                }
                let mut program: Vec<u8> = Vec::new();
                program.extend_from_slice(prepared.program.as_str().as_bytes());
                assert(program@ =~= vstd::utf8::encode_utf8(prepared.program@));
                let mut spec = ProcessSpec::new(
                    process::copy_bytes(&program),
                    prepared.arguments,
                );
                self.config.execution.apply(&mut spec);
                spec.stdout = StreamPolicy::RelayAndCapture { limit: self.config.app_output_limit };
                spec.stderr = StreamPolicy::RelayAndCapture { limit: self.config.app_output_limit };
                (
                    Stage::Running { manifest: prepared.manifest, program },
                    Action::Launch { spec, mode: self.config.app_execution_mode },
                )
            },
        }
    }
}

impl Stage {
    /// Returns the manifest that the interface shows when it is closed.
    pub fn manifest(&self) -> (result: Option<&Manifest>)
        ensures
            match self@ {
                StageModel::Closing(EndingModel::Realizes { manifest, .. }) => result == Some(
                    &manifest,
                ),
                StageModel::Closing(EndingModel::Prepares(prepared)) => result == Some(
                    &prepared.manifest,
                ),
                StageModel::Running { manifest, .. } => result == Some(&manifest),
                _ => result is None,
            },
    {
        match self {
            Stage::Closing(Ending::Realizes { manifest, .. }) => Some(manifest),
            Stage::Closing(Ending::Prepares(prepared)) => Some(&prepared.manifest),
            Stage::Running { manifest, .. } => Some(manifest),
            _ => None,
        }
    }
}

fn fail(error: Error) -> (result: (Stage, Action))
    ensures
        (result.0@, result.1@) == failing(error@),
{
    (Stage::Closing(Ending::Fails(error)), Action::Close)
}

fn report(found: Result<DiscoveredTargets, Error>) -> (result: (Stage, Action))
    ensures
        (result.0@, result.1@) == reporting(
            match found {
                Ok(targets) => Ok(targets),
                Err(error) => Err(error@),
            },
        ),
{
    (Stage::Ended, Action::Report(found))
}

fn finish(ended: Result<Manifest, Error>) -> (result: (Stage, Action))
    ensures
        (result.0@, result.1@) == finishing(
            match ended {
                Ok(manifest) => Ok(manifest),
                Err(error) => Err(error@),
            },
        ),
{
    (Stage::Ended, Action::Finish(ended))
}

/// Every event brings an operation closer to its end, so it has one.
pub proof fn law_operations_end(
    policy: PolicyModel,
    stage: StageModel,
    event: Event,
    signal: Option<i32>,
)
    requires
        fits(stage, event),
    ensures
        0 <= policy.step(stage, event, signal).0.rank() < stage.rank(),
        policy.step(stage, event, signal).0 is Ended <==> (policy.step(
            stage,
            event,
            signal,
        ).1 is Finish || policy.step(stage, event, signal).1 is Report),
{
}

/// An app is executed only after its realization succeeded and the interface was closed, and never
/// in the program's place once the work was cancelled.
pub proof fn law_apps_launch_only_after_success(
    policy: PolicyModel,
    stage: StageModel,
    event: Event,
    signal: Option<i32>,
)
    requires
        fits(stage, event),
        policy.step(stage, event, signal).1 is Launch,
    ensures
        event is Closed,
        stage matches StageModel::Closing(EndingModel::Prepares(prepared))
            && prepared.manifest.outcome is Success,
        policy.mode is Exec ==> signal is None,
{
}

/// A selection without checks is answered with an error: the engine is not asked for any check.
pub proof fn law_empty_selections_ask_for_nothing(
    policy: PolicyModel,
    flake: FlakeModel,
    checks: Seq<Seq<char>>,
    selected: Vec<String>,
    signal: Option<i32>,
)
    requires
        selected.deep_view().len() == 0,
    ensures
        policy.step(
            StageModel::Selecting { flake, checks },
            Event::Selected(Ok(selected)),
            signal,
        ) == failing(outcome::usage("selector chose no checks"@)),
{
}

/// The engine is asked only for checks that were discovered, and never for an empty list of them.
pub proof fn law_selected_checks_were_discovered(
    policy: PolicyModel,
    flake: FlakeModel,
    checks: Seq<Seq<char>>,
    choice: Result<Vec<String>, Error>,
    signal: Option<i32>,
)
    ensures
        policy.step(StageModel::Selecting { flake, checks }, Event::Selected(choice), signal).1
            matches ActionModel::Ask(request) ==> {
            &&& request matches RequestModel::Check { flake: asked, targets }
            &&& asked == flake
            &&& targets.len() > 0
            &&& forall|i: int| 0 <= i < targets.len() ==> checks.contains(#[trigger] targets[i])
        },
{
    if let Ok(selected) = choice {
        let names = selected.deep_view();
        command::law_accepted_checks_are_discovered(names, checks);
        command::law_acceptance_keeps_the_selection(names, checks);
        if names.len() > 0 && command::accepted(names, checks) is Ok {
            let targets = command::accepted(names, checks)->Ok_0;
            assert(names.contains(names[0]));
            assert(targets.contains(names[0]));
        }
    }
}

/// Nothing is returned while the interface is open: the result comes after it was closed, or after
/// the app ran, or because the engine could not be set up.
pub proof fn law_results_come_last(
    policy: PolicyModel,
    stage: StageModel,
    event: Event,
    signal: Option<i32>,
)
    requires
        fits(stage, event),
        policy.step(stage, event, signal).1 is Finish,
    ensures
        stage is Closing || stage is Running || (event matches Event::Opened(ready)
            && ready is Err),
{
}

/// A discovery asks the engine for the outputs of its flake and for nothing else, shows no
/// interface, and returns what the answer means.
pub proof fn law_discoveries_only_list_outputs(
    policy: PolicyModel,
    flake: FlakeModel,
    ready: Result<(), EngineError>,
    reply: Result<EngineResponse, EngineError>,
    signal: Option<i32>,
    later: Option<i32>,
)
    ensures
        ({
            let (asking, action) = policy.step(
                StageModel::Configuring { flake },
                Event::Configured(ready),
                signal,
            );
            match ready {
                Err(error) => action == ActionModel::Report(
                    Err(command::engine_failure(error, signal)),
                ),
                Ok(_) => {
                    &&& action == ActionModel::Ask(RequestModel::Discover { flake })
                    &&& policy.step(asking, Event::Answered(reply), later).1
                        == ActionModel::Report(command::discovery(reply, later))
                },
            }
        }),
{
}

/// A judged operation returns a manifest only of a success; one that is not judged returns every
/// settled manifest.
pub proof fn law_settled_manifests_are_not_judged(
    policy: PolicyModel,
    manifest: Manifest,
    operation: Seq<char>,
    judged: bool,
    signal: Option<i32>,
)
    ensures
        (policy.step(
            StageModel::Closing(EndingModel::Realizes { manifest, operation, judged }),
            Event::Closed,
            signal,
        ).1 == ActionModel::Finish(Ok(manifest))) <==> (!judged || manifest.outcome is Success),
{
}

/// A build or a check, once its interface is open, asks the engine for just the targets of the
/// command, closes the interface on the answer, and returns the manifest, unless it is judged and no
/// success.
pub proof fn law_realizations_run_to_their_result(
    policy: PolicyModel,
    command: RuntimeCommand,
    judged: bool,
    manifest: Manifest,
    signals: (Option<i32>, Option<i32>, Option<i32>),
)
    requires
        !(command is Run),
    ensures
        ({
            let opening = StageModel::Opening(command.task(judged));
            let asked = policy.step(opening, Event::Opened(Ok(())), signals.0);
            let answered = policy.step(
                asked.0,
                Event::Answered(Ok(EngineResponse::Realization(manifest))),
                signals.1,
            );
            let closed = policy.step(answered.0, Event::Closed, signals.2);
            &&& match command {
                RuntimeCommand::Build { flake, targets, out_link, .. } => asked.1
                    == ActionModel::Ask(
                    RequestModel::Build {
                        flake: flake@,
                        targets: targets.deep_view(),
                        out_link,
                    },
                ),
                RuntimeCommand::Check { flake, targets, .. } => asked.1 == ActionModel::Ask(
                    RequestModel::Check { flake: flake@, targets: targets.deep_view() },
                ),
                RuntimeCommand::Run { .. } => true,
            }
            &&& answered.1 == ActionModel::Close
            &&& closed.0 is Ended
            &&& manifest.outcome is Success || !judged ==> closed.1 == ActionModel::Finish(
                Ok(manifest),
            )
            &&& judged && !(manifest.outcome is Success) ==> match closed.1 {
                ActionModel::Finish(Err(error)) => match (manifest.outcome, signals.2) {
                    (crate::model::ManifestOutcome::Cancelled, Some(signal)) => error.kind is Cancelled && (0
                        < signal < 128 ==> error.exit_code == 128 + signal),
                    _ => true,
                },
                _ => false,
            }
        }),
{
}

/// A run asks the engine for the app with its arguments, closes the interface, and executes just
/// what was prepared, where and with what the policy says. It returns the manifest if the app
/// succeeded, and the app's own status if it did not.
pub proof fn law_apps_run_to_their_result(
    policy: PolicyModel,
    command: RuntimeCommand,
    prepared: PreparedRun,
    child: ProcessResult,
    status: i32,
)
    requires
        command is Run,
        prepared.manifest.outcome is Success,
        child.termination == process::ChildTermination::Exited(status),
        0 <= status < 256,
    ensures
        ({
            let opening = StageModel::Opening(command.task(true));
            let asked = policy.step(opening, Event::Opened(Ok(())), None);
            let answered = policy.step(
                asked.0,
                Event::Answered(Ok(EngineResponse::PreparedRun(prepared))),
                None,
            );
            let closed = policy.step(answered.0, Event::Closed, None);
            let ended = policy.step(closed.0, Event::Exited(Ok(child)), None);
            &&& command matches RuntimeCommand::Run { flake, app, arguments, .. } && asked.1
                == ActionModel::Ask(
                RequestModel::Run {
                    flake: flake@,
                    app: app@,
                    arguments: arguments.deep_view(),
                },
            )
            &&& answered.1 == ActionModel::Close
            &&& closed.1 matches ActionModel::Launch { spec, mode }
            &&& spec.program == vstd::utf8::encode_utf8(prepared.program@)
            &&& spec.args == prepared.arguments.deep_view()
            &&& spec.cwd == policy.cwd
            &&& spec.env == policy.env
            &&& spec.stdin is Inherit
            &&& spec.stdout == (StreamPolicy::RelayAndCapture { limit: policy.limit })
            &&& spec.stderr == (StreamPolicy::RelayAndCapture { limit: policy.limit })
            &&& mode == policy.mode
            &&& ended.0 is Ended
            &&& status == 0 ==> ended.1 == ActionModel::Finish(Ok(prepared.manifest))
            &&& status != 0 ==> (ended.1 matches ActionModel::Finish(Err(error))
                && error.exit_code == status && error.kind is Child)
        }),
{
}

/// Checks that are to be selected are discovered in the command's flake, offered with its scope as
/// they were discovered, and asked for as they were selected.
pub proof fn law_selections_run_to_the_engine(
    policy: PolicyModel,
    flake: FlakeModel,
    scope: Seq<char>,
    targets: DiscoveredTargets,
    selected: Vec<String>,
    signal: Option<i32>,
    name: Seq<char>,
)
    requires
        selected.deep_view().len() > 0,
        forall|i: int|
            0 <= i < selected.deep_view().len() ==> targets.checks.deep_view().contains(
                #[trigger] selected.deep_view()[i],
            ),
    ensures
        ({
            let opening = StageModel::Opening(TaskModel::Select { flake, scope });
            let asked = policy.step(opening, Event::Opened(Ok(())), signal);
            let found = policy.step(
                asked.0,
                Event::Answered(Ok(EngineResponse::Discovery(targets))),
                signal,
            );
            let chosen = policy.step(found.0, Event::Selected(Ok(selected)), signal);
            &&& asked.1 == ActionModel::Ask(RequestModel::Discover { flake })
            &&& found.1 == (ActionModel::Offer { scope, checks: targets.checks.deep_view() })
            &&& chosen.1 matches ActionModel::Ask(RequestModel::Check { flake: given, targets: names })
            &&& given == flake
            &&& names.contains(name) <==> selected.deep_view().contains(name)
        }),
{
    let names = selected.deep_view();
    let checks = targets.checks.deep_view();
    assert forall|other: Seq<char>| #[trigger] names.contains(other) implies checks.contains(
        other,
    ) by {
        assert(names[names.index_of(other)] == other);
    }
    command::law_unknown_checks_are_rejected(names, checks);
    command::law_acceptance_keeps_the_selection(names, checks);
}

/// A failure of the engine or of the caller's policy closes the interface and is returned as it is.
pub proof fn law_failures_are_returned_after_closing(
    policy: PolicyModel,
    stage: StageModel,
    error: EngineError,
    rejected: Error,
    signal: Option<i32>,
    later: Option<i32>,
)
    requires
        stage is Discovering || stage is Realizing || stage is Preparing || stage is Selecting,
    ensures
        ({
            let event = if stage is Selecting {
                Event::Selected(Err(rejected))
            } else {
                Event::Answered(Err(error))
            };
            let failed = policy.step(stage, event, signal);
            let closed = policy.step(failed.0, Event::Closed, later);
            &&& failed.1 == ActionModel::Close
            &&& closed.0 is Ended
            &&& stage is Selecting ==> closed.1 == ActionModel::Finish(Err(rejected@))
            &&& !(stage is Selecting) ==> (closed.1 matches ActionModel::Finish(Err(returned))
                && returned.message == error.message_text() && (returned.kind is Cancelled <==>
            error.code_text() == "cancelled"@))
        }),
{
}

/// An app that is supervised runs whether or not the work was cancelled, since cancellation reaches
/// it; one that would take the program's place runs only where nothing was cancelled, and is
/// otherwise answered with the signal.
pub proof fn law_only_replacement_waits_for_cancellation(signal: i32)
    ensures
        replacement(AppExecutionMode::Supervised, Some(signal)) is Ok,
        replacement(AppExecutionMode::Supervised, None) is Ok,
        replacement(AppExecutionMode::Exec, None) is Ok,
        replacement(AppExecutionMode::Exec, Some(signal)) matches Err(error) && error.kind
            is Cancelled && (0 < signal < 128 ==> error.exit_code == 128 + signal),
{
}

/// The manifest of an app that ran, or whose process could not be run, does not change the answer:
/// a failed run is answered with its own error.
pub proof fn law_failed_runs_return_their_error(
    policy: PolicyModel,
    manifest: Manifest,
    program: Seq<u8>,
    error: Error,
    signal: i32,
    child: ProcessResult,
    held: Option<i32>,
)
    requires
        0 < signal < 128,
        child.termination == process::ChildTermination::Signaled(signal),
    ensures
        ({
            let running = StageModel::Running { manifest, program };
            &&& policy.step(running, Event::Exited(Err(error)), held).1 == ActionModel::Finish(
                Err(error@),
            )
            &&& policy.step(running, Event::Exited(Ok(child)), held).1 matches ActionModel::Finish(
                Err(returned),
            ) && returned.exit_code == 128 + signal
        }),
{
}

} // verus!
