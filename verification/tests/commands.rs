//! Build, check and run operations over an injected engine and runner.

use std::path::PathBuf;
use std::sync::Mutex;

use nix_tools::command::{
    engine_error, manifest_result, settle, AppExecutionPolicy, AppOutputPolicy, BoundedAppOutput,
    StandardCommands,
};
use nix_tools::flake::{CheckSelector, Flake};
use nix_tools::model::{
    BuildRequest, CheckRequest, Diagnostic, DiagnosticSeverity, DiscoverRequest, DiscoveredTargets,
    EngineError, EngineRequest, EngineResponse, FlakeEngine, FlakeRef, Manifest, ManifestMetrics,
    ManifestOutcome, Phase, PreparedRun, RunRequest,
};
use nix_tools::outcome::{Error, ErrorKind};
use nix_tools::process::{
    requested_signal, Cancellation, CapturedStream, ChildTermination, ProcessResult, ProcessRunner,
    ProcessSpec, StreamPolicy,
};

struct Engine {
    requests: Mutex<Vec<EngineRequest>>,
    outcome: ManifestOutcome,
}

impl Engine {
    fn successful() -> Self {
        Self::with_outcome(ManifestOutcome::Success)
    }

    fn with_outcome(outcome: ManifestOutcome) -> Self {
        Self { requests: Mutex::new(Vec::new()), outcome }
    }
}

impl FlakeEngine for Engine {
    fn execute(&self, request: EngineRequest) -> Result<EngineResponse, EngineError> {
        self.requests.lock().unwrap().push(request.clone());
        match request {
            EngineRequest::Discover(_) => Ok(EngineResponse::Discovery(DiscoveredTargets {
                packages: vec!["web".into(), "worker".into()],
                checks: vec!["api-test".into(), "ui-test".into()],
                apps: vec!["serve".into()],
            })),
            EngineRequest::Build(_) | EngineRequest::Check(_) => {
                Ok(EngineResponse::Realization(manifest(self.outcome)))
            }
            EngineRequest::Run(request) => Ok(EngineResponse::PreparedRun(PreparedRun {
                program: "realized-app".into(),
                arguments: request.arguments,
                manifest: manifest(self.outcome),
            })),
        }
    }
}

fn manifest(outcome: ManifestOutcome) -> Manifest {
    Manifest {
        schema: "test",
        system: "test-system".into(),
        roots: Vec::new(),
        graph: Vec::new(),
        availability: Vec::new(),
        nodes: Vec::new(),
        diagnostics: Vec::new(),
        metrics: ManifestMetrics::default(),
        outcome,
    }
}

#[derive(Default)]
struct Runner(Mutex<Vec<ProcessSpec>>);

impl ProcessRunner for Runner {
    fn run(&self, spec: &ProcessSpec, _cancellation: &Cancellation) -> Result<ProcessResult, Error> {
        self.0.lock().unwrap().push(spec.clone());
        Ok(ProcessResult {
            termination: ChildTermination::Exited(0),
            stdout: CapturedStream::default(),
            stderr: CapturedStream::default(),
        })
    }
}

struct OnlyApi;

impl CheckSelector for OnlyApi {
    fn select(&self, _scope: &str, checks: &[String]) -> Result<Vec<String>, Error> {
        Ok(checks.iter().filter(|check| check.starts_with("api")).cloned().collect())
    }
}

struct CaptureOutput;

impl AppOutputPolicy for CaptureOutput {
    fn stdout(&self) -> StreamPolicy {
        StreamPolicy::Capture { limit: 7 }
    }

    fn stderr(&self) -> StreamPolicy {
        StreamPolicy::Capture { limit: 11 }
    }
}

fn flake() -> FlakeRef {
    FlakeRef::new(".".to_owned(), None)
}

fn bytes(text: &str) -> Vec<u8> {
    text.as_bytes().to_vec()
}

#[test]
fn standard_commands_dispatches_engine_requests_and_executes_only_prepared_apps() {
    let engine = Engine::successful();
    let runner = Runner::default();
    let cancellation = Cancellation::default();
    let execution = AppExecutionPolicy::minimal()
        .with_cwd(PathBuf::from("/work"))
        .with_environment(bytes("LANG"), bytes("C.UTF-8"));
    let commands =
        StandardCommands::new(&engine, &runner, &cancellation, &CaptureOutput, &execution);
    let source = Flake::new(".");

    commands.build(&source, "web").unwrap();
    commands.check_selected(&source, "api", &OnlyApi).unwrap();
    commands.run(&source, "serve", &vec![bytes("--port"), bytes("3000")]).unwrap();

    let requests = engine.requests.lock().unwrap().clone();
    assert_eq!(
        requests,
        vec![
            EngineRequest::Build(BuildRequest {
                flake: flake(),
                targets: vec!["web".into()],
                out_link: None,
            }),
            EngineRequest::Discover(DiscoverRequest { flake: flake() }),
            EngineRequest::Check(CheckRequest {
                flake: flake(),
                targets: vec!["api-test".into()],
            }),
            EngineRequest::Run(RunRequest {
                flake: flake(),
                app: "serve".into(),
                arguments: vec![bytes("--port"), bytes("3000")],
            }),
        ]
    );
    let specs = runner.0.lock().unwrap();
    assert_eq!(specs.len(), 1);
    assert_eq!(specs[0].program, bytes("realized-app"));
    assert_eq!(specs[0].args, vec![bytes("--port"), bytes("3000")]);
    assert_eq!(specs[0].cwd.as_deref(), Some(std::path::Path::new("/work")));
    assert_eq!(specs[0].env.get(&bytes("LANG")), Some(&bytes("C.UTF-8")));
    assert_eq!(specs[0].stdout, StreamPolicy::Capture { limit: 7 });
    assert_eq!(specs[0].stderr, StreamPolicy::Capture { limit: 11 });
}

#[test]
fn bulk_roots_remain_one_engine_request() {
    let engine = Engine::successful();
    let runner = Runner::default();
    let cancellation = Cancellation::default();
    let execution = AppExecutionPolicy::minimal();
    let commands =
        StandardCommands::new(&engine, &runner, &cancellation, &CaptureOutput, &execution);
    let source = Flake::new(".");

    commands.build_all(&source).unwrap();
    commands.check_all(&source).unwrap();

    let requests = engine.requests.lock().unwrap().clone();
    assert!(matches!(
        &requests[1],
        EngineRequest::Build(BuildRequest { targets, .. }) if targets == &["web", "worker"]
    ));
    assert!(matches!(
        &requests[3],
        EngineRequest::Check(CheckRequest { targets, .. }) if targets == &["api-test", "ui-test"]
    ));
}

#[test]
fn failed_or_cancelled_manifests_are_structured_errors_not_successful_dispatches() {
    let runner = Runner::default();
    let cancellation = Cancellation::default();
    let failed = Engine::with_outcome(ManifestOutcome::Failed);
    let execution = AppExecutionPolicy::minimal();
    let failed_commands =
        StandardCommands::new(&failed, &runner, &cancellation, &CaptureOutput, &execution);
    assert_eq!(
        failed_commands.build(&Flake::new("."), "web").unwrap_err().kind,
        ErrorKind::Child
    );

    let cancelled = Engine::with_outcome(ManifestOutcome::Cancelled);
    cancellation.request(2);
    let cancelled_commands =
        StandardCommands::new(&cancelled, &runner, &cancellation, &CaptureOutput, &execution);
    assert_eq!(
        cancelled_commands.build(&Flake::new("."), "web").unwrap_err().kind,
        ErrorKind::Cancelled
    );
}

#[test]
fn standard_commands_preserve_nonempty_nix_attribute_names() {
    let engine = Engine::successful();
    let runner = Runner::default();
    let cancellation = Cancellation::default();
    let execution = AppExecutionPolicy::minimal();
    let commands =
        StandardCommands::new(&engine, &runner, &cancellation, &CaptureOutput, &execution);

    commands.build(&Flake::new("."), "name with dot.π").unwrap();

    assert!(matches!(
        &engine.requests.lock().unwrap()[0],
        EngineRequest::Build(BuildRequest { targets, .. }) if targets == &["name with dot.π"]
    ));
}

#[test]
fn a_failed_prepared_run_does_not_execute_the_app() {
    let engine = Engine::with_outcome(ManifestOutcome::Failed);
    let runner = Runner::default();
    let cancellation = Cancellation::default();
    let execution = AppExecutionPolicy::minimal();
    let commands =
        StandardCommands::new(&engine, &runner, &cancellation, &CaptureOutput, &execution);

    let error = commands.run(&Flake::new("."), "serve", &Vec::new()).unwrap_err();

    assert_eq!(error.kind, ErrorKind::Child);
    assert!(runner.0.lock().unwrap().is_empty());
}

#[test]
fn requests_carry_the_flakes_working_directory() {
    let engine = Engine::successful();
    let runner = Runner::default();
    let cancellation = Cancellation::default();
    let execution = AppExecutionPolicy::minimal();
    let commands =
        StandardCommands::new(&engine, &runner, &cancellation, &CaptureOutput, &execution);
    let source = Flake::new(".").with_working_directory(PathBuf::from("/work"));

    commands.build(&source, "web").unwrap();

    assert!(matches!(
        &engine.requests.lock().unwrap()[0],
        EngineRequest::Build(BuildRequest { flake, .. })
            if flake == &FlakeRef::new(".".to_owned(), Some(PathBuf::from("/work")))
    ));
}

#[test]
fn empty_names_never_reach_the_engine() {
    let engine = Engine::successful();
    let runner = Runner::default();
    let cancellation = Cancellation::default();
    let execution = AppExecutionPolicy::minimal();
    let commands =
        StandardCommands::new(&engine, &runner, &cancellation, &CaptureOutput, &execution);

    let error = commands.build(&Flake::new("."), "").unwrap_err();
    assert_eq!(error.kind, ErrorKind::Usage);
    assert_eq!(error.message, "invalid standard flake output name ");
    assert_eq!(
        commands.run(&Flake::new("."), "", &Vec::new()).unwrap_err().kind,
        ErrorKind::Usage
    );
    assert!(engine.requests.lock().unwrap().is_empty());
}

struct Chooser(Vec<String>);

impl CheckSelector for Chooser {
    fn select(&self, _scope: &str, _checks: &[String]) -> Result<Vec<String>, Error> {
        Ok(self.0.clone())
    }
}

#[test]
fn a_selection_is_ordered_and_must_have_been_discovered() {
    let engine = Engine::successful();
    let runner = Runner::default();
    let cancellation = Cancellation::default();
    let execution = AppExecutionPolicy::minimal();
    let commands =
        StandardCommands::new(&engine, &runner, &cancellation, &CaptureOutput, &execution);
    let chosen = Chooser(vec!["ui-test".into(), "api-test".into(), "ui-test".into()]);

    assert_eq!(
        commands.check_selected(&Flake::new("."), "any", &chosen).unwrap(),
        ["api-test", "ui-test"]
    );

    let unknown = Chooser(vec!["ui-test".into(), "web-test".into()]);
    let error = commands.check_selected(&Flake::new("."), "any", &unknown).unwrap_err();
    assert_eq!(error.kind, ErrorKind::Usage);
    assert_eq!(error.message, "selector chose unknown check web-test");
}

struct Confused;

impl FlakeEngine for Confused {
    fn execute(&self, request: EngineRequest) -> Result<EngineResponse, EngineError> {
        match request {
            EngineRequest::Discover(_) => {
                Ok(EngineResponse::Realization(manifest(ManifestOutcome::Success)))
            }
            EngineRequest::Check(_) => Err(EngineError::new("graph", "no graph".to_owned())),
            EngineRequest::Build(_) | EngineRequest::Run(_) => {
                Ok(EngineResponse::Discovery(DiscoveredTargets {
                    packages: Vec::new(),
                    checks: Vec::new(),
                    apps: Vec::new(),
                }))
            }
        }
    }
}

#[test]
fn answers_to_another_question_are_internal_errors() {
    let runner = Runner::default();
    let cancellation = Cancellation::default();
    let execution = AppExecutionPolicy::minimal();
    let commands =
        StandardCommands::new(&Confused, &runner, &cancellation, &CaptureOutput, &execution);

    let build = commands.build(&Flake::new("."), "web").unwrap_err();
    assert_eq!(build.kind, ErrorKind::Internal);
    assert_eq!(build.message, "engine returned a non-realization response for build");
    let all = commands.build_all(&Flake::new(".")).unwrap_err();
    assert_eq!(all.message, "engine returned a non-discovery response for discovery");
    let run = commands.run(&Flake::new("."), "serve", &Vec::new()).unwrap_err();
    assert_eq!(run.message, "engine returned a non-app response for run");
}

struct Failing(ChildTermination);

impl ProcessRunner for Failing {
    fn run(&self, _spec: &ProcessSpec, _cancellation: &Cancellation) -> Result<ProcessResult, Error> {
        Ok(ProcessResult {
            termination: self.0,
            stdout: CapturedStream::default(),
            stderr: CapturedStream::default(),
        })
    }
}

#[test]
fn a_failed_app_gives_its_status() {
    let engine = Engine::successful();
    let cancellation = Cancellation::default();
    let execution = AppExecutionPolicy::minimal();
    for (termination, code) in
        [(ChildTermination::Exited(23), 23), (ChildTermination::Signaled(15), 143)]
    {
        let runner = Failing(termination);
        let commands =
            StandardCommands::new(&engine, &runner, &cancellation, &CaptureOutput, &execution);
        let error = commands.run(&Flake::new("."), "serve", &Vec::new()).unwrap_err();
        assert_eq!(error.kind, ErrorKind::Child);
        assert_eq!(error.exit_code, code);
        assert_eq!(error.message, "realized-app failed");
    }
}

#[test]
fn bounded_output_captures_both_streams() {
    let policy = BoundedAppOutput::new(9);
    assert_eq!(policy.stdout(), StreamPolicy::Capture { limit: 9 });
    assert_eq!(policy.stderr(), StreamPolicy::Capture { limit: 9 });
}

#[test]
fn environments_keep_one_value_per_name_in_order() {
    let policy = AppExecutionPolicy::minimal()
        .with_environment(bytes("B"), bytes("1"))
        .with_environment(bytes("A"), bytes("2"))
        .with_environment(bytes("B"), bytes("3"))
        .with_environment(vec![0xff], bytes("raw"));
    let environment = policy.environment();
    let entries: Vec<(Vec<u8>, Vec<u8>)> = (0..environment.len())
        .map(|index| {
            let (name, value) = environment.at(index);
            (name.clone(), value.clone())
        })
        .collect();
    assert_eq!(
        entries,
        [
            (bytes("A"), bytes("2")),
            (bytes("B"), bytes("3")),
            (vec![0xff], bytes("raw")),
        ]
    );
    assert_eq!(environment.get(&bytes("C")), None);
}

#[test]
fn engine_errors_keep_their_words_and_the_signal() {
    let cancelled = engine_error(&EngineError::new("cancelled", "stopped".to_owned()), Some(15));
    assert_eq!(cancelled.kind, ErrorKind::Cancelled);
    assert_eq!(cancelled.message, "stopped");
    assert_eq!(cancelled.exit_code, 143);
    let unknown = engine_error(&EngineError::new("cancelled", "stopped".to_owned()), None);
    assert_eq!(unknown.exit_code, 130);
    let other = engine_error(&EngineError::new("graph", "broken".to_owned()), Some(15));
    assert_eq!(other.kind, ErrorKind::External);
    assert_eq!(other.message, "broken");
}

#[test]
fn a_failed_manifest_cannot_be_reported_as_cli_success() {
    let mut failed = Manifest {
        schema: "nix-tools.manifest/v1",
        system: "x86_64-linux".to_owned(),
        ..manifest(ManifestOutcome::Failed)
    };
    failed.diagnostics.push(Diagnostic {
        phase: Phase::Realization,
        code: "build_failed".to_owned(),
        severity: DiagnosticSeverity::Error,
        target: None,
        message: "the selected build failed".to_owned(),
        stdout: String::new(),
        stderr: String::new(),
        truncated: false,
    });

    let error = manifest_result(&failed, "build", &Cancellation::default()).unwrap_err();

    assert_eq!(error.kind, ErrorKind::Child);
    assert_eq!(error.message, "the selected build failed");
}

#[test]
fn manifests_settle_by_their_outcome() {
    assert_eq!(settle(&manifest(ManifestOutcome::Success), "build", Some(2)), Ok(()));
    let failed = settle(&manifest(ManifestOutcome::Failed), "build", None).unwrap_err();
    assert_eq!(failed.message, "build failed");
    assert_eq!(failed.exit_code, 1);
    let cancelled = settle(&manifest(ManifestOutcome::Cancelled), "check", Some(15)).unwrap_err();
    assert_eq!(cancelled.message, "check cancelled");
    assert_eq!(cancelled.exit_code, 143);
}

#[test]
fn warnings_do_not_explain_a_failure() {
    let mut failed = manifest(ManifestOutcome::Failed);
    for (severity, message) in [
        (DiagnosticSeverity::Warning, "slow cache"),
        (DiagnosticSeverity::Error, "first"),
        (DiagnosticSeverity::Error, "second"),
    ] {
        failed.diagnostics.push(Diagnostic {
            phase: Phase::Probe,
            code: "probe".to_owned(),
            severity,
            target: None,
            message: message.to_owned(),
            stdout: String::new(),
            stderr: String::new(),
            truncated: false,
        });
    }
    assert_eq!(settle(&failed, "build", None).unwrap_err().message, "first");
}

#[test]
fn the_first_request_to_cancel_stays() {
    let cancellation = Cancellation::default();
    assert_eq!(cancellation.signal(), None);
    let shared = cancellation.clone();
    shared.request(15);
    shared.request(2);
    assert_eq!(cancellation.signal(), Some(15));
}

#[test]
fn a_request_holds_its_signal_and_zero_is_none() {
    assert_eq!(requested_signal(0), None);
    assert_eq!(requested_signal(15), Some(15));
    assert_eq!(requested_signal(-1), Some(-1));
}

#[test]
fn a_cancelled_manifest_keeps_the_recorded_signal() {
    let cancelled = manifest(ManifestOutcome::Cancelled);
    let cancellation = Cancellation::default();
    let error = manifest_result(&cancelled, "build", &cancellation).unwrap_err();
    assert_eq!((error.kind, error.exit_code), (ErrorKind::Cancelled, 130));
    cancellation.request(15);
    let error = manifest_result(&cancelled, "build", &cancellation).unwrap_err();
    assert_eq!((error.kind, error.exit_code), (ErrorKind::Cancelled, 143));
    assert_eq!(error.message, "build cancelled");
}
