//! Interactive operations and the command line.

use std::path::PathBuf;

use nix_tools::cli::{trusted_substituters, Command, Operation};
use nix_tools::command::AppExecutionPolicy;
use nix_tools::flake::{CheckSelector, NixSystem};
use nix_tools::model::{
    CheckRequest, Clock, DiscoverRequest, DiscoveredTargets, EngineConfig, EngineError,
    EngineRequest, EngineResponse, FlakeRef, Manifest, ManifestMetrics, ManifestOutcome,
    PreparedRun, ResourceLimits,
};
use nix_tools::outcome::{Error, ErrorKind};
use nix_tools::plan::{invalid_input, terminated, unschedulable, unwritable};
use nix_tools::process::{
    Cancellation, CapturedStream, ChildTermination, InputPolicy, ProcessResult, ProcessRunner,
    ProcessSpec, StreamPolicy,
};
use nix_tools::runtime::{
    check_replacement, Action, AppExecutionMode, Event, Runtime, RuntimeCommand, RuntimeConfig,
    RuntimeDependencies, Stage,
};
use nix_tools::target::ServiceTarget;
use nix_tools::ui::session::{DisplayContext, OutputMode};

struct NeverRunner;

impl ProcessRunner for NeverRunner {
    fn run(&self, _spec: &ProcessSpec, _cancellation: &Cancellation) -> Result<ProcessResult, Error> {
        panic!("a pre-cancelled runtime must not start nix")
    }
}

struct FixedClock;

impl Clock for FixedClock {
    fn now_millis(&self) -> u64 {
        0
    }
}

struct EmptySelector;

impl CheckSelector for EmptySelector {
    fn select(&self, _scope: &str, _available: &[String]) -> Result<Vec<String>, Error> {
        Ok(Vec::new())
    }
}

fn config() -> RuntimeConfig {
    RuntimeConfig::new(
        EngineConfig::new(b"nix".to_vec(), NixSystem::X86_64Linux),
        AppExecutionPolicy::minimal(),
    )
}

fn flake() -> FlakeRef {
    FlakeRef::new(".".to_owned(), None)
}

fn manifest(outcome: ManifestOutcome) -> Manifest {
    Manifest {
        schema: "nix-tools.manifest/v1",
        system: "x86_64-linux".to_owned(),
        roots: Vec::new(),
        graph: Vec::new(),
        availability: Vec::new(),
        nodes: Vec::new(),
        diagnostics: Vec::new(),
        metrics: ManifestMetrics::default(),
        outcome,
    }
}

fn finished(action: Action) -> Result<Manifest, Error> {
    match action {
        Action::Finish(result) => result,
        _ => panic!("the operation is not over"),
    }
}

fn cancelled() -> Event {
    Event::Answered(Err(EngineError::new("cancelled", "operation cancelled".to_owned())))
}

#[test]
fn public_runtime_owns_display_selection_and_preserves_cancellation() {
    assert_eq!(
        OutputMode::select(
            OutputMode::Tui,
            DisplayContext { interactive_io: false, term: Some("xterm-256color") },
        ),
        OutputMode::Stream
    );

    let cancellation = Cancellation::default();
    cancellation.request(15);
    let runtime = Runtime::new(
        config(),
        RuntimeDependencies {
            runner: &NeverRunner,
            cancellation: &cancellation,
            clock: &FixedClock,
        },
    );
    let (stage, action) = runtime.execute(RuntimeCommand::Run {
        title: "lt run app".to_owned(),
        flake: flake(),
        app: "app".to_owned(),
        arguments: vec![b"--flag".to_vec()],
        output: OutputMode::Stream,
    });
    assert!(matches!(action, Action::Open { output: OutputMode::Stream, .. }));
    let (stage, action) = runtime.step(stage, Event::Opened(Ok(())), cancellation.signal());
    assert!(matches!(action, Action::Ask(EngineRequest::Run(_))));
    let (stage, action) = runtime.step(stage, cancelled(), cancellation.signal());
    assert!(matches!(action, Action::Close));
    assert!(stage.manifest().is_none());
    let (stage, action) = runtime.step(stage, Event::Closed, cancellation.signal());
    assert!(matches!(stage, Stage::Ended));
    let error = finished(action).unwrap_err();

    assert_eq!(error.kind, ErrorKind::Cancelled);
    assert_eq!(error.exit_code, 143);
}

#[test]
fn selected_checks_enter_through_the_interactive_runtime_seam() {
    let cancellation = Cancellation::default();
    cancellation.request(2);
    let runtime = Runtime::new(
        config(),
        RuntimeDependencies {
            runner: &NeverRunner,
            cancellation: &cancellation,
            clock: &FixedClock,
        },
    );

    let (stage, _) = runtime.check_selected(
        "lt check app".to_owned(),
        flake(),
        "app".to_owned(),
        OutputMode::Stream,
    );
    let (stage, action) = runtime.step(stage, Event::Opened(Ok(())), cancellation.signal());
    assert!(matches!(
        &action,
        Action::Ask(EngineRequest::Discover(DiscoverRequest { flake: asked })) if asked == &flake()
    ));
    let (stage, action) = runtime.step(stage, cancelled(), cancellation.signal());
    assert!(matches!(action, Action::Close));
    let (_, action) = runtime.step(stage, Event::Closed, cancellation.signal());

    assert_eq!(finished(action).unwrap_err().kind, ErrorKind::Cancelled);
}

fn build_command() -> RuntimeCommand {
    RuntimeCommand::Build {
        title: "lt build".to_owned(),
        flake: flake(),
        targets: Vec::new(),
        out_link: None,
        output: OutputMode::Stream,
    }
}

fn realize(runtime: &Runtime<'_>, stage: Stage, outcome: ManifestOutcome) -> Result<Manifest, Error> {
    let (stage, action) = runtime.step(stage, Event::Opened(Ok(())), None);
    assert!(matches!(action, Action::Ask(EngineRequest::Build(_))));
    let answer = Event::Answered(Ok(EngineResponse::Realization(manifest(outcome))));
    let (stage, action) = runtime.step(stage, answer, None);
    assert!(matches!(action, Action::Close));
    assert_eq!(stage.manifest(), Some(&manifest(outcome)));
    let (_, action) = runtime.step(stage, Event::Closed, None);
    finished(action)
}

#[test]
fn settled_execution_returns_failed_manifest_without_validation() {
    let cancellation = Cancellation::default();
    let runtime = Runtime::new(
        config(),
        RuntimeDependencies {
            runner: &NeverRunner,
            cancellation: &cancellation,
            clock: &FixedClock,
        },
    );

    let (stage, _) = runtime.execute_settled(build_command()).unwrap();
    let settled = realize(&runtime, stage, ManifestOutcome::Failed).unwrap();
    let (stage, _) = runtime.execute(build_command());
    let validated = realize(&runtime, stage, ManifestOutcome::Failed).unwrap_err();

    assert_eq!(settled.outcome, ManifestOutcome::Failed);
    assert_eq!(validated.kind, ErrorKind::Child);
}

#[test]
fn settled_execution_rejects_run_before_starting_a_process() {
    let cancellation = Cancellation::default();
    let runtime = Runtime::new(
        config(),
        RuntimeDependencies {
            runner: &NeverRunner,
            cancellation: &cancellation,
            clock: &FixedClock,
        },
    );

    let error = match runtime.execute_settled(RuntimeCommand::Run {
        title: "lt run app".to_owned(),
        flake: flake(),
        app: "app".to_owned(),
        arguments: Vec::new(),
        output: OutputMode::Stream,
    }) {
        Ok(_) => panic!("a run is no settled realization"),
        Err(error) => error,
    };

    assert_eq!(error.kind, ErrorKind::Usage);
}

#[test]
fn empty_check_selection_is_rejected_without_running_all_checks() {
    let cancellation = Cancellation::default();
    let runtime = Runtime::new(
        config(),
        RuntimeDependencies {
            runner: &NeverRunner,
            cancellation: &cancellation,
            clock: &FixedClock,
        },
    );
    let (stage, _) = runtime.check_selected(
        "check empty scope".to_owned(),
        flake(),
        "empty".to_owned(),
        OutputMode::Stream,
    );
    let (stage, _) = runtime.step(stage, Event::Opened(Ok(())), None);
    let discovered = Event::Answered(Ok(EngineResponse::Discovery(DiscoveredTargets {
        packages: Vec::new(),
        checks: vec!["app:test".to_owned()],
        apps: Vec::new(),
    })));
    let (stage, action) = runtime.step(stage, discovered, None);
    let selected = match action {
        Action::Offer { scope, checks } => EmptySelector.select(&scope, &checks),
        _ => panic!("the discovered checks are offered"),
    };
    let (stage, action) = runtime.step(stage, Event::Selected(selected), None);
    assert!(matches!(action, Action::Close), "an empty selection must not evaluate every check");
    let (_, action) = runtime.step(stage, Event::Closed, None);
    let error = finished(action).unwrap_err();
    assert_eq!(error.kind, ErrorKind::Usage);
    assert!(error.message.contains("no checks"));
}

#[test]
fn selected_checks_are_asked_for_in_order() {
    let cancellation = Cancellation::default();
    let runtime = Runtime::new(
        config(),
        RuntimeDependencies {
            runner: &NeverRunner,
            cancellation: &cancellation,
            clock: &FixedClock,
        },
    );
    let selecting = || {
        let (stage, _) = runtime.check_selected(
            "check".to_owned(),
            flake(),
            "app".to_owned(),
            OutputMode::Stream,
        );
        let (stage, _) = runtime.step(stage, Event::Opened(Ok(())), None);
        let discovered = Event::Answered(Ok(EngineResponse::Discovery(DiscoveredTargets {
            packages: Vec::new(),
            checks: vec!["app:a".to_owned(), "app:b".to_owned()],
            apps: Vec::new(),
        })));
        runtime.step(stage, discovered, None).0
    };
    let chosen = vec!["app:b".to_owned(), "app:a".to_owned(), "app:b".to_owned()];
    let (stage, action) = runtime.step(selecting(), Event::Selected(Ok(chosen)), None);
    match action {
        Action::Ask(EngineRequest::Check(CheckRequest { flake: asked, targets })) => {
            assert_eq!(asked, flake());
            assert_eq!(targets, ["app:a", "app:b"]);
        }
        _ => panic!("the selected checks are asked for"),
    }
    let answer =
        Event::Answered(Ok(EngineResponse::Realization(manifest(ManifestOutcome::Success))));
    let (stage, _) = runtime.step(stage, answer, None);
    let (_, action) = runtime.step(stage, Event::Closed, None);
    assert!(finished(action).is_ok());

    let unknown = Event::Selected(Ok(vec!["web:a".to_owned()]));
    let (stage, _) = runtime.step(selecting(), unknown, None);
    let (_, action) = runtime.step(stage, Event::Closed, None);
    assert_eq!(finished(action).unwrap_err().message, "selector chose unknown check web:a");
}

fn prepared(outcome: ManifestOutcome) -> Event {
    Event::Answered(Ok(EngineResponse::PreparedRun(PreparedRun {
        program: "/nix/store/app".to_owned(),
        arguments: vec![vec![0xff]],
        manifest: manifest(outcome),
    })))
}

fn preparing(runtime: &Runtime<'_>) -> Stage {
    let (stage, _) = runtime.execute(RuntimeCommand::Run {
        title: "run".to_owned(),
        flake: flake(),
        app: "web:dev".to_owned(),
        arguments: vec![vec![0xff]],
        output: OutputMode::Stream,
    });
    runtime.step(stage, Event::Opened(Ok(())), None).0
}

#[test]
fn a_realized_app_is_launched_with_the_runtime_policy() {
    let cancellation = Cancellation::default();
    let mut config = config();
    config.execution = AppExecutionPolicy::minimal()
        .with_cwd(PathBuf::from("/work"))
        .with_environment(b"A".to_vec(), b"1".to_vec());
    let runtime = Runtime::new(
        config,
        RuntimeDependencies {
            runner: &NeverRunner,
            cancellation: &cancellation,
            clock: &FixedClock,
        },
    );
    assert_eq!(runtime.config().app_output_limit, 8 * 1024 * 1024);
    assert_eq!(runtime.dependencies().clock.now_millis(), 0);

    let (stage, _) = runtime.step(preparing(&runtime), prepared(ManifestOutcome::Success), None);
    let (stage, action) = runtime.step(stage, Event::Closed, Some(15));
    match action {
        Action::Launch { spec, mode } => {
            assert_eq!(mode, AppExecutionMode::Supervised);
            assert_eq!(spec.program, b"/nix/store/app");
            assert_eq!(spec.args, [[0xff]]);
            assert_eq!(spec.cwd, Some(PathBuf::from("/work")));
            assert_eq!(spec.env.get(&b"A".to_vec()), Some(&b"1".to_vec()));
            assert_eq!(spec.stdin, InputPolicy::Inherit);
            assert_eq!(spec.stdout, StreamPolicy::RelayAndCapture { limit: 8 * 1024 * 1024 });
            assert_eq!(spec.stderr, StreamPolicy::RelayAndCapture { limit: 8 * 1024 * 1024 });
        }
        _ => panic!("the app is launched"),
    }
    let ended = |status| {
        Event::Exited(Ok(ProcessResult {
            termination: ChildTermination::Exited(status),
            stdout: CapturedStream::default(),
            stderr: CapturedStream::default(),
        }))
    };
    let (_, action) = runtime.step(stage, ended(0), None);
    assert!(finished(action).is_ok());

    let (stage, _) = runtime.step(preparing(&runtime), prepared(ManifestOutcome::Success), None);
    let (stage, _) = runtime.step(stage, Event::Closed, None);
    let (_, action) = runtime.step(stage, ended(23), None);
    let error = finished(action).unwrap_err();
    assert_eq!(error.exit_code, 23);
    assert_eq!(error.message, "/nix/store/app failed");

    let (stage, _) = runtime.step(preparing(&runtime), prepared(ManifestOutcome::Failed), None);
    let (_, action) = runtime.step(stage, Event::Closed, None);
    assert_eq!(finished(action).unwrap_err().message, "run failed");
}

#[test]
fn exec_checks_cancellation_before_replacement() {
    let cancellation = Cancellation::default();
    cancellation.request(15);
    let error = check_replacement(AppExecutionMode::Exec, cancellation.signal()).unwrap_err();
    assert_eq!(error.exit_code, 143);
    assert_eq!(error.message, "app execution cancelled");
    assert_eq!(check_replacement(AppExecutionMode::Exec, None), Ok(()));
    assert_eq!(check_replacement(AppExecutionMode::Supervised, Some(15)), Ok(()));
}

#[test]
fn an_engine_that_cannot_be_set_up_ends_the_operation() {
    let cancellation = Cancellation::default();
    let runtime = Runtime::new(
        config(),
        RuntimeDependencies {
            runner: &NeverRunner,
            cancellation: &cancellation,
            clock: &FixedClock,
        },
    );
    let (stage, _) = runtime.execute(build_command());
    let refused = Event::Opened(Err(EngineError::new("config", "bad limits".to_owned())));
    let (stage, action) = runtime.step(stage, refused, None);
    assert!(matches!(stage, Stage::Ended));
    let error = finished(action).unwrap_err();
    assert_eq!(error.kind, ErrorKind::External);
    assert_eq!(error.message, "bad limits");
}

#[test]
fn reference_cache_is_explicit_and_extra_caches_need_matching_keys() {
    let caches = trusted_substituters(
        vec!["https://cache.example".into()],
        vec!["example-1:key".into()],
    )
    .unwrap();

    assert_eq!(caches[0].url, "https://cache.nixos.org");
    assert_eq!(caches[1].url, "https://cache.example");
    assert!(caches[1].public_keys.contains("example-1:key"));
    assert_eq!(caches[1].public_keys.len(), 1);
    let error = trusted_substituters(vec!["https://cache.example".into()], Vec::new()).unwrap_err();
    assert_eq!(
        error.message,
        "supply exactly one --trusted-public-key for each --substituter"
    );
}

fn run(supervise: bool) -> Command {
    Command::Run {
        flake: ".".to_owned(),
        app: ServiceTarget::parse("app:dev").unwrap(),
        args: vec![vec![0xff]],
        supervise,
        output: OutputMode::Tui,
    }
}

#[test]
fn run_defaults_to_exec_and_supervision_is_explicit() {
    assert_eq!(run(false).execution_mode(true), AppExecutionMode::Exec);
    assert_eq!(run(true).execution_mode(true), AppExecutionMode::Supervised);
    assert_eq!(run(false).execution_mode(false), AppExecutionMode::Supervised);
}

#[test]
fn run_accepts_non_utf8_app_arguments() {
    match run(false).into_operation() {
        Operation::Execute(RuntimeCommand::Run { title, app, arguments, .. }) => {
            assert_eq!(title, "nt run app:dev");
            assert_eq!(app, "app:dev");
            assert_eq!(arguments, [[0xff]]);
        }
        _ => panic!("an app is run"),
    }
}

#[test]
fn run_rejects_missing_and_malformed_targets_before_nix() {
    for target in ["web", "", ":dev", "web:", "web:dev:extra"] {
        assert!(ServiceTarget::parse(target).is_err());
    }
}

#[test]
fn commands_become_operations() {
    let build = |package: Option<&str>| Command::Build {
        flake: "path:/w".to_owned(),
        package: package.map(str::to_owned),
        output: OutputMode::Stream,
    };
    assert_eq!(build(None).title(), "nt build");
    assert_eq!(build(Some("web")).title(), "nt build web");
    assert_eq!(build(None).output(), Some(OutputMode::Stream));
    match build(Some("web")).into_operation() {
        Operation::Execute(RuntimeCommand::Build { flake, targets, out_link, .. }) => {
            assert_eq!(flake, FlakeRef::new("path:/w".to_owned(), None));
            assert_eq!(targets, ["web"]);
            assert_eq!(out_link, None);
        }
        _ => panic!("a package is built"),
    }

    let check = |selector: Option<&str>| Command::Check {
        flake: ".".to_owned(),
        selector: selector.map(str::to_owned),
        output: OutputMode::Tui,
    };
    assert_eq!(check(None).title(), "nt check");
    assert!(matches!(
        check(None).into_operation(),
        Operation::Execute(RuntimeCommand::Check { targets, .. }) if targets.is_empty()
    ));
    match check(Some("web:lint")).into_operation() {
        Operation::CheckSelected { title, scope, output, .. } => {
            assert_eq!(title, "nt check web:lint");
            assert_eq!(scope, "web:lint");
            assert_eq!(output, OutputMode::Tui);
        }
        _ => panic!("checks are selected"),
    }

    let plan = Command::Plan { input: PathBuf::from("plan.json") };
    assert_eq!(plan.output(), None);
    assert_eq!(plan.title(), "nt plan");
    assert!(matches!(
        plan.into_operation(),
        Operation::Plan { input } if input == PathBuf::from("plan.json")
    ));
}

#[test]
fn engines_start_with_bounded_defaults() {
    let engine = EngineConfig::new(b"nix".to_vec(), NixSystem::X86_64Linux);
    assert!(engine.trusted_substituters.is_empty());
    assert_eq!(engine.limits, ResourceLimits::default());
    assert_eq!(engine.limits.max_graph_nodes, 65_536);
}

#[test]
fn plan_errors_keep_their_kinds() {
    assert_eq!(invalid_input("eof").kind, ErrorKind::Usage);
    assert_eq!(invalid_input("eof").message, "invalid plan JSON: eof");
    assert_eq!(unschedulable("cycle").kind, ErrorKind::Preflight);
    assert_eq!(unwritable("io").message, "serialize plan JSON: io");
    assert_eq!(terminated(b"{}".to_vec()), b"{}\n");
}

fn reported(action: Action) -> Result<DiscoveredTargets, Error> {
    match action {
        Action::Report(result) => result,
        _ => panic!("the discovery is not over"),
    }
}

#[test]
fn discovery_asks_for_outputs_without_an_interface() {
    let cancellation = Cancellation::default();
    let runtime = Runtime::new(
        config(),
        RuntimeDependencies {
            runner: &NeverRunner,
            cancellation: &cancellation,
            clock: &FixedClock,
        },
    );
    let (stage, action) = runtime.discover(flake());
    assert!(matches!(action, Action::Configure));
    let (stage, action) = runtime.proceed(stage, Event::Configured(Ok(())));
    assert!(matches!(
        &action,
        Action::Ask(EngineRequest::Discover(DiscoverRequest { flake: asked })) if asked == &flake()
    ));
    let found = Event::Answered(Ok(EngineResponse::Discovery(DiscoveredTargets {
        packages: vec!["tool".to_owned()],
        checks: vec!["web:test".to_owned()],
        apps: Vec::new(),
    })));
    let (stage, action) = runtime.proceed(stage, found);
    assert!(matches!(stage, Stage::Ended));
    assert_eq!(reported(action).unwrap().checks, ["web:test"]);

    let refused = EngineError::new("invalid_configuration", "no nix".to_owned());
    let (stage, _) = runtime.discover(flake());
    let (_, action) = runtime.proceed(stage, Event::Configured(Err(refused)));
    assert_eq!(reported(action).unwrap_err().message, "no nix");

    cancellation.request(15);
    let (stage, _) = runtime.discover(flake());
    let (stage, _) = runtime.proceed(stage, Event::Configured(Ok(())));
    let (_, action) = runtime.proceed(stage, cancelled());
    assert_eq!(reported(action).unwrap_err().exit_code, 143);
}
