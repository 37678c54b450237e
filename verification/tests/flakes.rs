//! Flake targets, service selectors and output discovery.

use std::path::PathBuf;
use std::sync::Mutex;

use nix_tools::flake::{
    nix_attribute_segment, output_names, CheckSelector, Flake, FlakeOperations, NixSystem, NixTools, StandardFlake,
    StandardFlakeKind,
};
use nix_tools::outcome::{Error, ErrorKind};
use nix_tools::process::{
    Cancellation, CapturedStream, ChildTermination, Environment, InputPolicy, ProcessResult,
    ProcessRunner, ProcessSpec, StreamPolicy,
};
use nix_tools::target::{ServiceCheckSelector, ServiceTarget};

struct Runner {
    specs: Mutex<Vec<ProcessSpec>>,
    responses: Mutex<Vec<Result<ProcessResult, Error>>>,
}

impl Runner {
    fn with_json(values: &[&str]) -> Self {
        Self {
            specs: Mutex::new(Vec::new()),
            responses: Mutex::new(values.iter().map(|value| Ok(result(value))).collect()),
        }
    }

    fn answering(response: Result<ProcessResult, Error>) -> Self {
        Self { specs: Mutex::new(Vec::new()), responses: Mutex::new(vec![response]) }
    }

    fn specs(&self) -> Vec<ProcessSpec> {
        self.specs.lock().unwrap().clone()
    }
}

impl ProcessRunner for Runner {
    fn run(&self, spec: &ProcessSpec, _cancellation: &Cancellation) -> Result<ProcessResult, Error> {
        self.specs.lock().unwrap().push(spec.clone());
        self.responses.lock().unwrap().remove(0)
    }
}

fn result(stdout: &str) -> ProcessResult {
    ProcessResult {
        termination: ChildTermination::Exited(0),
        stdout: CapturedStream { bytes: stdout.as_bytes().to_vec(), truncated: false },
        stderr: CapturedStream::default(),
    }
}

fn tools(runner: &Runner) -> NixTools<'_, Runner> {
    NixTools::new(runner, b"nix".to_vec(), NixSystem::Aarch64Darwin, 4096)
}

fn bytes(text: &str) -> Vec<u8> {
    text.as_bytes().to_vec()
}

#[test]
fn discovery_uses_bounded_attr_name_evaluations_for_the_selected_system() {
    let runner = Runner::with_json(&[
        "[\"web\",\"api\",\"name with dot.π\"]",
        "[\"lint\"]",
        "[\"serve\"]",
    ]);
    let flake = Flake::new(".");

    let discovered = tools(&runner).discover(&flake, &Cancellation::default()).unwrap();

    assert_eq!(discovered.packages, vec!["api", "name with dot.π", "web"]);
    assert_eq!(discovered.checks, vec!["lint"]);
    assert_eq!(discovered.apps, vec!["serve"]);
    let specs = runner.specs();
    assert_eq!(specs.len(), 3);
    assert!(specs.iter().all(|spec| spec.program == b"nix"));
    assert!(specs.iter().all(|spec| spec.args.iter().any(|argument| argument == b"--json")));
    assert!(specs.iter().all(|spec| spec.args.iter().any(|argument| argument == b"--apply")));
    assert_eq!(specs[0].args.last().unwrap(), b"builtins.attrNames");
    assert!(specs[0].args.iter().any(|argument| argument == b".#packages.aarch64-darwin"));
}

#[test]
fn malformed_evaluation_is_a_structured_external_error() {
    let runner = Runner::with_json(&["not json"]);

    let error = tools(&runner)
        .discover_packages(&Flake::new("."), &Cancellation::default())
        .unwrap_err();

    assert_eq!(error.kind, ErrorKind::External);
}

#[test]
fn listed_names_are_read_from_a_json_array() {
    let runner = Runner::with_json(&[" [ \"b\\u0041\", \"a\" , \"a\"] "]);
    assert_eq!(
        tools(&runner).discover_checks(&Flake::new("."), &Cancellation::default()).unwrap(),
        ["a", "bA"]
    );

    let scalar = Runner::with_json(&["4"]);
    let error =
        tools(&scalar).discover_apps(&Flake::new("."), &Cancellation::default()).unwrap_err();
    assert!(error.message.starts_with("nix returned invalid JSON while listing outputs: "));
    assert!(error.message.contains("invalid type"));
}

#[test]
fn parsed_listings_are_ordered_and_hold_no_empty_name() {
    let listed = output_names(Ok(vec!["b".to_owned(), "a".to_owned(), "b".to_owned()]));
    assert_eq!(listed.unwrap(), ["a", "b"]);
    let unnamed = output_names(Ok(vec!["b".to_owned(), String::new()])).unwrap_err();
    assert_eq!(unnamed.message, "nix returned an invalid standard output name");
    let broken = output_names(Err("no".to_owned())).unwrap_err();
    assert_eq!(broken.message, "nix returned invalid JSON while listing outputs: no");
}

#[test]
fn evaluations_run_in_the_flakes_directory_with_the_given_environment() {
    let runner = Runner::with_json(&["[]"]);
    let mut environment = Environment::new();
    environment.insert(bytes("HOME"), bytes("/root"));
    let flake = Flake::new(".").with_working_directory(PathBuf::from("/work"));

    let names = tools(&runner)
        .with_environment(environment.clone())
        .discover_packages(&flake, &Cancellation::default())
        .unwrap();

    assert!(names.is_empty());
    let spec = &runner.specs()[0];
    assert_eq!(spec.cwd, Some(PathBuf::from("/work")));
    assert_eq!(spec.env, environment);
    assert_eq!(spec.stdin, InputPolicy::Null);
    assert_eq!(spec.stdout, StreamPolicy::Capture { limit: 4096 });
    assert_eq!(spec.stderr, StreamPolicy::Capture { limit: 4096 });
}

#[test]
fn failed_and_cut_off_evaluations_list_nothing() {
    let failed = Runner::answering(Ok(ProcessResult {
        termination: ChildTermination::Exited(3),
        ..result("[\"web\"]")
    }));
    let error =
        tools(&failed).discover_packages(&Flake::new("."), &Cancellation::default()).unwrap_err();
    assert_eq!(error.kind, ErrorKind::Child);
    assert_eq!(error.exit_code, 3);
    assert_eq!(error.message, "nix failed");

    let cut = Runner::answering(Ok(ProcessResult {
        stdout: CapturedStream { bytes: bytes("[\"web\"]"), truncated: true },
        ..result("")
    }));
    let error =
        tools(&cut).discover_packages(&Flake::new("."), &Cancellation::default()).unwrap_err();
    assert_eq!(error.kind, ErrorKind::External);
    assert_eq!(error.message, "nix output exceeded the configured capture bound");

    let raw = Runner::answering(Ok(ProcessResult {
        termination: ChildTermination::Signaled(9),
        ..result("")
    }));
    let named = NixTools::new(&raw, vec![b'n', 0xff], NixSystem::X86_64Linux, 10);
    let error = named.discover_packages(&Flake::new("."), &Cancellation::default()).unwrap_err();
    assert_eq!(error.exit_code, 137);
    assert_eq!(error.message, "n\u{fffd} failed");
}

#[test]
fn an_empty_reference_is_rejected_before_nix_runs() {
    let runner = Runner::with_json(&[]);
    let error =
        tools(&runner).discover(&Flake::new(""), &Cancellation::default()).unwrap_err();
    assert_eq!(error.kind, ErrorKind::Usage);
    assert_eq!(error.message, "flake reference must not be empty");
    assert!(runner.specs().is_empty());
}

#[test]
fn standard_flake_names_are_composable_typed_requests() {
    let request = StandardFlake::package("hello").for_system(NixSystem::X86_64Linux);
    assert_eq!(request.attribute_path(), "packages.x86_64-linux.\"hello\"");
    assert_eq!(request.target_for(&Flake::new(".")), ".#packages.x86_64-linux.\"hello\"");
}

#[test]
fn standard_flake_quotes_dynamic_attribute_names() {
    let system = NixSystem::X86_64Linux;
    let cases = [
        ("name.with.dot", "packages.x86_64-linux.\"name.with.dot\""),
        ("name with space", "packages.x86_64-linux.\"name with space\""),
        ("say \"hello\"", "packages.x86_64-linux.\"say \\\"hello\\\"\""),
        ("value${interpolation}", "packages.x86_64-linux.\"value\\${interpolation}\""),
        ("π", "packages.x86_64-linux.\"π\""),
    ];

    for (name, expected) in cases {
        assert_eq!(StandardFlake::package(name).for_system(system).attribute_path(), expected);
    }
}

#[test]
fn namespaces_and_escapes_are_written_out() {
    assert_eq!(StandardFlake::all(StandardFlakeKind::Check).attribute_path(), "checks.<system>");
    assert_eq!(
        StandardFlake::app("a\\b\n\r\t$5").for_system(NixSystem::Aarch64Linux).attribute_path(),
        "apps.aarch64-linux.\"a\\\\b\\n\\r\\t$5\""
    );
    assert_eq!(
        StandardFlake::check("x").for_system(NixSystem::X86_64Darwin).attribute_path(),
        "checks.x86_64-darwin.\"x\""
    );
}

#[test]
fn targets_preserve_unambiguous_output_names() {
    for (input, service, job, output) in [
        ("web:dev", "web", "dev", "web:dev"),
        ("api:gen", "api", "gen", "api:gen"),
        ("public-api:type-check", "public-api", "type-check", "public-api:type-check"),
        ("Web_2:lint.v2", "Web_2", "lint.v2", "Web_2:lint.v2"),
    ] {
        let target: ServiceTarget = input.parse().unwrap();
        assert_eq!(target.service(), service);
        assert_eq!(target.job(), job);
        assert_eq!(target.output_name(), output);
        assert_eq!(target.output_name(), input);
    }
}

#[test]
fn run_requires_exactly_two_valid_components() {
    for input in [
        "",
        "web",
        ":dev",
        "web:",
        "web:dev:extra",
        " web:dev",
        "web:dev ",
        "../web:dev",
        "web:a/b",
        "web:é",
        "web:-dev",
    ] {
        assert_eq!(
            input.parse::<ServiceTarget>().unwrap_err().kind,
            ErrorKind::Usage,
            "{input}"
        );
    }
}

#[test]
fn malformed_targets_say_what_is_wrong() {
    assert_eq!(
        ServiceTarget::parse("web").unwrap_err().message,
        "target must be service:job (for example web:dev)"
    );
    assert_eq!(
        ServiceTarget::parse("web:a\"b").unwrap_err().message,
        "invalid service or target name \"a\\\"b\": use an ASCII letter or digit followed by letters, digits, '_', '.', or '-'"
    );
    assert!(ServiceTarget::parse("-x:y z")
        .unwrap_err()
        .message
        .starts_with("invalid service or target name \"-x\": "));
}

#[test]
fn checks_select_all_service_jobs_or_one_exact_job() {
    let checks = ["web:type-check", "api:lint", "web:lint", "web:lint", "web-worker:lint", "web-lint"]
        .map(str::to_owned);
    assert_eq!(
        ServiceCheckSelector.select("web", &checks).unwrap(),
        ["web:lint", "web:type-check"]
    );
    assert_eq!(
        ServiceCheckSelector.select("web:type-check", &checks).unwrap(),
        ["web:type-check"]
    );
    for input in ["missing", "web:missing"] {
        assert_eq!(
            ServiceCheckSelector.select(input, &checks).unwrap_err().kind,
            ErrorKind::NotFound
        );
    }
    for input in ["", ":lint", "web:", "web:lint:extra", "web/", " web"] {
        assert_eq!(
            ServiceCheckSelector.select(input, &checks).unwrap_err().kind,
            ErrorKind::Usage
        );
    }
    assert_eq!(
        ServiceCheckSelector.select("web", &[]).unwrap_err().kind,
        ErrorKind::NotFound
    );
}

#[test]
fn selector_supports_scope_and_scope_job_without_repository_policy() {
    let checks: Vec<String> = vec!["api:unit".into(), "api:integration".into(), "web:unit".into()];

    assert_eq!(
        ServiceCheckSelector.select("api", &checks).unwrap(),
        vec!["api:integration", "api:unit"]
    );
    assert_eq!(ServiceCheckSelector.select("api:unit", &checks).unwrap(), vec!["api:unit"]);
    let missing = ServiceCheckSelector.select("missing", &checks).unwrap_err();
    assert_eq!(missing.kind, ErrorKind::NotFound);
    assert_eq!(missing.message, "no checks match selector missing");
}

#[test]
fn quoted_names_differ_where_names_do() {
    assert_eq!(nix_attribute_segment("a$b${c}"), r#""a$b\${c}""#);
    assert_eq!(nix_attribute_segment("$"), r#""$""#);
    assert_eq!(nix_attribute_segment(r#"a"b"#), r#""a\"b""#);
    assert_ne!(nix_attribute_segment("\\n"), nix_attribute_segment("\n"));
}
