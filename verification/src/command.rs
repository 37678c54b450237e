//! Composable build, check and run operations over an injected engine.

use std::path::PathBuf;

use vstd::prelude::*;

use crate::flake::{CheckSelector, Flake};
use crate::model::{
    BuildRequest, CheckRequest, Diagnostic, DiagnosticSeverity, DiscoverRequest, DiscoveredTargets,
    EngineError, EngineRequest, EngineResponse, FlakeEngine, FlakeModel, FlakeRef, Manifest,
    ManifestOutcome, PreparedRun, RequestModel, RunRequest,
};
use crate::ordered;
use crate::outcome;
use crate::outcome::{Error, ErrorKind, ErrorModel};
use crate::process;
use crate::process::{
    Cancellation, Environment, ProcessResult, ProcessRunner, ProcessSpec, StreamPolicy,
};
use crate::text;

verus! {

/// Caller-owned policy for the output of a realized app.
pub trait AppOutputPolicy: Send + Sync {
    /// Returns the standard-output stream handling policy.
    fn stdout(&self) -> StreamPolicy;

    /// Returns the standard-error stream handling policy.
    fn stderr(&self) -> StreamPolicy;
}

/// Captures a bounded head of each app stream without relaying it.
#[derive(Clone, Copy, Debug, PartialEq, Eq, Structural)]
pub struct BoundedAppOutput {
    limit: usize,
}

impl BoundedAppOutput {
    /// The bytes kept of each stream.
    pub closed spec fn bound(&self) -> usize {
        self.limit
    }

    /// Creates a bounded capture policy.
    pub fn new(limit: usize) -> (result: Self)
        ensures
            result.bound() == limit,
    {
        BoundedAppOutput { limit }
    }
}

impl AppOutputPolicy for BoundedAppOutput {
    fn stdout(&self) -> (result: StreamPolicy)
        ensures
            result == (StreamPolicy::Capture { limit: self.bound() }),
    {
        StreamPolicy::Capture { limit: self.limit }
    }

    fn stderr(&self) -> (result: StreamPolicy)
        ensures
            result == (StreamPolicy::Capture { limit: self.bound() }),
    {
        StreamPolicy::Capture { limit: self.limit }
    }
}

/// Explicit working-directory and environment policy for a realized app process.
#[derive(Debug, PartialEq, Eq)]
pub struct AppExecutionPolicy {
    cwd: Option<PathBuf>,
    environment: Environment,
}

impl AppExecutionPolicy {
    /// The app's working directory.
    pub closed spec fn directory(&self) -> Option<PathBuf> {
        self.cwd
    }

    /// The app's complete environment.
    pub closed spec fn variables(&self) -> Map<Seq<u8>, Seq<u8>> {
        self.environment@
    }

    /// The environment is in order.
    pub closed spec fn wf(&self) -> bool {
        self.environment.wf()
    }

    /// Creates a minimal policy with no working directory and an empty environment.
    pub fn minimal() -> (result: Self)
        ensures
            result.wf(),
            result.directory() is None,
            result.variables() == Map::<Seq<u8>, Seq<u8>>::empty(),
    {
        AppExecutionPolicy { cwd: None, environment: Environment::new() }
    }

    /// Sets the app working directory.
    pub fn with_cwd(self, cwd: PathBuf) -> (result: Self)
        requires
            self.wf(),
        ensures
            result.wf(),
            result.directory() == Some(cwd),
            result.variables() == self.variables(),
    {
        AppExecutionPolicy { cwd: Some(cwd), environment: self.environment }
    }

    /// Adds or replaces one app environment value.
    pub fn with_environment(self, key: Vec<u8>, value: Vec<u8>) -> (result: Self)
        requires
            self.wf(),
        ensures
            result.wf(),
            result.directory() == self.directory(),
            result.variables() == self.variables().insert(key@, value@),
    {
        let mut environment = self.environment;
        environment.insert(key, value);
        AppExecutionPolicy { cwd: self.cwd, environment }
    }

    /// Returns the complete environment supplied to the app process.
    pub fn environment(&self) -> (result: &Environment)
        ensures
            result@ == self.variables(),
            self.wf() ==> result.wf(),
    {
        &self.environment
    }

    /// Applies this policy to an app process specification.
    pub fn apply(&self, spec: &mut ProcessSpec)
        ensures
            final(spec).cwd == self.directory(),
            final(spec).env@ == self.variables(),
            final(spec).program == old(spec).program,
            final(spec).args == old(spec).args,
            final(spec).stdin == old(spec).stdin,
            final(spec).stdout == old(spec).stdout,
            final(spec).stderr == old(spec).stderr,
    {
        spec.cwd = process::copy_path(&self.cwd);
        spec.env = self.environment.clone();
    }
}

impl Clone for AppExecutionPolicy {
    fn clone(&self) -> (result: Self)
        ensures
            result.directory() == self.directory(),
            result.variables() == self.variables(),
            self.wf() ==> result.wf(),
    {
        AppExecutionPolicy {
            cwd: process::copy_path(&self.cwd),
            environment: self.environment.clone(),
        }
    }
}

/// The signal that stands for a request whose signal is not known.
pub open spec fn signal_or_interrupt(signal: Option<i32>) -> int {
    match signal {
        Some(signal) => signal as int,
        None => 2,
    }
}

fn interrupt_signal(signal: Option<i32>) -> (result: i32)
    ensures
        result == signal_or_interrupt(signal),
{
    match signal {
        Some(signal) => signal,
        None => 2,
    }
}

/// The first message among diagnostics of error severity.
pub open spec fn first_error(diagnostics: Seq<Diagnostic>) -> Option<Seq<char>>
    decreases diagnostics.len(),
{
    if diagnostics.len() == 0 {
        None
    } else if diagnostics[0].severity == DiagnosticSeverity::Error {
        Some(diagnostics[0].message@)
    } else {
        first_error(diagnostics.drop_first())
    }
}

/// What a settled manifest means for a command.
pub open spec fn verdict(manifest: Manifest, operation: Seq<char>, signal: Option<i32>) -> Result<
    (),
    ErrorModel,
> {
    match manifest.outcome {
        ManifestOutcome::Success => Ok(()),
        ManifestOutcome::Cancelled => Err(
            outcome::cancelled(signal_or_interrupt(signal), operation + " cancelled"@),
        ),
        ManifestOutcome::Failed => Err(
            outcome::child(
                1,
                match first_error(manifest.diagnostics@) {
                    Some(message) => message,
                    None => operation + " failed"@,
                },
            ),
        ),
    }
}

/// A manifest counts as success where its outcome is success, and nowhere else.
pub proof fn law_only_success_succeeds(
    manifest: Manifest,
    operation: Seq<char>,
    signal: Option<i32>,
)
    ensures
        verdict(manifest, operation, signal) is Ok <==> manifest.outcome is Success,
{
}

/// Cancelled work is answered as cancelled, with the signal that asked for it in the exit status.
pub proof fn law_cancellation_keeps_its_signal(
    manifest: Manifest,
    operation: Seq<char>,
    signal: i32,
)
    requires
        manifest.outcome is Cancelled,
        0 < signal < 128,
    ensures
        verdict(manifest, operation, Some(signal)) matches Err(error) && error.kind
            == ErrorKind::Cancelled && error.exit_code == 128 + signal,
{
}

/// Returns the first message among diagnostics of error severity.
fn first_error_message(diagnostics: &Vec<Diagnostic>) -> (result: Option<&String>)
    ensures
        match result {
            Some(message) => first_error(diagnostics@) == Some(message@),
            None => first_error(diagnostics@) is None,
        },
{
    let mut i: usize = 0;
    assert(diagnostics@.skip(0) =~= diagnostics@);
    while i < diagnostics.len()
        invariant
            i <= diagnostics@.len(),
            first_error(diagnostics@) == first_error(diagnostics@.skip(i as int)),
        decreases diagnostics@.len() - i,
    {
        match diagnostics[i].severity {
            DiagnosticSeverity::Error => {
                return Some(&diagnostics[i].message);
            },
            DiagnosticSeverity::Warning => {},
        }
        assert(diagnostics@.skip(i as int).drop_first() =~= diagnostics@.skip(i + 1));
        i = i + 1;
    }
    None
}

/// Converts a settled engine manifest into the command's result, given the signal of a requested
/// cancellation.
pub fn settle(manifest: &Manifest, operation: &str, signal: Option<i32>) -> (result: Result<
    (),
    Error,
>)
    ensures
        outcome::agrees(result, verdict(*manifest, operation@, signal)),
{
    match manifest.outcome {
        ManifestOutcome::Success => Ok(()),
        ManifestOutcome::Cancelled => Err(
            Error::cancelled(interrupt_signal(signal), text::cat2(operation, " cancelled")),
        ),
        ManifestOutcome::Failed => {
            let message = match first_error_message(&manifest.diagnostics) {
                Some(message) => message.clone(),
                None => text::cat2(operation, " failed"),
            };
            Err(Error::child(1, message))
        },
    }
}

/// Converts a settled engine manifest into the standard command result. A failed one gives a child
/// error with the first error diagnostic, a cancelled one a cancellation error with the signal that
/// the cancellation recorded.
pub fn manifest_result(manifest: &Manifest, operation: &str, cancellation: &Cancellation) -> (result:
    Result<(), Error>)
    ensures
        exists|held: i32| #[trigger]
            cancellation.may_hold(held) && outcome::agrees(
                result,
                verdict(*manifest, operation@, process::held_signal(held)),
            ),
{
    settle(manifest, operation, cancellation.signal())
}

/// The command's error for an engine's.
pub open spec fn engine_failure(error: EngineError, signal: Option<i32>) -> ErrorModel {
    if error.code_text() == "cancelled"@ {
        outcome::cancelled(signal_or_interrupt(signal), error.message_text())
    } else {
        outcome::external(error.message_text())
    }
}

/// Converts an engine's error into the command's, given the signal of a requested cancellation.
pub fn engine_error(error: &EngineError, signal: Option<i32>) -> (result: Error)
    ensures
        result@ == engine_failure(*error, signal),
{
    let message = error.message().to_owned();
    if text::same(error.code(), "cancelled") {
        Error::cancelled(interrupt_signal(signal), message)
    } else {
        Error::external(message)
    }
}

/// What an engine's answer means for a command that realizes something.
pub open spec fn realization(
    reply: Result<EngineResponse, EngineError>,
    operation: Seq<char>,
    signal: Option<i32>,
) -> Result<(), ErrorModel> {
    match reply {
        Err(error) => Err(engine_failure(error, signal)),
        Ok(EngineResponse::Realization(manifest)) => verdict(manifest, operation, signal),
        Ok(_) => Err(
            outcome::plain(
                ErrorKind::Internal,
                "engine returned a non-realization response for "@ + operation,
            ),
        ),
    }
}

/// What an engine's answer means for a discovery.
pub open spec fn discovery(reply: Result<EngineResponse, EngineError>, signal: Option<i32>) -> Result<
    DiscoveredTargets,
    ErrorModel,
> {
    match reply {
        Err(error) => Err(engine_failure(error, signal)),
        Ok(EngineResponse::Discovery(targets)) => Ok(targets),
        Ok(_) => Err(
            outcome::plain(
                ErrorKind::Internal,
                "engine returned a non-discovery response for discovery"@,
            ),
        ),
    }
}

/// What an engine's answer means for an app that is to be run.
pub open spec fn preparation(
    reply: Result<EngineResponse, EngineError>,
    signal: Option<i32>,
) -> Result<PreparedRun, ErrorModel> {
    match reply {
        Err(error) => Err(engine_failure(error, signal)),
        Ok(EngineResponse::PreparedRun(prepared)) => match verdict(
            prepared.manifest,
            "run"@,
            signal,
        ) {
            Ok(_) => Ok(prepared),
            Err(error) => Err(error),
        },
        Ok(_) => Err(
            outcome::plain(
                ErrorKind::Internal,
                "engine returned a non-app response for run"@,
            ),
        ),
    }
}

/// An app is handed on only where its realization succeeded.
pub proof fn law_apps_run_only_after_success(
    reply: Result<EngineResponse, EngineError>,
    signal: Option<i32>,
)
    ensures
        preparation(reply, signal) matches Ok(prepared) ==> prepared.manifest.outcome is Success,
{
}

/// Applies the rules of [`realization`].
pub fn settle_realization(
    reply: Result<EngineResponse, EngineError>,
    operation: &str,
    signal: Option<i32>,
) -> (result: Result<(), Error>)
    ensures
        outcome::agrees(result, realization(reply, operation@, signal)),
{
    match reply {
        Err(error) => Err(engine_error(&error, signal)),
        Ok(EngineResponse::Realization(manifest)) => settle(&manifest, operation, signal),
        Ok(_) => Err(
            Error::new(
                ErrorKind::Internal,
                text::cat2("engine returned a non-realization response for ", operation),
            ),
        ),
    }
}

/// Applies the rules of [`discovery`].
pub fn settle_discovery(
    reply: Result<EngineResponse, EngineError>,
    signal: Option<i32>,
) -> (result: Result<DiscoveredTargets, Error>)
    ensures
        outcome::agrees(result, discovery(reply, signal)),
{
    match reply {
        Err(error) => Err(engine_error(&error, signal)),
        Ok(EngineResponse::Discovery(targets)) => Ok(targets),
        Ok(_) => Err(
            Error::new(
                ErrorKind::Internal,
                "engine returned a non-discovery response for discovery".to_owned(),
            ),
        ),
    }
}

/// Applies the rules of [`preparation`].
pub fn settle_preparation(
    reply: Result<EngineResponse, EngineError>,
    signal: Option<i32>,
) -> (result: Result<PreparedRun, Error>)
    ensures
        outcome::agrees(result, preparation(reply, signal)),
{
    match reply {
        Err(error) => Err(engine_error(&error, signal)),
        Ok(EngineResponse::PreparedRun(prepared)) => match settle(
            &prepared.manifest,
            "run",
            signal,
        ) {
            Ok(_) => Ok(prepared),
            Err(error) => Err(error),
        },
        Ok(_) => Err(
            Error::new(
                ErrorKind::Internal,
                "engine returned a non-app response for run".to_owned(),
            ),
        ),
    }
}

/// The error for an output name that is empty.
pub open spec fn name_error() -> ErrorModel {
    outcome::usage("invalid standard flake output name "@)
}

/// The checks that a caller's selection stands for: in order, each once, all of them discovered.
pub open spec fn accepted(selected: Seq<Seq<char>>, checks: Seq<Seq<char>>) -> Result<
    Seq<Seq<char>>,
    ErrorModel,
> {
    let names = ordered::listing(selected.to_set());
    match first_unknown(names, checks) {
        Some(name) => Err(outcome::usage("selector chose unknown check "@ + name)),
        None => Ok(names),
    }
}

/// The first name that is not among the checks.
pub open spec fn first_unknown(names: Seq<Seq<char>>, checks: Seq<Seq<char>>) -> Option<Seq<char>>
    decreases names.len(),
{
    if names.len() == 0 {
        None
    } else if !checks.contains(names[0]) {
        Some(names[0])
    } else {
        first_unknown(names.drop_first(), checks)
    }
}

proof fn lemma_all_known(names: Seq<Seq<char>>, checks: Seq<Seq<char>>)
    requires
        first_unknown(names, checks) is None,
    ensures
        forall|i: int| 0 <= i < names.len() ==> checks.contains(#[trigger] names[i]),
    decreases names.len(),
{
    if names.len() > 0 {
        lemma_all_known(names.drop_first(), checks);
        assert forall|i: int| 0 <= i < names.len() implies checks.contains(#[trigger] names[i]) by {
            if i > 0 {
                assert(names.drop_first()[i - 1] == names[i]);
            }
        }
    }
}

/// Whatever a caller's policy selects, only discovered checks are accepted.
pub proof fn law_accepted_checks_are_discovered(selected: Seq<Seq<char>>, checks: Seq<Seq<char>>)
    ensures
        accepted(selected, checks) matches Ok(names) ==> forall|i: int|
            0 <= i < names.len() ==> checks.contains(#[trigger] names[i]),
{
    let names = ordered::listing(selected.to_set());
    if first_unknown(names, checks) is None {
        lemma_all_known(names, checks);
    }
}

/// What is accepted is the selection: no selected check is dropped and none is added.
pub proof fn law_acceptance_keeps_the_selection(selected: Seq<Seq<char>>, checks: Seq<Seq<char>>)
    ensures
        accepted(selected, checks) matches Ok(names) ==> forall|name: Seq<char>| #[trigger]
            names.contains(name) <==> selected.contains(name),
{
    vstd::seq_lib::seq_to_set_is_finite(selected);
    ordered::lemma_finite_listing(selected.to_set());
}

/// Reports whether a name is among others.
fn is_among(name: &str, names: &Vec<String>) -> (result: bool)
    ensures
        result == names.deep_view().contains(name@),
{
    let mut i: usize = 0;
    while i < names.len()
        invariant
            i <= names@.len(),
            forall|j: int| 0 <= j < i ==> (#[trigger] names@[j])@ != name@,
        decreases names@.len() - i,
    {
        if text::same(names[i].as_str(), name) {
            assert(names.deep_view()[i as int] == name@);
            return true;
        }
        i = i + 1;
    }
    proof {
        if names.deep_view().contains(name@) {
            let j = names.deep_view().index_of(name@);
            assert(names@[j]@ == name@);
        }
    }
    false
}

/// Orders and checks a caller's selection.
pub fn accept_selection(selected: &Vec<String>, checks: &Vec<String>) -> (result: Result<
    Vec<String>,
    Error,
>)
    ensures
        crate::flake::lists(result, accepted(selected.deep_view(), checks.deep_view())),
{
    let names = ordered::sorted(selected.as_slice());
    let ghost all = names.deep_view();
    let ghost known = checks.deep_view();
    let mut i: usize = 0;
    assert(all.skip(0) =~= all);
    while i < names.len()
        invariant
            all == names.deep_view(),
            known == checks.deep_view(),
            all == ordered::listing(selected.deep_view().to_set()),
            i <= names@.len(),
            first_unknown(all, known) == first_unknown(all.skip(i as int), known),
        decreases names@.len() - i,
    {
        assert(all[i as int] == names@[i as int]@);
        if !is_among(names[i].as_str(), checks) {
            return Err(
                Error::usage(text::cat2("selector chose unknown check ", names[i].as_str())),
            );
        }
        assert(all.skip(i as int).drop_first() =~= all.skip(i + 1));
        i = i + 1;
    }
    Ok(names)
}

/// Composable standard build, check, and run operations backed by one injected engine.
pub struct StandardCommands<'services, E: FlakeEngine, R: ProcessRunner, P: AppOutputPolicy> {
    engine: &'services E,
    runner: &'services R,
    cancellation: &'services Cancellation,
    output: &'services P,
    execution: &'services AppExecutionPolicy,
}

/// The flake that a request names, with the directory from which its reference is resolved.
pub open spec fn requested_flake(flake: Flake) -> FlakeModel {
    FlakeModel { reference: flake.reference_text(), directory: flake.directory() }
}

fn engine_flake(flake: &Flake) -> (result: FlakeRef)
    ensures
        result@ == requested_flake(*flake),
{
    let directory = match flake.working_directory() {
        Some(path) => Some(path.clone()),
        None => None,
    };
    FlakeRef::new(flake.reference().to_owned(), directory)
}

impl<'services, E: FlakeEngine, R: ProcessRunner, P: AppOutputPolicy> StandardCommands<
    'services,
    E,
    R,
    P,
> {
    /// What realizes.
    pub closed spec fn engine(&self) -> &E {
        self.engine
    }

    /// What runs an app.
    pub closed spec fn runner(&self) -> &R {
        self.runner
    }

    /// The cancellation of this operation context.
    pub closed spec fn cancellation(&self) -> &Cancellation {
        self.cancellation
    }

    /// What becomes of an app's streams.
    pub closed spec fn output(&self) -> &P {
        self.output
    }

    /// The directory and the environment of an app.
    pub closed spec fn execution(&self) -> &AppExecutionPolicy {
        self.execution
    }

    /// The engine was asked for `model` and answered `reply`.
    pub open spec fn answered(
        &self,
        model: RequestModel,
        reply: Result<EngineResponse, EngineError>,
    ) -> bool {
        exists|request: EngineRequest|
            request@ == model && #[trigger] call_ensures(
                E::execute,
                (self.engine(), request),
                reply,
            )
    }

    /// Checks of these names were asked for and settled so; an empty name is rejected before that.
    pub open spec fn checked(
        &self,
        flake: Flake,
        names: Seq<Seq<char>>,
        result: Result<(), ErrorModel>,
    ) -> bool {
        if names.contains(Seq::<char>::empty()) {
            result == Err::<(), ErrorModel>(name_error())
        } else {
            self.realized(
                RequestModel::Check { flake: requested_flake(flake), targets: names },
                "check"@,
                result,
            )
        }
    }

    /// The engine was asked for `model`, and its answer means `result`.
    pub open spec fn realized(
        &self,
        model: RequestModel,
        operation: Seq<char>,
        result: Result<(), ErrorModel>,
    ) -> bool {
        exists|reply: Result<EngineResponse, EngineError>, held: i32| #[trigger]
            self.answered(model, reply) && #[trigger] self.cancellation().may_hold(held) && result
                == realization(reply, operation, process::held_signal(held))
    }

    /// The engine was asked for the outputs of a flake, and its answer means `result`.
    pub open spec fn found(
        &self,
        flake: Flake,
        result: Result<DiscoveredTargets, ErrorModel>,
    ) -> bool {
        exists|reply: Result<EngineResponse, EngineError>, held: i32| #[trigger]
            self.answered(RequestModel::Discover { flake: requested_flake(flake) }, reply)
                && #[trigger] self.cancellation().may_hold(held) && result == discovery(
                reply,
                process::held_signal(held),
            )
    }

    /// The process that a prepared app becomes.
    pub open spec fn launches(&self, prepared: PreparedRun, spec: ProcessSpec) -> bool {
        &&& spec.program@ == vstd::utf8::encode_utf8(prepared.program@)
        &&& spec.args == prepared.arguments
        &&& spec.cwd == self.execution().directory()
        &&& spec.env@ == self.execution().variables()
        &&& spec.stdin is Inherit
        &&& call_ensures(P::stdout, (self.output(),), spec.stdout)
        &&& call_ensures(P::stderr, (self.output(),), spec.stderr)
    }

    /// Creates a dispatcher. `engine` and `cancellation` must refer to the same operation context.
    pub fn new(
        engine: &'services E,
        runner: &'services R,
        cancellation: &'services Cancellation,
        output: &'services P,
        execution: &'services AppExecutionPolicy,
    ) -> (result: Self)
        ensures
            result.engine() == engine,
            result.runner() == runner,
            result.cancellation() == cancellation,
            result.output() == output,
            result.execution() == execution,
    {
        StandardCommands { engine, runner, cancellation, output, execution }
    }

    /// Builds one package.
    pub fn build(&self, flake: &Flake, name: &str) -> (result: Result<(), Error>)
        ensures
            if name@.len() == 0 {
                result matches Err(error) && error@ == name_error()
            } else {
                exists|model: Result<(), ErrorModel>| #[trigger]
                    self.realized(
                        RequestModel::Build {
                            flake: requested_flake(*flake),
                            targets: seq![name@],
                            out_link: None,
                        },
                        "build"@,
                        model,
                    ) && outcome::agrees(result, model)
            },
    {
        let name = match valid_name(name) {
            Ok(name) => name,
            Err(error) => {
                return Err(error);
            },
        };
        let ghost wanted = name@;
        let mut targets: Vec<String> = Vec::new();
        targets.push(name);
        assert(targets.deep_view() =~= seq![wanted]);
        self.realize(
            EngineRequest::Build(
                BuildRequest { flake: engine_flake(flake), targets, out_link: None },
            ),
            "build",
        )
    }

    /// Discovers and builds every package together.
    pub fn build_all(&self, flake: &Flake) -> (result: Result<Vec<String>, Error>)
        ensures
            exists|found: Result<DiscoveredTargets, ErrorModel>| #[trigger]
                self.found(*flake, found) && match found {
                    Err(expected) => result matches Err(error) && error@ == expected,
                    Ok(targets) => exists|built: Result<(), ErrorModel>| #[trigger]
                        self.realized(
                            RequestModel::Build {
                                flake: requested_flake(*flake),
                                targets: targets.packages.deep_view(),
                                out_link: None,
                            },
                            "build"@,
                            built,
                        ) && match (result, built) {
                            (Ok(names), Ok(_)) => names.deep_view()
                                == targets.packages.deep_view(),
                            (Err(error), Err(expected)) => error@ == expected,
                            _ => false,
                        },
                },
    {
        let packages = match self.discover(flake) {
            Ok(targets) => targets.packages,
            Err(error) => {
                return Err(error);
            },
        };
        let targets = text::copy_list(&packages);
        match self.realize(
            EngineRequest::Build(
                BuildRequest { flake: engine_flake(flake), targets, out_link: None },
            ),
            "build",
        ) {
            Ok(_) => Ok(packages),
            Err(error) => Err(error),
        }
    }

    /// Discovers and runs every check together.
    pub fn check_all(&self, flake: &Flake) -> (result: Result<Vec<String>, Error>)
        ensures
            exists|found: Result<DiscoveredTargets, ErrorModel>| #[trigger]
                self.found(*flake, found) && match found {
                    Err(expected) => result matches Err(error) && error@ == expected,
                    Ok(targets) => exists|done: Result<(), ErrorModel>| #[trigger]
                        self.checked(*flake, targets.checks.deep_view(), done) && match (
                            result,
                            done,
                        ) {
                            (Ok(names), Ok(_)) => names.deep_view() == targets.checks.deep_view(),
                            (Err(error), Err(expected)) => error@ == expected,
                            _ => false,
                        },
                },
    {
        let checks = match self.discover(flake) {
            Ok(targets) => targets.checks,
            Err(error) => {
                return Err(error);
            },
        };
        match self.check_names(flake, &checks) {
            Ok(_) => Ok(checks),
            Err(error) => Err(error),
        }
    }

    /// Selects checks through caller policy, then realizes the selection together.
    pub fn check_selected<S: CheckSelector>(
        &self,
        flake: &Flake,
        scope: &str,
        selector: &S,
    ) -> (result: Result<Vec<String>, Error>)
        ensures
            exists|found: Result<DiscoveredTargets, ErrorModel>| #[trigger]
                self.found(*flake, found) && match found {
                    Err(expected) => result matches Err(error) && error@ == expected,
                    Ok(targets) => exists|offered: &[String], choice: Result<Vec<String>, Error>|
                        {
                            &&& offered@ == targets.checks@
                            &&& #[trigger] call_ensures(
                                S::select,
                                (selector, scope, offered),
                                choice,
                            )
                            &&& match choice {
                                Err(expected) => result matches Err(error) && error@ == expected@,
                                Ok(selected) => match accepted(
                                    selected.deep_view(),
                                    targets.checks.deep_view(),
                                ) {
                                    Err(expected) => result matches Err(error) && error@
                                        == expected,
                                    Ok(names) => exists|done: Result<(), ErrorModel>| #[trigger]
                                        self.checked(*flake, names, done) && match (result, done) {
                                            (Ok(given), Ok(_)) => given.deep_view() == names,
                                            (Err(error), Err(expected)) => error@ == expected,
                                            _ => false,
                                        },
                                },
                            }
                        },
                },
    {
        let targets = match self.discover(flake) {
            Ok(targets) => targets,
            Err(error) => {
                return Err(error);
            },
        };
        let checks = targets.checks;
        let choice = selector.select(scope, checks.as_slice());
        let selected = match choice {
            Ok(selected) => selected,
            Err(error) => {
                return Err(error);
            },
        };
        let names = match accept_selection(&selected, &checks) {
            Ok(names) => names,
            Err(error) => {
                return Err(error);
            },
        };
        match self.check_names(flake, &names) {
            Ok(_) => Ok(names),
            Err(error) => Err(error),
        }
    }

    /// Realizes an app through the engine, then executes the prepared program.
    pub fn run(&self, flake: &Flake, name: &str, trailing_args: &Vec<Vec<u8>>) -> (result: Result<
        (),
        Error,
    >)
        ensures
            if name@.len() == 0 {
                result matches Err(error) && error@ == name_error()
            } else {
                exists|reply: Result<EngineResponse, EngineError>, held: i32| #[trigger]
                    self.answered(
                        RequestModel::Run {
                            flake: requested_flake(*flake),
                            app: name@,
                            arguments: trailing_args.deep_view(),
                        },
                        reply,
                    ) && #[trigger] self.cancellation().may_hold(held) && match preparation(
                        reply,
                        process::held_signal(held),
                    ) {
                        Err(expected) => result matches Err(error) && error@ == expected,
                        Ok(prepared) => exists|
                            spec: ProcessSpec,
                            ended: Result<ProcessResult, Error>,
                        |
                            self.launches(prepared, spec) && #[trigger] call_ensures(
                                R::run,
                                (self.runner(), &spec, self.cancellation()),
                                ended,
                            ) && match ended {
                                Err(expected) => result matches Err(error) && error@ == expected@,
                                Ok(child) => if child.termination
                                    == process::ChildTermination::Exited(0) {
                                    result is Ok
                                } else {
                                    result matches Err(error) && error@ == process::failure(
                                        spec.program@,
                                        child.termination,
                                    )
                                },
                            },
                    }
            },
    {
        let name = match valid_name(name) {
            Ok(name) => name,
            Err(error) => {
                return Err(error);
            },
        };
        let request = EngineRequest::Run(
            RunRequest {
                flake: engine_flake(flake),
                app: name,
                arguments: process::copy_arguments(trailing_args),
            },
        );
        let ghost asked = request;
        let reply = self.engine.execute(request);
        let signal = self.cancellation.signal();
        proof {
            let model = RequestModel::Run {
                flake: requested_flake(*flake),
                app: asked->Run_0.app@,
                arguments: trailing_args.deep_view(),
            };
            assert(call_ensures(E::execute, (self.engine(), asked), reply));
            assert(self.answered(model, reply));
            let held = choose|held: i32| #[trigger]
                self.cancellation().may_hold(held) && signal == process::held_signal(held);
            assert(self.cancellation().may_hold(held));
        }
        let prepared = match settle_preparation(reply, signal) {
            Ok(prepared) => prepared,
            Err(error) => {
                return Err(error);
            },
        };
        let ghost ready = prepared;
        let mut program: Vec<u8> = Vec::new();
        program.extend_from_slice(prepared.program.as_str().as_bytes());
        assert(program@ =~= vstd::utf8::encode_utf8(prepared.program@));
        let mut spec = ProcessSpec::new(program, prepared.arguments);
        self.execution.apply(&mut spec);
        spec.stdout = self.output.stdout();
        spec.stderr = self.output.stderr();
        let ended = self.runner.run(&spec, self.cancellation);
        proof {
            assert(self.launches(ready, spec));
            assert(call_ensures(R::run, (self.runner(), &spec, self.cancellation()), ended));
            assert(preparation(reply, signal) == Ok::<PreparedRun, ErrorModel>(ready));
        }
        match ended {
            Err(error) => Err(error),
            Ok(child) => {
                if child.termination.success() {
                    Ok(())
                } else {
                    Err(process::child_failure(&spec.program, child.termination))
                }
            },
        }
    }

    fn discover(&self, flake: &Flake) -> (result: Result<DiscoveredTargets, Error>)
        ensures
            exists|found: Result<DiscoveredTargets, ErrorModel>| #[trigger]
                self.found(*flake, found) && outcome::agrees(result, found),
    {
        let request = EngineRequest::Discover(DiscoverRequest { flake: engine_flake(flake) });
        let ghost asked = request;
        let reply = self.engine.execute(request);
        let signal = self.cancellation.signal();
        assert(call_ensures(E::execute, (self.engine(), asked), reply));
        assert(self.answered(RequestModel::Discover { flake: requested_flake(*flake) }, reply));
        proof {
            let held = choose|held: i32| #[trigger]
                self.cancellation().may_hold(held) && signal == process::held_signal(held);
            assert(self.cancellation().may_hold(held));
        }
        assert(self.found(*flake, discovery(reply, signal)));
        settle_discovery(reply, signal)
    }

    fn check_names(&self, flake: &Flake, names: &Vec<String>) -> (result: Result<(), Error>)
        ensures
            exists|done: Result<(), ErrorModel>| #[trigger]
                self.checked(*flake, names.deep_view(), done) && outcome::agrees(result, done),
    {
        if crate::flake::has_empty(names) {
            assert(self.checked(*flake, names.deep_view(), Err(name_error())));
            return Err(Error::usage("invalid standard flake output name ".to_owned()));
        }
        let result = self.realize(
            EngineRequest::Check(
                CheckRequest { flake: engine_flake(flake), targets: text::copy_list(names) },
            ),
            "check",
        );
        proof {
            let model = RequestModel::Check {
                flake: requested_flake(*flake),
                targets: names.deep_view(),
            };
            let done = choose|done: Result<(), ErrorModel>| #[trigger]
                self.realized(model, "check"@, done) && outcome::agrees(result, done);
            assert(self.checked(*flake, names.deep_view(), done));
        }
        result
    }

    fn realize(&self, request: EngineRequest, operation: &str) -> (result: Result<(), Error>)
        ensures
            exists|model: Result<(), ErrorModel>| #[trigger]
                self.realized(request@, operation@, model) && outcome::agrees(result, model),
    {
        let ghost asked = request;
        let reply = self.engine.execute(request);
        let signal = self.cancellation.signal();
        assert(call_ensures(E::execute, (self.engine(), asked), reply));
        assert(self.answered(request@, reply));
        proof {
            let held = choose|held: i32| #[trigger]
                self.cancellation().may_hold(held) && signal == process::held_signal(held);
            assert(self.cancellation().may_hold(held));
        }
        assert(self.realized(request@, operation@, realization(reply, operation@, signal)));
        settle_realization(reply, operation, signal)
    }
}

fn valid_name(name: &str) -> (result: Result<String, Error>)
    ensures
        match result {
            Ok(valid) => name@.len() > 0 && valid@ == name@,
            Err(error) => name@.len() == 0 && error@ == name_error(),
        },
{
    if name.is_empty() {
        Err(Error::usage("invalid standard flake output name ".to_owned()))
    } else {
        Ok(name.to_owned())
    }
}

/// A failed operation is reported with the first message of error severity, whatever stands before
/// and behind it, and with its own name where there is none.
pub proof fn law_failures_report_the_first_error(
    manifest: Manifest,
    operation: Seq<char>,
    signal: Option<i32>,
    k: int,
)
    requires
        manifest.outcome is Failed,
        0 <= k <= manifest.diagnostics@.len(),
        forall|i: int|
            0 <= i < k ==> (#[trigger] manifest.diagnostics@[i]).severity
                != DiagnosticSeverity::Error,
        k < manifest.diagnostics@.len() ==> manifest.diagnostics@[k].severity
            == DiagnosticSeverity::Error,
    ensures
        verdict(manifest, operation, signal) matches Err(error) && error.kind is Child
            && error.exit_code == 1 && error.message == if k < manifest.diagnostics@.len() {
            manifest.diagnostics@[k].message@
        } else {
            operation + " failed"@
        },
{
    lemma_first_error(manifest.diagnostics@, k);
}

proof fn lemma_first_error(diagnostics: Seq<Diagnostic>, k: int)
    requires
        0 <= k <= diagnostics.len(),
        forall|i: int|
            0 <= i < k ==> (#[trigger] diagnostics[i]).severity != DiagnosticSeverity::Error,
        k < diagnostics.len() ==> diagnostics[k].severity == DiagnosticSeverity::Error,
    ensures
        first_error(diagnostics) == if k < diagnostics.len() {
            Some(diagnostics[k].message@)
        } else {
            None
        },
    decreases k,
{
    if k > 0 {
        let rest = diagnostics.drop_first();
        assert(diagnostics[0].severity != DiagnosticSeverity::Error);
        assert forall|i: int| 0 <= i < k - 1 implies (#[trigger] rest[i]).severity
            != DiagnosticSeverity::Error by {
            assert(diagnostics[i + 1].severity != DiagnosticSeverity::Error);
        }
        lemma_first_error(rest, k - 1);
    }
}

/// An engine's error keeps its message. It counts as cancellation, with the signal in its status or
/// an interrupt where none is known, exactly where the engine says so.
pub proof fn law_engine_errors_keep_their_message(error: EngineError, signal: i32)
    requires
        0 < signal < 128,
    ensures
        engine_failure(error, Some(signal)).message == error.message_text(),
        engine_failure(error, Some(signal)).kind is Cancelled <==> error.code_text()
            == "cancelled"@,
        error.code_text() == "cancelled"@ ==> engine_failure(error, Some(signal)).exit_code == 128
            + signal && engine_failure(error, None).exit_code == 130,
        error.code_text() != "cancelled"@ ==> engine_failure(error, Some(signal)).kind is External
            && engine_failure(error, Some(signal)).exit_code == 1,
{
}

/// A command succeeds on the answer it asked for, and on no other: a realization on a realization
/// that succeeded, a discovery on the targets found, a run on an app whose realization succeeded.
pub proof fn law_only_the_fitting_answer_succeeds(
    reply: Result<EngineResponse, EngineError>,
    operation: Seq<char>,
    signal: Option<i32>,
)
    ensures
        realization(reply, operation, signal) is Ok <==> (reply matches Ok(
            EngineResponse::Realization(manifest),
        ) && manifest.outcome is Success),
        discovery(reply, signal) is Ok <==> (reply matches Ok(EngineResponse::Discovery(_))),
        reply matches Ok(EngineResponse::Discovery(targets)) ==> discovery(reply, signal)
            == Ok::<DiscoveredTargets, ErrorModel>(targets),
        preparation(reply, signal) is Ok <==> (reply matches Ok(
            EngineResponse::PreparedRun(prepared),
        ) && prepared.manifest.outcome is Success),
        preparation(reply, signal) matches Ok(prepared) ==> reply matches Ok(
            EngineResponse::PreparedRun(given),
        ) && given == prepared,
        reply matches Err(error) ==> {
            &&& realization(reply, operation, signal) == Err::<(), ErrorModel>(
                engine_failure(error, signal),
            )
            &&& discovery(reply, signal) == Err::<DiscoveredTargets, ErrorModel>(
                engine_failure(error, signal),
            )
            &&& preparation(reply, signal) == Err::<PreparedRun, ErrorModel>(
                engine_failure(error, signal),
            )
        },
{
}

proof fn lemma_first_unknown(names: Seq<Seq<char>>, checks: Seq<Seq<char>>)
    requires
        ordered::ascending(names),
    ensures
        match first_unknown(names, checks) {
            Some(name) => {
                &&& names.contains(name)
                &&& !checks.contains(name)
                &&& forall|other: Seq<char>| #[trigger]
                    names.contains(other) && !checks.contains(other) ==> other == name
                        || text::precedes(name, other)
            },
            None => forall|other: Seq<char>| #[trigger]
                names.contains(other) ==> checks.contains(other),
        },
    decreases names.len(),
{
    if names.len() > 0 {
        let rest = names.drop_first();
        assert forall|i: int, j: int| 0 <= i < j < rest.len() implies text::precedes(
            #[trigger] rest[i],
            #[trigger] rest[j],
        ) by {
            assert(text::precedes(names[i + 1], names[j + 1]));
        }
        assert(names.contains(names[0]));
        assert forall|other: Seq<char>| #[trigger] names.contains(other) implies other == names[0]
            || (rest.contains(other) && text::precedes(names[0], other)) by {
            let i = names.index_of(other);
            if i > 0 {
                assert(rest[i - 1] == other);
                assert(text::precedes(names[0], names[i]));
            }
        }
        assert forall|other: Seq<char>| #[trigger] rest.contains(other) implies names.contains(
            other,
        ) by {
            assert(names[rest.index_of(other) + 1] == other);
        }
        lemma_first_unknown(rest, checks);
    }
}

/// A selection is rejected exactly where it holds a check that was not discovered, and the first
/// such check is named; an accepted one is in order, each check once.
pub proof fn law_unknown_checks_are_rejected(selected: Seq<Seq<char>>, checks: Seq<Seq<char>>)
    ensures
        accepted(selected, checks) is Ok <==> forall|name: Seq<char>| #[trigger]
            selected.contains(name) ==> checks.contains(name),
        accepted(selected, checks) matches Ok(names) ==> forall|i: int, j: int|
            0 <= i < j < names.len() ==> text::precedes(#[trigger] names[i], #[trigger] names[j]),
        accepted(selected, checks) matches Err(error) ==> exists|name: Seq<char>| #[trigger]
            selected.contains(name) && !checks.contains(name) && error.message
                == "selector chose unknown check "@ + name && (forall|other: Seq<char>| #[trigger]
                selected.contains(other) && !checks.contains(other) ==> other == name
                    || text::precedes(name, other)),
        accepted(selected, checks) matches Err(error) ==> error.kind is Usage,
{
    vstd::seq_lib::seq_to_set_is_finite(selected);
    ordered::lemma_finite_listing(selected.to_set());
    let names = ordered::listing(selected.to_set());
    lemma_first_unknown(names, checks);
    assert forall|name: Seq<char>| #[trigger] selected.contains(name) <==> names.contains(name) by {
        assert(selected.to_set().contains(name) <==> names.contains(name));
    }
    if let Some(name) = first_unknown(names, checks) {
        assert(selected.contains(name));
    }
}

/// A request names the flake as the caller does, with its reference and the directory it is
/// resolved from.
pub proof fn law_requests_name_the_flake(flake: Flake)
    ensures
        requested_flake(flake).reference == flake.reference_text(),
        requested_flake(flake).directory == flake.directory(),
{
}

/// A command that realizes something asks the engine for just that, and succeeds if and only if the
/// engine answers with a realization that succeeded.
pub proof fn law_commands_follow_the_engine<E: FlakeEngine, R: ProcessRunner, P: AppOutputPolicy>(
    commands: StandardCommands<E, R, P>,
    model: RequestModel,
    operation: Seq<char>,
    result: Result<(), ErrorModel>,
)
    requires
        commands.realized(model, operation, result),
    ensures
        exists|request: EngineRequest, reply: Result<EngineResponse, EngineError>|
            {
                &&& request@ == model
                &&& #[trigger] call_ensures(E::execute, (commands.engine(), request), reply)
                &&& result is Ok <==> (reply matches Ok(EngineResponse::Realization(manifest))
                    && manifest.outcome is Success)
            },
{
    let (reply, held) = choose|reply: Result<EngineResponse, EngineError>, held: i32| #[trigger]
        commands.answered(model, reply) && #[trigger] commands.cancellation().may_hold(held)
            && result == realization(reply, operation, process::held_signal(held));
    let request = choose|request: EngineRequest|
        request@ == model && #[trigger] call_ensures(
            E::execute,
            (commands.engine(), request),
            reply,
        );
    law_only_the_fitting_answer_succeeds(reply, operation, process::held_signal(held));
    assert(call_ensures(E::execute, (commands.engine(), request), reply));
}

/// Checks are asked for by their names, all of them and in their order, unless one is empty, which
/// asks for nothing and fails.
pub proof fn law_checks_are_asked_for_by_name<E: FlakeEngine, R: ProcessRunner, P: AppOutputPolicy>(
    commands: StandardCommands<E, R, P>,
    flake: Flake,
    names: Seq<Seq<char>>,
    result: Result<(), ErrorModel>,
)
    requires
        commands.checked(flake, names, result),
    ensures
        names.contains(Seq::<char>::empty()) ==> (result matches Err(error) && error.kind is Usage),
        !names.contains(Seq::<char>::empty()) ==> exists|
            request: EngineRequest,
            reply: Result<EngineResponse, EngineError>,
        |
            {
                &&& #[trigger] call_ensures(E::execute, (commands.engine(), request), reply)
                &&& request matches EngineRequest::Check(asked) && asked.targets.deep_view()
                    == names && asked.flake@.reference == flake.reference_text()
                    && asked.flake@.directory == flake.directory()
                &&& result is Ok <==> (reply matches Ok(EngineResponse::Realization(manifest))
                    && manifest.outcome is Success)
            },
{
    if !names.contains(Seq::<char>::empty()) {
        let model = RequestModel::Check { flake: requested_flake(flake), targets: names };
        law_commands_follow_the_engine(commands, model, "check"@, result);
        let (request, reply) = choose|
            request: EngineRequest,
            reply: Result<EngineResponse, EngineError>,
        |
            {
                &&& request@ == model
                &&& #[trigger] call_ensures(E::execute, (commands.engine(), request), reply)
                &&& result is Ok <==> (reply matches Ok(EngineResponse::Realization(manifest))
                    && manifest.outcome is Success)
            };
        assert(call_ensures(E::execute, (commands.engine(), request), reply));
    }
}

/// A discovery asks the engine for the outputs of the flake, and gives what the engine found.
pub proof fn law_discoveries_give_what_was_found<
    E: FlakeEngine,
    R: ProcessRunner,
    P: AppOutputPolicy,
>(
    commands: StandardCommands<E, R, P>,
    flake: Flake,
    result: Result<DiscoveredTargets, ErrorModel>,
)
    requires
        commands.found(flake, result),
    ensures
        exists|request: EngineRequest, reply: Result<EngineResponse, EngineError>|
            {
                &&& #[trigger] call_ensures(E::execute, (commands.engine(), request), reply)
                &&& request matches EngineRequest::Discover(asked) && asked.flake@.reference
                    == flake.reference_text() && asked.flake@.directory == flake.directory()
                &&& match reply {
                    Ok(EngineResponse::Discovery(targets)) => result == Ok::<
                        DiscoveredTargets,
                        ErrorModel,
                    >(targets),
                    _ => result is Err,
                }
            },
{
    let model = RequestModel::Discover { flake: requested_flake(flake) };
    let (reply, held) = choose|reply: Result<EngineResponse, EngineError>, held: i32| #[trigger]
        commands.answered(model, reply) && #[trigger] commands.cancellation().may_hold(held)
            && result == discovery(reply, process::held_signal(held));
    let request = choose|request: EngineRequest|
        request@ == model && #[trigger] call_ensures(
            E::execute,
            (commands.engine(), request),
            reply,
        );
    law_only_the_fitting_answer_succeeds(reply, "discovery"@, process::held_signal(held));
    assert(call_ensures(E::execute, (commands.engine(), request), reply));
}

/// An app is executed as it was prepared, with its own arguments, where and with what the policy
/// says, with the program's input and with streams as the output policy says.
pub proof fn law_apps_are_executed_as_prepared<E: FlakeEngine, R: ProcessRunner, P: AppOutputPolicy>(
    commands: StandardCommands<E, R, P>,
    prepared: PreparedRun,
    spec: ProcessSpec,
)
    requires
        commands.launches(prepared, spec),
    ensures
        spec.program@ == vstd::utf8::encode_utf8(prepared.program@),
        spec.args@ == prepared.arguments@,
        spec.cwd == commands.execution().directory(),
        spec.env@ == commands.execution().variables(),
        spec.stdin is Inherit,
        call_ensures(P::stdout, (commands.output(),), spec.stdout),
        call_ensures(P::stderr, (commands.output(),), spec.stderr),
{
}

} // verus!
