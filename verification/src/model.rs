//! Requests, results and identities shared by the engine and its callers.

use std::sync::Arc;

use vstd::prelude::*;

use crate::ordered::{StringMap, StringSet};

verus! {

/// `std::path::PathBuf`, carried and never looked into.
#[verifier::external_type_specification]
#[verifier::external_body]
pub struct ExPathBuf(std::path::PathBuf);

/// A flake reference and the directory from which Nix should resolve it.
#[derive(Debug, PartialEq, Eq)]
pub struct FlakeRef {
    /// Nix flake reference, such as `.` or `path:/workspace`.
    pub reference: String,
    /// Optional child working directory.
    pub working_directory: Option<std::path::PathBuf>,
}

impl FlakeRef {
    /// Creates a flake reference without applying repository policy.
    pub fn new(reference: String, working_directory: Option<std::path::PathBuf>) -> (result: Self)
        ensures
            result.reference@ == reference@,
            result.working_directory == working_directory,
    {
        FlakeRef { reference, working_directory }
    }
}

impl Clone for FlakeRef {
    fn clone(&self) -> (result: Self)
        ensures
            result@ == self@,
    {
        FlakeRef {
            reference: self.reference.clone(),
            working_directory: crate::process::copy_path(&self.working_directory),
        }
    }
}

/// What a flake reference says.
#[verifier::ext_equal]
pub struct FlakeModel {
    /// Nix flake reference.
    pub reference: Seq<char>,
    /// Optional child working directory.
    pub directory: Option<std::path::PathBuf>,
}

impl View for FlakeRef {
    type V = FlakeModel;

    open spec fn view(&self) -> FlakeModel {
        FlakeModel { reference: self.reference@, directory: self.working_directory }
    }
}

/// A substituter the caller explicitly trusts for this engine invocation.
#[derive(Clone, Debug, PartialEq, Eq)]
pub struct TrustedSubstituter {
    /// Nix store URL.
    pub url: String,
    /// Public signing keys trusted for paths obtained from this substituter.
    pub public_keys: StringSet,
}

/// Hard bounds for evaluation, graph construction, diagnostics, and parallel work.
#[derive(Clone, Copy, Debug, PartialEq, Eq)]
pub struct ResourceLimits {
    /// Maximum roots evaluated by one Nix child.
    pub evaluation_batch_size: usize,
    /// Maximum concurrent evaluation children.
    pub evaluation_concurrency: usize,
    /// Maximum substitution jobs and HTTP connections given to Nix.
    pub substitution_concurrency: usize,
    /// Maximum bytes retained from each child stream.
    pub max_process_output_bytes: usize,
    /// Maximum aggregate bytes retained for successful root identities.
    pub max_evaluation_memory_bytes: usize,
    /// Maximum selected roots.
    pub max_roots: usize,
    /// Maximum derivations accepted from `nix derivation show`.
    pub max_graph_nodes: usize,
    /// Maximum bytes retained in one structured diagnostic stream.
    pub max_diagnostic_bytes: usize,
}

/// The bounds that hold where the caller sets none.
pub open spec fn default_limits() -> ResourceLimits {
    ResourceLimits {
        evaluation_batch_size: 32,
        evaluation_concurrency: 4,
        substitution_concurrency: 4,
        max_process_output_bytes: 8_388_608,
        max_evaluation_memory_bytes: 33_554_432,
        max_roots: 4_096,
        max_graph_nodes: 65_536,
        max_diagnostic_bytes: 8_192,
    }
}

impl Default for ResourceLimits {
    fn default() -> (result: Self)
        ensures
            result == default_limits(),
    {
        ResourceLimits {
            evaluation_batch_size: 32,
            evaluation_concurrency: 4,
            substitution_concurrency: 4,
            max_process_output_bytes: 8_388_608,
            max_evaluation_memory_bytes: 33_554_432,
            max_roots: 4_096,
            max_graph_nodes: 65_536,
            max_diagnostic_bytes: 8_192,
        }
    }
}

/// Inputs shared by every operation of one engine.
#[derive(Clone, Debug, PartialEq, Eq)]
pub struct EngineConfig {
    /// Nix executable path or name, as raw bytes.
    pub nix_executable: Vec<u8>,
    /// System whose standard flake outputs are addressed.
    pub system: crate::flake::NixSystem,
    /// Complete ordered set of trusted remote substituters.
    pub trusted_substituters: Vec<TrustedSubstituter>,
    /// Resource bounds and concurrency.
    pub limits: ResourceLimits,
}

impl EngineConfig {
    /// Creates a local-only configuration with bounded defaults.
    pub fn new(nix_executable: Vec<u8>, system: crate::flake::NixSystem) -> (result: Self)
        ensures
            result.nix_executable == nix_executable,
            result.system == system,
            result.trusted_substituters@.len() == 0,
            result.limits == default_limits(),
    {
        EngineConfig {
            nix_executable,
            system,
            trusted_substituters: Vec::new(),
            limits: ResourceLimits::default(),
        }
    }
}

/// Injectable wall clock used for manifest timing.
pub trait Clock: Send + Sync {
    /// Returns milliseconds since an implementation-defined epoch.
    fn now_millis(&self) -> u64;
}

/// Wall clock backed by the system time.
#[derive(Clone, Copy, Debug, Default)]
pub struct SystemClock;

/// `std::time::SystemTime::now` and `duration_since`: the milliseconds since the Unix epoch, or
/// `None` where the system time lies before it. The reading differs from call to call, so nothing
/// is stated of it.
#[verifier::external_body]
fn system_millis() -> Option<u128> {
    match std::time::SystemTime::now().duration_since(std::time::UNIX_EPOCH) {
        Ok(elapsed) => Some(elapsed.as_millis()),
        Err(_) => None,
    }
}

/// `elapsed` is what reading the system time may give.
pub closed spec fn is_system_reading(elapsed: Option<u128>) -> bool {
    call_ensures(system_millis, (), elapsed)
}

/// A clock reading in the range a manifest records: zero before the epoch, and the largest value
/// where the reading does not fit.
pub open spec fn manifest_range(elapsed: Option<u128>) -> int {
    match elapsed {
        None => 0,
        Some(millis) => if millis <= u64::MAX {
            millis as int
        } else {
            u64::MAX as int
        },
    }
}

/// Returns a clock reading in the range a manifest records: zero before the epoch, and the largest
/// value where the reading does not fit.
pub fn manifest_millis(elapsed: Option<u128>) -> (result: u64)
    ensures
        result == manifest_range(elapsed),
{
    match elapsed {
        None => 0,
        Some(millis) => {
            if millis <= u64::MAX as u128 {
                millis as u64
            } else {
                u64::MAX
            }
        },
    }
}

impl Clock for SystemClock {
    fn now_millis(&self) -> (result: u64)
        ensures
            exists|elapsed: Option<u128>| #[trigger]
                is_system_reading(elapsed) && result == manifest_range(elapsed),
    {
        let elapsed = system_millis();
        assert(is_system_reading(elapsed));
        manifest_millis(elapsed)
    }
}

/// Engine phase exposed to progress reporters and diagnostics.
#[derive(Clone, Copy, Debug, PartialEq, Eq, PartialOrd, Ord, Structural)]
pub enum Phase {
    /// Standard output discovery.
    Discovery,
    /// Selected root evaluation.
    Evaluation,
    /// Derivation graph construction.
    Graph,
    /// Local and trusted remote availability probes.
    Probe,
    /// Dependency-first realization.
    Realization,
}

/// Settled state of a derivation or requested root.
#[derive(Clone, Copy, Debug, PartialEq, Eq, PartialOrd, Ord, Structural)]
pub enum NodeState {
    /// Every required output was already in the local store.
    Cached,
    /// At least one required output was advertised by a trusted substituter.
    Substituted,
    /// At least one required output was not advertised and was built.
    Built,
    /// Nix confirmed the outputs without saying where they came from.
    Realized,
    /// Evaluation or realization failed.
    Failed,
    /// A prerequisite failed.
    Skipped,
    /// Cancellation settled the work.
    Cancelled,
}

/// Progress events emitted without imposing a renderer.
#[derive(Clone, Debug, PartialEq, Eq)]
pub enum ProgressEvent {
    /// A phase began.
    PhaseStarted(Phase),
    /// A phase ended.
    PhaseFinished(Phase),
    /// The validated derivation graph was discovered.
    GraphDiscovered(Vec<Arc<DerivationNode>>),
    /// The graph leaves transitive derivations out.
    GraphIncomplete,
    /// One derivation began realization.
    NodeStarted {
        /// Derivation path.
        drv_path: String,
    },
    /// The last running activity of a derivation stopped.
    NodeActivityStopped {
        /// Derivation path.
        drv_path: String,
    },
    /// A derivation seems to have settled, which its result still has to confirm.
    NodeProvisionalFinished {
        /// Derivation path.
        drv_path: String,
        /// Likely final state.
        state: NodeState,
    },
    /// A derivation wrote a log line.
    NodeLogLine {
        /// Derivation path.
        drv_path: String,
        /// The line without its end.
        line: String,
    },
    /// A derivation's outputs are being transferred.
    NodeProgress {
        /// Derivation path.
        drv_path: String,
        /// Bytes transferred.
        done: u64,
        /// Bytes to transfer.
        expected: u64,
    },
    /// One derivation settled.
    NodeFinished {
        /// Derivation path.
        drv_path: String,
        /// Final state.
        state: NodeState,
    },
    /// The operation observed cancellation.
    Cancelled {
        /// Signal supplied to the cancellation token.
        signal: i32,
    },
}

/// Destination for renderer-neutral engine progress.
pub trait ProgressSink: Send + Sync {
    /// Receives one immutable progress event.
    fn emit(&self, event: ProgressEvent);
}

/// Process, cancellation, clock, and progress adapters of one engine.
pub struct EngineDependencies<'services> {
    /// Executes Nix.
    pub runner: &'services dyn crate::process::ProcessRunner,
    /// Carries requested cancellation.
    pub cancellation: &'services crate::process::Cancellation,
    /// Supplies manifest timestamps.
    pub clock: &'services dyn Clock,
    /// Receives progress.
    pub progress: &'services dyn ProgressSink,
}

/// Progress sink that discards every event.
#[derive(Clone, Copy, Debug, Default)]
pub struct NoProgress;

impl ProgressSink for NoProgress {
    fn emit(&self, event: ProgressEvent) {
    }
}

/// Standard flake output kind.
#[derive(Clone, Copy, Debug, PartialEq, Eq, PartialOrd, Ord, Structural)]
pub enum TargetKind {
    /// `packages.<system>`.
    Package,
    /// `checks.<system>`.
    Check,
    /// `apps.<system>`.
    App,
}

impl TargetKind {
    /// The singular name of a kind.
    pub open spec fn singular(self) -> Seq<char> {
        match self {
            TargetKind::Package => "package"@,
            TargetKind::Check => "check"@,
            TargetKind::App => "app"@,
        }
    }

    /// The flake output attribute of a kind.
    pub open spec fn plural(self) -> Seq<char> {
        match self {
            TargetKind::Package => "packages"@,
            TargetKind::Check => "checks"@,
            TargetKind::App => "apps"@,
        }
    }

    /// Returns the singular stable kind name.
    pub fn as_str(self) -> (result: &'static str)
        ensures
            result@ == self.singular(),
    {
        match self {
            TargetKind::Package => "package",
            TargetKind::Check => "check",
            TargetKind::App => "app",
        }
    }

    /// Returns the flake output attribute that holds the kind.
    pub fn attribute(self) -> (result: &'static str)
        ensures
            result@ == self.plural(),
    {
        match self {
            TargetKind::Package => "packages",
            TargetKind::Check => "checks",
            TargetKind::App => "apps",
        }
    }
}

/// Request to list standard flake outputs for the configured system.
#[derive(Clone, Debug, PartialEq, Eq)]
pub struct DiscoverRequest {
    /// Flake being inspected.
    pub flake: FlakeRef,
}

/// Standard output names, sorted and deduplicated.
#[derive(Clone, Debug, PartialEq, Eq)]
pub struct DiscoveredTargets {
    /// Package names.
    pub packages: Vec<String>,
    /// Check names.
    pub checks: Vec<String>,
    /// App names.
    pub apps: Vec<String>,
}

/// Request to realize selected `packages.<system>` names.
#[derive(Clone, Debug, PartialEq, Eq)]
pub struct BuildRequest {
    /// Flake containing the packages.
    pub flake: FlakeRef,
    /// Exact names selected by the caller, or empty to select every package.
    pub targets: Vec<String>,
    /// Where a result link goes; no link is made where it is absent.
    pub out_link: Option<std::path::PathBuf>,
}

/// Request to realize selected `checks.<system>` names.
#[derive(Clone, Debug, PartialEq, Eq)]
pub struct CheckRequest {
    /// Flake containing the checks.
    pub flake: FlakeRef,
    /// Exact names selected by the caller, or empty to select every check.
    pub targets: Vec<String>,
}

/// Request to realize and prepare one standard flake app.
#[derive(Clone, Debug, PartialEq, Eq)]
pub struct RunRequest {
    /// Flake containing the app.
    pub flake: FlakeRef,
    /// Exact app name selected by the caller.
    pub app: String,
    /// Arguments, as raw bytes, preserved for the caller's eventual exec.
    pub arguments: Vec<Vec<u8>>,
}

/// Realized executable returned to a command layer for policy-controlled exec.
#[derive(Clone, Debug, PartialEq, Eq)]
pub struct PreparedRun {
    /// Evaluated app program.
    pub program: String,
    /// Exact arguments supplied in [`RunRequest`].
    pub arguments: Vec<Vec<u8>>,
    /// Realization record for the app's Nix string context.
    pub manifest: Manifest,
}

/// One derivation in a validated dependency graph.
#[derive(Clone, Debug, PartialEq, Eq)]
pub struct DerivationNode {
    /// Canonical derivation path.
    pub drv_path: String,
    /// Input derivations and the outputs consumed from each.
    pub dependencies: StringMap<StringSet>,
    /// Output names and their known paths.
    pub outputs: StringMap<Option<String>>,
}

/// What a derivation node says.
pub struct NodeModel {
    /// Canonical derivation path.
    pub drv_path: Seq<char>,
    /// Input derivations and the outputs consumed from each.
    pub dependencies: Map<Seq<char>, Set<Seq<char>>>,
    /// Output names and their known paths.
    pub outputs: Map<Seq<char>, Option<Seq<char>>>,
}

impl DeepView for DerivationNode {
    type V = NodeModel;

    open spec fn deep_view(&self) -> NodeModel {
        NodeModel {
            drv_path: self.drv_path@,
            dependencies: self.dependencies.deep_view(),
            outputs: self.outputs.deep_view(),
        }
    }
}

/// The sets of a selection map are well-formed.
pub open spec fn selections_wf(map: StringMap<StringSet>) -> bool {
    &&& map.wf()
    &&& forall|i: int| 0 <= i < map.values().len() ==> (#[trigger] map.values()[i]).wf()
}

impl DerivationNode {
    /// The node's maps are well-formed.
    pub open spec fn wf(&self) -> bool {
        &&& selections_wf(self.dependencies)
        &&& self.outputs.wf()
    }
}

/// Why a dependent node could not be realized.
#[derive(Clone, Debug, PartialEq, Eq)]
pub struct DependencyFailure {
    /// Failed prerequisite derivation.
    pub dependency: String,
}

/// Availability of one required output.
#[derive(Clone, Copy, Debug, PartialEq, Eq, PartialOrd, Ord, Structural)]
pub enum AvailabilityState {
    /// Present in the local store.
    Local,
    /// Advertised by a configured trusted substituter.
    TrustedRemote,
    /// Not found locally or in any healthy configured substituter.
    Missing,
    /// A probe failed, so absence is not proven.
    Unknown,
}

/// Deterministic availability record for one output path.
#[derive(Clone, Debug, PartialEq, Eq)]
pub struct Availability {
    /// Output path.
    pub path: String,
    /// Availability state.
    pub state: AvailabilityState,
    /// Advertising substituter, when remote.
    pub substituter: Option<String>,
    /// NAR byte size when reported.
    pub nar_bytes: Option<u64>,
    /// Download byte size when reported.
    pub download_bytes: Option<u64>,
}

/// Diagnostic severity.
#[derive(Clone, Copy, Debug, PartialEq, Eq, PartialOrd, Ord, Structural)]
pub enum DiagnosticSeverity {
    /// Non-fatal degradation.
    Warning,
    /// Failure affecting a root or node.
    Error,
}

/// Bounded structured engine diagnostic.
#[derive(Clone, Debug, PartialEq, Eq)]
pub struct Diagnostic {
    /// Phase producing the diagnostic.
    pub phase: Phase,
    /// Stable machine-readable code.
    pub code: String,
    /// Severity.
    pub severity: DiagnosticSeverity,
    /// Optional affected root or derivation.
    pub target: Option<String>,
    /// Human-readable message.
    pub message: String,
    /// Bounded captured standard output.
    pub stdout: String,
    /// Bounded captured standard error.
    pub stderr: String,
    /// Whether either diagnostic stream was truncated.
    pub truncated: bool,
}

/// Process count and summed child wall duration for one phase.
#[derive(Clone, Copy, Debug, Default, PartialEq, Eq, Structural)]
pub struct PhaseMetrics {
    /// Number of child invocations.
    pub processes: usize,
    /// Summed child wall duration.
    pub duration_ms: u64,
}

/// Realization metrics for one derivation.
#[derive(Clone, Debug, PartialEq, Eq)]
pub struct NodeMetrics {
    /// Derivation path.
    pub drv_path: String,
    /// Child wall duration, or zero when batched realization cannot attribute time to one node.
    pub duration_ms: u64,
}

/// Aggregate deterministic engine metrics.
#[derive(Clone, Debug, Default, PartialEq, Eq)]
pub struct ManifestMetrics {
    /// Caller clock at operation start.
    pub started_at_ms: u64,
    /// Caller clock at operation end.
    pub finished_at_ms: u64,
    /// Root evaluation work.
    pub evaluation: PhaseMetrics,
    /// Graph evaluation work.
    pub graph: PhaseMetrics,
    /// Availability probe work.
    pub probe: PhaseMetrics,
    /// Realization work.
    pub realization: PhaseMetrics,
    /// Per-node realization duration sorted by derivation path; batched work is timed by
    /// `realization` and leaves individual node durations at zero.
    pub nodes: Vec<NodeMetrics>,
}

/// Result for one exact requested target.
#[derive(Clone, Debug, PartialEq, Eq)]
pub struct RootResult {
    /// Standard output kind.
    pub kind: TargetKind,
    /// Exact target name.
    pub name: String,
    /// Evaluated derivation path.
    pub drv_path: Option<String>,
    /// Selected output names and paths.
    pub outputs: StringMap<String>,
    /// Final state.
    pub state: NodeState,
}

/// Final result for one deduplicated derivation.
#[derive(Clone, Debug, PartialEq, Eq)]
pub struct NodeResult {
    /// Derivation path.
    pub drv_path: String,
    /// Dependency derivations.
    pub dependencies: Vec<String>,
    /// Required outputs.
    pub required_outputs: StringSet,
    /// Produced or already available paths.
    pub produced_paths: Vec<String>,
    /// Final state.
    pub state: NodeState,
    /// Failed prerequisite when skipped.
    pub dependency_failure: Option<DependencyFailure>,
}

/// Aggregate manifest status.
#[derive(Clone, Copy, Debug, PartialEq, Eq, Structural)]
pub enum ManifestOutcome {
    /// Every requested root succeeded.
    Success,
    /// At least one requested root failed or was skipped.
    Failed,
    /// Cancellation interrupted the operation.
    Cancelled,
}

/// Deterministic realization record returned to callers.
#[derive(Clone, Debug, PartialEq, Eq)]
pub struct Manifest {
    /// Manifest schema identifier.
    pub schema: &'static str,
    /// Configured Nix system.
    pub system: String,
    /// Requested roots sorted by kind and name.
    pub roots: Vec<RootResult>,
    /// Validated graph sorted by derivation path.
    pub graph: Vec<Arc<DerivationNode>>,
    /// Output availability sorted by path.
    pub availability: Vec<Availability>,
    /// Node results sorted by derivation path.
    pub nodes: Vec<NodeResult>,
    /// Diagnostics sorted by phase, target, code, and message.
    pub diagnostics: Vec<Diagnostic>,
    /// Stable metrics and caller-clock timestamps.
    pub metrics: ManifestMetrics,
    /// Aggregate outcome.
    pub outcome: ManifestOutcome,
}

/// Public dispatch request for adapter-friendly command layers.
#[derive(Clone, Debug, PartialEq, Eq)]
pub enum EngineRequest {
    /// Discover standard outputs.
    Discover(DiscoverRequest),
    /// Build selected packages.
    Build(BuildRequest),
    /// Realize selected checks.
    Check(CheckRequest),
    /// Prepare a realized app invocation.
    Run(RunRequest),
}

/// What a dispatch request asks for.
#[verifier::ext_equal]
pub enum RequestModel {
    /// Standard outputs of a flake.
    Discover {
        /// The flake.
        flake: FlakeModel,
    },
    /// Packages to realize.
    Build {
        /// The flake.
        flake: FlakeModel,
        /// Their names.
        targets: Seq<Seq<char>>,
        /// Where a result link goes.
        out_link: Option<std::path::PathBuf>,
    },
    /// Checks to realize.
    Check {
        /// The flake.
        flake: FlakeModel,
        /// Their names.
        targets: Seq<Seq<char>>,
    },
    /// An app to prepare.
    Run {
        /// The flake.
        flake: FlakeModel,
        /// Its name.
        app: Seq<char>,
        /// Its arguments.
        arguments: Seq<Seq<u8>>,
    },
}

impl View for EngineRequest {
    type V = RequestModel;

    open spec fn view(&self) -> RequestModel {
        match *self {
            EngineRequest::Discover(request) => RequestModel::Discover { flake: request.flake@ },
            EngineRequest::Build(request) => RequestModel::Build {
                flake: request.flake@,
                targets: request.targets.deep_view(),
                out_link: request.out_link,
            },
            EngineRequest::Check(request) => RequestModel::Check {
                flake: request.flake@,
                targets: request.targets.deep_view(),
            },
            EngineRequest::Run(request) => RequestModel::Run {
                flake: request.flake@,
                app: request.app@,
                arguments: request.arguments.deep_view(),
            },
        }
    }
}

/// Public dispatch response matching [`EngineRequest`].
#[derive(Clone, Debug, PartialEq, Eq)]
pub enum EngineResponse {
    /// Standard output discovery.
    Discovery(DiscoveredTargets),
    /// Package or check realization.
    Realization(Manifest),
    /// Realized app invocation.
    PreparedRun(PreparedRun),
}

/// Adapter-friendly engine dispatch boundary.
pub trait FlakeEngine {
    /// Executes one typed request.
    fn execute(&self, request: EngineRequest) -> Result<EngineResponse, EngineError>;
}

/// Configuration, cancellation, process, or Nix protocol failure.
#[derive(Debug, PartialEq, Eq)]
pub struct EngineError {
    code: &'static str,
    message: String,
}

impl EngineError {
    /// The error's code.
    pub closed spec fn code_text(&self) -> Seq<char> {
        self.code@
    }

    /// The error's message.
    pub closed spec fn message_text(&self) -> Seq<char> {
        self.message@
    }

    /// The error carries this code and this message.
    pub open spec fn says(&self, code: Seq<char>, message: Seq<char>) -> bool {
        self.code_text() == code && self.message_text() == message
    }

    /// Creates an error from a stable code and a message.
    pub fn new(code: &'static str, message: String) -> (result: Self)
        ensures
            result.says(code@, message@),
    {
        EngineError { code, message }
    }

    /// Stable machine-readable code.
    pub fn code(&self) -> (result: &'static str)
        ensures
            result@ == self.code_text(),
    {
        self.code
    }

    /// Human-readable detail.
    pub fn message(&self) -> (result: &str)
        ensures
            result@ == self.message_text(),
    {
        self.message.as_str()
    }
}

impl Clone for EngineError {
    fn clone(&self) -> (result: Self)
        ensures
            result.says(self.code_text(), self.message_text()),
    {
        EngineError { code: self.code, message: self.message.clone() }
    }
}

/// A clock reading that a manifest can record is recorded as it is, a later one is never recorded as
/// an earlier one, and one that cannot be recorded stands at the end of the range it lies beyond.
pub proof fn law_clock_readings_are_recorded(earlier: u128, later: u128)
    requires
        earlier <= later,
    ensures
        earlier <= u64::MAX ==> manifest_range(Some(earlier)) == earlier,
        0 == manifest_range(None) <= manifest_range(Some(earlier)),
        manifest_range(Some(earlier)) <= manifest_range(Some(later)) <= u64::MAX,
        later > u64::MAX ==> manifest_range(Some(later)) == u64::MAX,
{
}

/// The attribute of a kind is its name in the plural.
pub proof fn law_attributes_are_plurals(kind: TargetKind)
    ensures
        kind.plural() == kind.singular() + "s"@,
{
    reveal_strlit("s");
    reveal_strlit("package");
    reveal_strlit("packages");
    reveal_strlit("check");
    reveal_strlit("checks");
    reveal_strlit("app");
    reveal_strlit("apps");
    assert(kind.plural() =~= kind.singular() + "s"@);
}

} // verus!
