//! The document boundary of deterministic scheduling.

use vstd::prelude::*;

use crate::ordered::StringSet;
use crate::outcome;
use crate::outcome::{Error, ErrorKind};
use crate::text;

verus! {

/// What a schedule is computed from.
#[derive(Clone, Debug, PartialEq, Eq)]
pub struct PlanInput {
    /// Graph targets to schedule.
    pub targets: Vec<PlanTargetInput>,
    /// Roots that must be covered by the resulting schedule.
    pub required_roots: StringSet,
    /// Optional caller-supplied timing history.
    pub history: Option<Vec<HistoryInput>>,
    /// Caller-supplied current Unix epoch milliseconds.
    pub now_ms: u64,
    /// Scheduling policy.
    pub config: PlanConfigInput,
}

/// One target of a schedule.
#[derive(Clone, Debug, PartialEq, Eq)]
pub struct PlanTargetInput {
    /// Stable target identity.
    pub id: String,
    /// Stable history identity.
    pub history_key: String,
    /// Target dependencies.
    pub dependencies: StringSet,
    /// Whether the target needs work this run.
    pub needs_work: bool,
    /// Predicted transfer volume.
    pub transfer_bytes: u64,
    /// Requested roots that hold this target.
    pub roots: StringSet,
}

/// Timing history record.
#[derive(Clone, Debug, PartialEq, Eq)]
pub struct HistoryInput {
    /// History key.
    pub key: String,
    /// Observed duration in milliseconds.
    pub duration_ms: u64,
    /// Optional observed size in bytes.
    pub size_bytes: Option<u64>,
    /// Time the record was captured in Unix epoch milliseconds.
    pub recorded_at_ms: u64,
    /// Optional concrete source identity.
    pub source: Option<String>,
}

/// Scheduling policy.
#[derive(Clone, Copy, Debug, PartialEq, Eq, Structural)]
pub struct PlanConfigInput {
    /// Default duration for targets lacking fresh history.
    pub default_duration_ms: u64,
    /// Per-fan-out startup cost.
    pub worker_startup_ms: u64,
    /// Maximum parallel workers.
    pub max_workers: usize,
    /// Maximum usable history age.
    pub max_history_age_ms: u64,
}

/// Returns the error for a document that is no plan input.
pub fn invalid_input(reason: &str) -> (result: Error)
    ensures
        result@ == outcome::usage("invalid plan JSON: "@ + reason@),
{
    Error::usage(text::cat2("invalid plan JSON: ", reason))
}

/// Returns the error for a graph that cannot be scheduled.
pub fn unschedulable(reason: &str) -> (result: Error)
    ensures
        result@ == outcome::plain(ErrorKind::Preflight, reason@),
{
    Error::new(ErrorKind::Preflight, reason.to_owned())
}

/// Returns the error for a plan that cannot be written.
pub fn unwritable(reason: &str) -> (result: Error)
    ensures
        result@ == outcome::plain(ErrorKind::Internal, "serialize plan JSON: "@ + reason@),
{
    Error::new(ErrorKind::Internal, text::cat2("serialize plan JSON: ", reason))
}

/// Ends a written plan with a line end.
pub fn terminated(output: Vec<u8>) -> (result: Vec<u8>)
    ensures
        result@ == output@.push(10),
{
    let mut result = output;
    result.push(10);
    result
}

} // verus!
