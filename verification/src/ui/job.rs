//! Jobs, their status and the filters on it.

use std::collections::VecDeque;

use vstd::prelude::*;

use crate::model::NodeState;
use crate::store;
use crate::target;
use crate::text;

verus! {

/// Progress of a phase.
#[derive(Clone, Copy, Debug, Default, PartialEq, Eq, Structural)]
pub enum PhaseStatus {
    /// The phase has not begun.
    #[default]
    Waiting,
    /// The phase has begun.
    Active,
    /// The phase has ended.
    Complete,
}

/// Progress of a job.
#[derive(Clone, Copy, Debug, Default, PartialEq, Eq, Structural)]
pub enum JobStatus {
    /// Nothing has happened yet.
    #[default]
    Queued,
    /// An activity is running.
    Running,
    /// No activity is running, and the result is not known.
    AwaitingResult,
    /// The job seems to have settled.
    Provisional(NodeState),
    /// The job has settled.
    Settled(NodeState),
}

/// Which jobs are shown, by their status.
#[derive(Clone, Copy, Debug, Default, PartialEq, Eq, Structural)]
pub enum JobFilter {
    /// Every job.
    #[default]
    All,
    /// Running jobs.
    Active,
    /// Jobs whose result is awaited.
    Waiting,
    /// Jobs that have not begun.
    Queued,
    /// Settled jobs.
    Completed,
    /// Failed jobs.
    Failed,
}

impl JobFilter {
    /// The filter's name.
    pub open spec fn name(self) -> Seq<char> {
        match self {
            JobFilter::All => "all"@,
            JobFilter::Active => "active"@,
            JobFilter::Waiting => "waiting"@,
            JobFilter::Queued => "queued"@,
            JobFilter::Completed => "completed"@,
            JobFilter::Failed => "failed"@,
        }
    }

    /// The filter's place in the cycle.
    pub open spec fn rank(self) -> int {
        match self {
            JobFilter::All => 0,
            JobFilter::Active => 1,
            JobFilter::Waiting => 2,
            JobFilter::Queued => 3,
            JobFilter::Completed => 4,
            JobFilter::Failed => 5,
        }
    }

    /// A job with this status passes the filter.
    pub open spec fn admits(self, status: JobStatus) -> bool {
        match self {
            JobFilter::All => true,
            JobFilter::Active => status is Running,
            JobFilter::Waiting => status is AwaitingResult || status is Provisional,
            JobFilter::Queued => status is Queued,
            JobFilter::Completed => status is Settled,
            JobFilter::Failed => status == JobStatus::Settled(NodeState::Failed),
        }
    }

    /// Returns the filter's name.
    pub fn label(self) -> (result: &'static str)
        ensures
            result@ == self.name(),
    {
        match self {
            JobFilter::All => "all",
            JobFilter::Active => "active",
            JobFilter::Waiting => "waiting",
            JobFilter::Queued => "queued",
            JobFilter::Completed => "completed",
            JobFilter::Failed => "failed",
        }
    }

    /// Returns the filter that comes next in the cycle, or the one before.
    pub fn next(self, reverse: bool) -> (result: Self)
        ensures
            result.rank() == if reverse {
                (self.rank() + 5) % 6
            } else {
                (self.rank() + 1) % 6
            },
    {
        match (self, reverse) {
            (JobFilter::All, false) | (JobFilter::Waiting, true) => JobFilter::Active,
            (JobFilter::Active, false) | (JobFilter::Queued, true) => JobFilter::Waiting,
            (JobFilter::Waiting, false) | (JobFilter::Completed, true) => JobFilter::Queued,
            (JobFilter::Queued, false) | (JobFilter::Failed, true) => JobFilter::Completed,
            (JobFilter::Completed, false) | (JobFilter::All, true) => JobFilter::Failed,
            (JobFilter::Failed, false) | (JobFilter::Active, true) => JobFilter::All,
        }
    }

    /// Reports whether a job with this status passes the filter.
    pub fn matches(self, status: JobStatus) -> (result: bool)
        ensures
            result == self.admits(status),
    {
        match self {
            JobFilter::All => true,
            JobFilter::Active => match status {
                JobStatus::Running => true,
                _ => false,
            },
            JobFilter::Waiting => match status {
                JobStatus::AwaitingResult | JobStatus::Provisional(_) => true,
                _ => false,
            },
            JobFilter::Queued => match status {
                JobStatus::Queued => true,
                _ => false,
            },
            JobFilter::Completed => match status {
                JobStatus::Settled(_) => true,
                _ => false,
            },
            JobFilter::Failed => match status {
                JobStatus::Settled(NodeState::Failed) => true,
                _ => false,
            },
        }
    }
}

/// Two filters with the same place in the cycle are the same.
pub proof fn lemma_rank(a: JobFilter, b: JobFilter)
    requires
        a.rank() == b.rank(),
    ensures
        a == b,
{
}

/// One derivation as the display shows it. Times are nanoseconds since the display started.
#[derive(Debug, PartialEq, Eq)]
pub struct Job {
    /// Derivation path.
    pub drv_path: String,
    /// Readable name.
    pub label: String,
    /// Positions of the jobs this one depends on.
    pub dependencies: Vec<usize>,
    /// Whether a graph said what the job depends on.
    pub relationships_known: bool,
    /// Positions of the jobs that depend on this one.
    pub dependents: Vec<usize>,
    /// Progress.
    pub status: JobStatus,
    /// When activity began.
    pub started: Option<u128>,
    /// How long activity lasted, once it stopped.
    pub settled: Option<u128>,
    /// Transferred and expected bytes.
    pub progress: Option<(u64, u64)>,
    /// The latest log lines.
    pub logs: VecDeque<String>,
    /// How many lines the log view is scrolled up.
    pub log_scroll: usize,
}

/// What a job says.
#[verifier::ext_equal]
pub struct JobModel {
    /// Derivation path.
    pub drv_path: Seq<char>,
    /// Readable name.
    pub label: Seq<char>,
    /// Positions of the jobs this one depends on.
    pub dependencies: Seq<usize>,
    /// Whether a graph said what the job depends on.
    pub relationships_known: bool,
    /// Positions of the jobs that depend on this one.
    pub dependents: Seq<usize>,
    /// Progress.
    pub status: JobStatus,
    /// When activity began.
    pub started: Option<u128>,
    /// How long activity lasted, once it stopped.
    pub settled: Option<u128>,
    /// Transferred and expected bytes.
    pub progress: Option<(u64, u64)>,
    /// The latest log lines.
    pub logs: Seq<Seq<char>>,
    /// How many lines the log view is scrolled up.
    pub log_scroll: int,
}

impl DeepView for Job {
    type V = JobModel;

    open spec fn deep_view(&self) -> JobModel {
        JobModel {
            drv_path: self.drv_path@,
            label: self.label@,
            dependencies: self.dependencies@,
            relationships_known: self.relationships_known,
            dependents: self.dependents@,
            status: self.status,
            started: self.started,
            settled: self.settled,
            progress: self.progress,
            logs: self.logs.deep_view(),
            log_scroll: self.log_scroll as int,
        }
    }
}

/// `b` subtracted from `a`, or zero where that would be negative.
pub open spec fn monus(a: u128, b: u128) -> u128 {
    if a >= b {
        (a - b) as u128
    } else {
        0
    }
}

impl JobModel {
    /// How long the job has been active at time `now`.
    pub open spec fn duration(self, now: u128) -> Option<u128> {
        match self.settled {
            Some(duration) => Some(duration),
            None => match self.started {
                Some(start) => Some(monus(now, start)),
                None => None,
            },
        }
    }
}

impl Job {
    /// Returns how long the job has been active at time `now`.
    pub fn elapsed(&self, now: u128) -> (result: Option<u128>)
        ensures
            result == self.deep_view().duration(now),
    {
        match self.settled {
            Some(duration) => Some(duration),
            None => match self.started {
                Some(start) => Some(
                    if now >= start {
                        now - start
                    } else {
                        0
                    },
                ),
                None => None,
            },
        }
    }
}

/// The file name without its extension, or the whole path where the file name does not end in
/// `.drv`.
pub open spec fn derivation_stem(path: Seq<char>) -> Seq<char> {
    let name = store::file_name(path);
    if text::ends(name, ".drv"@) {
        name.take(name.len() - 4)
    } else {
        path
    }
}

/// A store hash and a hyphen stand in front.
pub open spec fn is_hashed(stem: Seq<char>) -> bool {
    &&& stem.len() > 32
    &&& stem[32] == '-'
    &&& forall|i: int| 0 <= i < 32 ==> target::is_alphanumeric(#[trigger] stem[i])
}

/// The readable name of a derivation: its stem without the store hash.
pub open spec fn label_of(path: Seq<char>) -> Seq<char> {
    let stem = derivation_stem(path);
    if is_hashed(stem) {
        stem.skip(33)
    } else {
        stem
    }
}

/// Reports whether a store hash and a hyphen stand in front.
fn hashed(stem: &Vec<char>) -> (result: bool)
    ensures
        result == is_hashed(stem@),
{
    if stem.len() <= 32 || stem[32] != '-' {
        return false;
    }
    let mut i: usize = 0;
    while i < 32
        invariant
            stem@.len() > 32,
            i <= 32,
            forall|j: int| 0 <= j < i ==> target::is_alphanumeric(#[trigger] stem@[j]),
        decreases 32 - i,
    {
        if !target::is_name_character(stem[i]) {
            return false;
        }
        i = i + 1;
    }
    true
}

/// Returns the readable name of a derivation.
pub fn derivation_label(drv_path: &str) -> (result: String)
    ensures
        result@ == label_of(drv_path@),
{
    let chars = text::characters(drv_path);
    let start = store::file_name_start(&chars);
    let name = text::from_characters(&chars, start, chars.len());
    proof {
        assert(name@ =~= store::file_name(drv_path@));
        reveal_strlit(".drv");
    }
    let stem = if text::ends_with(name.as_str(), ".drv") {
        let mut stem = text::characters(name.as_str());
        stem.truncate(stem.len() - 4);
        assert(stem@ =~= name@.take(name@.len() - 4));
        stem
    } else {
        chars
    };
    assert(stem@ == derivation_stem(drv_path@));
    if hashed(&stem) {
        assert(stem@.subrange(33, stem@.len() as int) =~= stem@.skip(33));
        text::from_characters(&stem, 33, stem.len())
    } else {
        assert(stem@.subrange(0, stem@.len() as int) =~= stem@);
        text::from_characters(&stem, 0, stem.len())
    }
}

/// A job is named by what stands between the store hash of its derivation and `.drv`; without such
/// a hash by its file name without `.drv`.
pub proof fn law_labels_name_the_derivation(directory: Seq<char>, hash: Seq<char>, name: Seq<char>)
    requires
        !hash.contains('/'),
        !name.contains('/'),
    ensures
        hash.len() == 32 && (forall|i: int|
            0 <= i < 32 ==> target::is_alphanumeric(#[trigger] hash[i])) ==> label_of(
            directory + "/"@ + hash + "-"@ + name + ".drv"@,
        ) == name,
        name.len() <= 32 ==> label_of(directory + "/"@ + name + ".drv"@) == name,
{
    reveal_strlit("-");
    let stem = hash + "-"@ + name;
    assert(!stem.contains('/')) by {
        assert forall|i: int| 0 <= i < stem.len() implies stem[i] != '/' by {
            if i < hash.len() {
                assert(hash.contains(hash[i]));
            } else if i > hash.len() {
                assert(name.contains(name[i - hash.len() - 1]));
            }
        }
    }
    store::lemma_with_ending(directory, stem);
    assert(directory + "/"@ + hash + "-"@ + name + ".drv"@ =~= directory + "/"@ + (stem
        + ".drv"@));
    if hash.len() == 32 && (forall|i: int|
        0 <= i < 32 ==> target::is_alphanumeric(#[trigger] hash[i])) {
        assert forall|i: int| 0 <= i < 32 implies target::is_alphanumeric(#[trigger] stem[i]) by {
            assert(stem[i] == hash[i]);
        }
        assert(stem.skip(33) =~= name);
    }
    store::lemma_with_ending(directory, name);
    assert(directory + "/"@ + name + ".drv"@ =~= directory + "/"@ + (name + ".drv"@));
}

/// A job that runs has been active since it started, one that has stopped for as long as it was,
/// and one that never started for no time at all.
pub proof fn law_durations_are_measured_from_the_start(job: JobModel, start: u128, passed: u128)
    requires
        start + passed <= u128::MAX,
    ensures
        job.settled is None && job.started == Some(start) ==> job.duration(
            (start + passed) as u128,
        ) == Some(passed),
        job.settled is Some ==> job.duration(start) == job.settled,
        job.settled is None && job.started is None ==> job.duration(start) is None,
        passed > 0 && job.settled is None && job.started == Some((start + passed) as u128)
            ==> job.duration(start) == Some(0u128),
{
}

/// The filters come round in their order, and back in the other.
pub proof fn law_filters_come_round(filter: JobFilter, ahead: JobFilter, back: JobFilter)
    requires
        call_ensures(JobFilter::next, (filter, false), ahead),
        call_ensures(JobFilter::next, (filter, true), back),
    ensures
        match filter {
            JobFilter::All => ahead is Active && back is Failed,
            JobFilter::Active => ahead is Waiting && back is All,
            JobFilter::Waiting => ahead is Queued && back is Active,
            JobFilter::Queued => ahead is Completed && back is Waiting,
            JobFilter::Completed => ahead is Failed && back is Queued,
            JobFilter::Failed => ahead is All && back is Completed,
        },
{
}

/// A filter lets a status pass that it is named after: every one, a running one, one that waits for
/// its result, one that has not begun, one that has settled, or one that has failed.
pub proof fn law_filters_admit_what_they_are_named_after(
    filter: JobFilter,
    status: JobStatus,
    result: bool,
)
    requires
        call_ensures(JobFilter::matches, (filter, status), result),
    ensures
        result <==> match status {
            JobStatus::Queued => filter is All || filter is Queued,
            JobStatus::Running => filter is All || filter is Active,
            JobStatus::AwaitingResult => filter is All || filter is Waiting,
            JobStatus::Provisional(_) => filter is All || filter is Waiting,
            JobStatus::Settled(state) => filter is All || filter is Completed || (filter is Failed
                && state is Failed),
        },
{
}

} // verus!
