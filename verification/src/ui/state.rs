//! What the display holds, and what each event and each key makes of it.

use vstd::prelude::*;

use crate::model::{Manifest, ManifestOutcome, NodeState, Phase, ProgressEvent};
use crate::text;
use crate::ui::job;
use crate::ui::job::{JobFilter, JobModel, JobStatus, PhaseStatus};

verus! {

/// How many log lines a job keeps.
pub const LOG_LINES: usize = 1_000;

/// The status of every phase.
#[derive(Clone, Copy, Debug, PartialEq, Eq, Structural)]
pub struct PhaseTable {
    /// Standard output discovery.
    pub discovery: PhaseStatus,
    /// Selected root evaluation.
    pub evaluation: PhaseStatus,
    /// Derivation graph construction.
    pub graph: PhaseStatus,
    /// Availability probes.
    pub probe: PhaseStatus,
    /// Dependency-first realization.
    pub realization: PhaseStatus,
}

impl PhaseTable {
    /// The status of a phase.
    pub open spec fn status(self, phase: Phase) -> PhaseStatus {
        match phase {
            Phase::Discovery => self.discovery,
            Phase::Evaluation => self.evaluation,
            Phase::Graph => self.graph,
            Phase::Probe => self.probe,
            Phase::Realization => self.realization,
        }
    }

    /// The table with another status for one phase.
    pub open spec fn with(self, phase: Phase, status: PhaseStatus) -> PhaseTable {
        match phase {
            Phase::Discovery => PhaseTable { discovery: status, ..self },
            Phase::Evaluation => PhaseTable { evaluation: status, ..self },
            Phase::Graph => PhaseTable { graph: status, ..self },
            Phase::Probe => PhaseTable { probe: status, ..self },
            Phase::Realization => PhaseTable { realization: status, ..self },
        }
    }

    /// The table in which every phase has the same status.
    pub open spec fn all(status: PhaseStatus) -> PhaseTable {
        PhaseTable {
            discovery: status,
            evaluation: status,
            graph: status,
            probe: status,
            realization: status,
        }
    }
}

/// A node of a discovered graph: its path and the paths it depends on, in order.
pub struct Entry {
    /// Derivation path.
    pub path: Seq<char>,
    /// Paths of the dependencies.
    pub inputs: Seq<Seq<char>>,
}

/// Everything the display holds.
#[verifier::ext_equal]
pub struct UiState {
    /// What is being done.
    pub title: Seq<char>,
    /// Progress of the phases.
    pub phases: PhaseTable,
    /// The jobs.
    pub jobs: Seq<JobModel>,
    /// Position of the selected job.
    pub selected: Option<usize>,
    /// Signal that cancelled the operation.
    pub cancelled: Option<i32>,
    /// The time, where it moves only on request; `None` where it is measured.
    pub clock: Option<u128>,
    /// When the operation finished.
    pub finished_at: Option<u128>,
    /// Whether the operation finished.
    pub finished: bool,
    /// How the operation ended.
    pub outcome: Option<ManifestOutcome>,
    /// Whether the key help is shown.
    pub help_visible: bool,
    /// Text that shown jobs contain.
    pub query: Seq<char>,
    /// Whether keys extend the query.
    pub typing: bool,
    /// Status that shown jobs have.
    pub filter: JobFilter,
}

/// A job passes the filter, and its label or path contains the query, whatever the case.
pub open spec fn shows(job: JobModel, query: Seq<char>, filter: JobFilter) -> bool {
    let wanted = text::lowercased(query);
    filter.admits(job.status) && (wanted.len() == 0 || text::occurs(text::lowercased(job.label), wanted)
        || text::occurs(text::lowercased(job.drv_path), wanted))
}

/// The positions of the shown jobs, in order.
pub open spec fn shown(jobs: Seq<JobModel>, query: Seq<char>, filter: JobFilter) -> Seq<usize>
    decreases jobs.len(),
{
    if jobs.len() == 0 {
        Seq::empty()
    } else {
        let before = shown(jobs.drop_last(), query, filter);
        if shows(jobs.last(), query, filter) {
            before.push((jobs.len() - 1) as usize)
        } else {
            before
        }
    }
}

/// The numbers ascend.
pub open spec fn ascending(list: Seq<usize>) -> bool {
    forall|i: int, j: int| 0 <= i < j < list.len() ==> list[i] < list[j]
}

/// The first number above a bound.
pub open spec fn first_above(list: Seq<usize>, bound: usize) -> Option<usize>
    decreases list.len(),
{
    if list.len() == 0 {
        None
    } else if list[0] > bound {
        Some(list[0])
    } else {
        first_above(list.drop_first(), bound)
    }
}

/// The position of the last job with a path.
pub open spec fn position(jobs: Seq<JobModel>, path: Seq<char>) -> Option<usize>
    decreases jobs.len(),
{
    if jobs.len() == 0 {
        None
    } else if jobs.last().drv_path == path {
        Some((jobs.len() - 1) as usize)
    } else {
        position(jobs.drop_last(), path)
    }
}

/// The position of the last entry with a path.
pub open spec fn entry_position(entries: Seq<Entry>, path: Seq<char>) -> Option<usize>
    decreases entries.len(),
{
    if entries.len() == 0 {
        None
    } else if entries.last().path == path {
        Some((entries.len() - 1) as usize)
    } else {
        entry_position(entries.drop_last(), path)
    }
}

/// The positions of those of `inputs` that are entries.
pub open spec fn input_positions(entries: Seq<Entry>, inputs: Seq<Seq<char>>) -> Seq<usize>
    decreases inputs.len(),
{
    if inputs.len() == 0 {
        Seq::empty()
    } else {
        let before = input_positions(entries, inputs.drop_last());
        match entry_position(entries, inputs.last()) {
            Some(i) => before.push(i),
            None => before,
        }
    }
}

/// The positions below `bound` of the entries that depend on the entry at `target`.
pub open spec fn dependent_positions(entries: Seq<Entry>, target: usize, bound: int) -> Seq<usize>
    decreases bound,
{
    if bound <= 0 {
        Seq::empty()
    } else {
        let before = dependent_positions(entries, target, bound - 1);
        if input_positions(entries, entries[bound - 1].inputs).contains(target) {
            before.push((bound - 1) as usize)
        } else {
            before
        }
    }
}

/// A job of which nothing but the path is known.
pub open spec fn fresh(path: Seq<char>) -> JobModel {
    JobModel {
        drv_path: path,
        label: job::label_of(path),
        dependencies: Seq::empty(),
        relationships_known: false,
        dependents: Seq::empty(),
        status: JobStatus::Queued,
        started: None,
        settled: None,
        progress: None,
        logs: Seq::empty(),
        log_scroll: 0,
    }
}

/// No entry before position `i` has its path.
pub open spec fn is_first_entry(entries: Seq<Entry>, i: int) -> bool {
    forall|j: int| 0 <= j < i ==> (#[trigger] entries[j]).path != entries[i].path
}

/// The job that an entry continues: the known job with its path, or a fresh one where there is
/// none or an earlier entry continues it.
pub open spec fn continued(jobs: Seq<JobModel>, entries: Seq<Entry>, i: int) -> JobModel {
    match position(jobs, entries[i].path) {
        Some(k) => if is_first_entry(entries, i) {
            jobs[k as int]
        } else {
            fresh(entries[i].path)
        },
        None => fresh(entries[i].path),
    }
}

/// The job for an entry: the job it continues, with the relationships that the graph says.
pub open spec fn graph_job(jobs: Seq<JobModel>, entries: Seq<Entry>, i: int) -> JobModel {
    JobModel {
        dependencies: input_positions(entries, entries[i].inputs),
        relationships_known: true,
        dependents: dependent_positions(entries, i as usize, entries.len() as int),
        ..continued(jobs, entries, i)
    }
}

/// The jobs for a discovered graph.
pub open spec fn graph_jobs(jobs: Seq<JobModel>, entries: Seq<Entry>) -> Seq<JobModel> {
    Seq::new(entries.len(), |i: int| graph_job(jobs, entries, i))
}

/// A job after a change of status at time `now`. Only time spent running counts: it stops when the
/// job stops running, and goes on where it stopped when the job runs again.
pub open spec fn timed(job: JobModel, status: JobStatus, now: u128) -> JobModel {
    match status {
        JobStatus::Running => if job.status is AwaitingResult || job.status is Provisional {
            JobModel {
                started: match job.settled {
                    Some(duration) => Some(job::monus(now, duration)),
                    None => Some(now),
                },
                settled: None,
                progress: None,
                status,
                ..job
            }
        } else {
            JobModel {
                started: match job.started {
                    Some(start) => Some(start),
                    None => Some(now),
                },
                status,
                ..job
            }
        },
        JobStatus::Queued => JobModel { status, ..job },
        _ => JobModel {
            settled: match (job.settled, job.started) {
                (None, Some(start)) => Some(job::monus(now, start)),
                (settled, _) => settled,
            },
            status,
            ..job
        },
    }
}

/// A job after a log line: the oldest line leaves a full log, and a scrolled view stays where it
/// is.
pub open spec fn logged(job: JobModel, line: Seq<char>) -> JobModel {
    let kept = if job.logs.len() == LOG_LINES {
        job.logs.drop_first()
    } else {
        job.logs
    };
    let logs = kept.push(line);
    JobModel {
        logs,
        log_scroll: if job.log_scroll > 0 {
            if job.log_scroll + 1 <= logs.len() - 1 {
                job.log_scroll + 1
            } else {
                logs.len() - 1
            }
        } else {
            job.log_scroll
        },
        ..job
    }
}

/// The farthest a log view can be scrolled up.
pub open spec fn top_of_log(job: JobModel) -> int {
    if job.logs.len() == 0 {
        0
    } else {
        job.logs.len() - 1
    }
}

/// A job with its log view scrolled by a number of lines.
pub open spec fn scrolled(job: JobModel, lines: int) -> JobModel {
    JobModel {
        log_scroll: if job.log_scroll + lines < 0 {
            0
        } else if job.log_scroll + lines > top_of_log(job) {
            top_of_log(job)
        } else {
            job.log_scroll + lines
        },
        ..job
    }
}

/// The entries of a graph.
pub open spec fn entries_of(
    nodes: Seq<std::sync::Arc<crate::model::DerivationNode>>,
) -> Seq<Entry> {
    Seq::new(
        nodes.len(),
        |i: int| Entry { path: nodes[i].drv_path@, inputs: nodes[i].dependencies.keys() },
    )
}

/// The names of the roots that a derivation path was evaluated from.
pub open spec fn root_names(
    roots: Seq<crate::model::RootResult>,
    path: Seq<char>,
) -> Seq<Seq<char>>
    decreases roots.len(),
{
    if roots.len() == 0 {
        Seq::empty()
    } else {
        let before = root_names(roots.drop_last(), path);
        match roots.last().drv_path {
            Some(drv_path) => if drv_path@ == path {
                before.push(roots.last().name@)
            } else {
                before
            },
            None => before,
        }
    }
}

/// A job labelled with the names of its roots, if it has any.
pub open spec fn labelled(job: JobModel, roots: Seq<crate::model::RootResult>) -> JobModel {
    let names = root_names(roots, job.drv_path);
    if names.len() > 0 {
        JobModel { label: text::joined(names, " · "@), ..job }
    } else {
        job
    }
}

/// The jobs with the settled state that each result says.
pub open spec fn with_results(
    jobs: Seq<JobModel>,
    results: Seq<crate::model::NodeResult>,
    now: u128,
) -> Seq<JobModel>
    decreases results.len(),
{
    if results.len() == 0 {
        jobs
    } else {
        let before = with_results(jobs, results.drop_last(), now);
        let result = results.last();
        match position(before, result.drv_path@) {
            Some(i) => before.update(
                i as int,
                timed(before[i as int], JobStatus::Settled(result.state), now),
            ),
            None => before,
        }
    }
}

/// A job at the end of an operation: a provisional state counts, and cancellation settles the rest.
pub open spec fn concluded(job: JobModel, outcome: ManifestOutcome) -> JobModel {
    if outcome == ManifestOutcome::Cancelled && !(job.status is Settled) {
        JobModel { status: JobStatus::Settled(NodeState::Cancelled), ..job }
    } else {
        match job.status {
            JobStatus::Provisional(state) => JobModel { status: JobStatus::Settled(state), ..job },
            _ => job,
        }
    }
}

/// How many jobs have settled.
pub open spec fn settled_count(jobs: Seq<JobModel>) -> nat
    decreases jobs.len(),
{
    if jobs.len() == 0 {
        0
    } else {
        settled_count(jobs.drop_last()) + if jobs.last().status is Settled {
            1nat
        } else {
            0nat
        }
    }
}

/// `step` positions after `current` in a ring of `length` positions.
pub open spec fn around(current: int, step: int, length: int) -> int {
    (current + step) % length
}

impl UiState {
    /// The display before anything happened.
    pub open spec fn initial(title: Seq<char>, clock: Option<u128>) -> UiState {
        UiState {
            title,
            phases: PhaseTable::all(PhaseStatus::Waiting),
            jobs: Seq::empty(),
            selected: None,
            cancelled: None,
            clock,
            finished_at: None,
            finished: false,
            outcome: None,
            help_visible: false,
            query: Seq::empty(),
            typing: false,
            filter: JobFilter::All,
        }
    }

    /// The positions of the shown jobs.
    pub open spec fn visible(self) -> Seq<usize> {
        shown(self.jobs, self.query, self.filter)
    }

    /// The display after its clock moved forward; only one that stands still by itself moves so.
    pub open spec fn advanced(self, step: u128) -> UiState {
        UiState {
            clock: match self.clock {
                Some(time) => Some((time + step) as u128),
                None => None,
            },
            ..self
        }
    }

    /// `now` is a time that the display may read.
    pub open spec fn may_read(self, now: u128) -> bool {
        match self.clock {
            Some(time) => now == time,
            None => true,
        }
    }

    /// A shown job is selected whenever any job is shown, relationships point at jobs, logs stay
    /// within their bounds, and a display that finished has the time at which it did.
    pub open spec fn consistent(self) -> bool {
        &&& self.finished ==> self.finished_at is Some
        &&& self.jobs.len() <= usize::MAX
        &&& match self.selected {
            Some(selected) => self.visible().contains(selected),
            None => self.visible().len() == 0,
        }
        &&& forall|i: int|
            0 <= i < self.jobs.len() ==> job_consistent(#[trigger] self.jobs[i], self.jobs.len())
    }

    /// The display after its jobs, query or filter changed: the selection stays while its job is
    /// shown, and moves to the first shown job otherwise.
    pub open spec fn reselected(self) -> UiState {
        UiState {
            selected: match self.selected {
                Some(selected) => if self.visible().contains(selected) {
                    Some(selected)
                } else {
                    self.first()
                },
                None => self.first(),
            },
            ..self
        }
    }

    /// The first shown job.
    pub open spec fn first(self) -> Option<usize> {
        if self.visible().len() > 0 {
            Some(self.visible()[0])
        } else {
            None
        }
    }

    /// The last shown job.
    pub open spec fn last(self) -> Option<usize> {
        if self.visible().len() > 0 {
            Some(self.visible().last())
        } else {
            None
        }
    }

    /// The selection after the job at `index` changed: a job that is no longer shown hands it to
    /// the next shown job, or to the last one.
    pub open spec fn reconciled(self, index: usize) -> UiState {
        let shows_it = shows(self.jobs[index as int], self.query, self.filter);
        UiState {
            selected: match self.selected {
                None => if shows_it {
                    Some(index)
                } else {
                    None
                },
                Some(selected) => if selected == index && !shows_it {
                    match first_above(self.visible(), index) {
                        Some(next) => Some(next),
                        None => self.last(),
                    }
                } else {
                    Some(selected)
                },
            },
            ..self
        }
    }

    /// The display with a job for `path`.
    pub open spec fn ensured(self, path: Seq<char>) -> UiState {
        match position(self.jobs, path) {
            Some(_) => self,
            None => UiState { jobs: self.jobs.push(fresh(path)), ..self }.reconciled(
                self.jobs.len() as usize,
            ),
        }
    }

    /// The position of the job for `path` once there is one.
    pub open spec fn ensured_position(self, path: Seq<char>) -> usize {
        match position(self.jobs, path) {
            Some(i) => i,
            None => self.jobs.len() as usize,
        }
    }

    /// The display with another status for the job of `path`.
    pub open spec fn with_status(self, path: Seq<char>, status: JobStatus, now: u128) -> UiState {
        let ensured = self.ensured(path);
        let i = self.ensured_position(path);
        UiState {
            jobs: ensured.jobs.update(i as int, timed(ensured.jobs[i as int], status, now)),
            ..ensured
        }.reconciled(i)
    }

    /// The display with one more log line for the job of `path`.
    pub open spec fn with_line(self, path: Seq<char>, line: Seq<char>) -> UiState {
        let ensured = self.ensured(path);
        let i = self.ensured_position(path) as int;
        UiState { jobs: ensured.jobs.update(i, logged(ensured.jobs[i], line)), ..ensured }
    }

    /// The display with the transfer progress of the job of `path`.
    pub open spec fn with_progress(self, path: Seq<char>, done: u64, expected: u64) -> UiState {
        let ensured = self.ensured(path);
        let i = self.ensured_position(path) as int;
        UiState {
            jobs: ensured.jobs.update(
                i,
                JobModel { progress: Some((done, expected)), ..ensured.jobs[i] },
            ),
            ..ensured
        }
    }

    /// The display for a discovered graph. The selected job stays selected if the graph has it.
    pub open spec fn with_graph(self, entries: Seq<Entry>) -> UiState {
        let kept = match self.selected {
            Some(selected) => entry_position(entries, self.jobs[selected as int].drv_path),
            None => None,
        };
        UiState {
            jobs: graph_jobs(self.jobs, entries),
            selected: match kept {
                Some(i) => Some(i),
                None => if entries.len() > 0 {
                    Some(0)
                } else {
                    None
                },
            },
            ..self
        }.reselected()
    }

    /// The display after a progress event that was received at time `now`.
    pub open spec fn applied(self, event: ProgressEvent, now: u128) -> UiState {
        match event {
            ProgressEvent::PhaseStarted(phase) => UiState {
                phases: self.phases.with(phase, PhaseStatus::Active),
                ..self
            },
            ProgressEvent::PhaseFinished(phase) => UiState {
                phases: self.phases.with(phase, PhaseStatus::Complete),
                ..self
            },
            ProgressEvent::GraphDiscovered(nodes) => self.with_graph(entries_of(nodes@)),
            ProgressEvent::GraphIncomplete => self,
            ProgressEvent::NodeStarted { drv_path } => self.with_status(
                drv_path@,
                JobStatus::Running,
                now,
            ),
            ProgressEvent::NodeActivityStopped { drv_path } => self.with_status(
                drv_path@,
                JobStatus::AwaitingResult,
                now,
            ),
            ProgressEvent::NodeProvisionalFinished { drv_path, state } => self.with_status(
                drv_path@,
                JobStatus::Provisional(state),
                now,
            ),
            ProgressEvent::NodeLogLine { drv_path, line } => self.with_line(drv_path@, line@),
            ProgressEvent::NodeProgress { drv_path, done, expected } => self.with_progress(
                drv_path@,
                done,
                expected,
            ),
            ProgressEvent::NodeFinished { drv_path, state } => self.with_status(
                drv_path@,
                JobStatus::Settled(state),
                now,
            ),
            ProgressEvent::Cancelled { signal } => UiState { cancelled: Some(signal), ..self },
        }
    }

    /// The display after the operation finished at time `now`; only the first time counts.
    pub open spec fn completed(self, now: u128) -> UiState {
        UiState {
            finished_at: match self.finished_at {
                Some(time) => Some(time),
                None => Some(now),
            },
            finished: true,
            ..self
        }
    }

    /// The display after an operation ended at time `now` with a manifest.
    pub open spec fn ended(self, manifest: Manifest, now: u128) -> UiState {
        let known = if self.jobs.len() == 0 {
            self.with_graph(entries_of(manifest.graph@))
        } else {
            self
        };
        let named = Seq::new(
            known.jobs.len(),
            |i: int| labelled(known.jobs[i], manifest.roots@),
        );
        let resulting = with_results(named, manifest.nodes@, now);
        UiState {
            jobs: Seq::new(resulting.len(), |i: int| concluded(resulting[i], manifest.outcome)),
            outcome: Some(manifest.outcome),
            ..known
        }.reselected().completed(now)
    }

    /// The display with the selection moved `step` shown jobs ahead, around the end.
    pub open spec fn moved(self, step: int) -> UiState {
        let list = self.visible();
        UiState {
            selected: match self.selected {
                Some(selected) => if list.contains(selected) {
                    Some(list[around(list.index_of(selected), step, list.len() as int)])
                } else {
                    self.first()
                },
                None => None,
            },
            ..self
        }
    }

    /// The display with the selected job's log view scrolled.
    pub open spec fn with_scroll(self, lines: int) -> UiState {
        match self.selected {
            Some(selected) => UiState {
                jobs: self.jobs.update(
                    selected as int,
                    scrolled(self.jobs[selected as int], lines),
                ),
                ..self
            },
            None => self,
        }
    }

    /// The display with the selected job's log view at its end.
    pub open spec fn following(self) -> UiState {
        match self.selected {
            Some(selected) => UiState {
                jobs: self.jobs.update(
                    selected as int,
                    JobModel { log_scroll: 0, ..self.jobs[selected as int] },
                ),
                ..self
            },
            None => self,
        }
    }

    /// The display without filters.
    pub open spec fn unfiltered(self) -> UiState {
        UiState { query: Seq::empty(), typing: false, filter: JobFilter::All, ..self }.reselected()
    }
}

/// The job's relationships point at jobs, and its log stays within its bounds.
pub open spec fn job_consistent(job: JobModel, count: nat) -> bool {
    &&& job.logs.len() <= LOG_LINES
    &&& 0 <= job.log_scroll <= top_of_log(job)
    &&& forall|k: int| 0 <= k < job.dependencies.len() ==> #[trigger] job.dependencies[k] < count
    &&& forall|k: int| 0 <= k < job.dependents.len() ==> #[trigger] job.dependents[k] < count
}

/// The shown positions ascend, and they are those of the jobs that show.
pub proof fn lemma_shown(jobs: Seq<JobModel>, query: Seq<char>, filter: JobFilter)
    requires
        jobs.len() <= usize::MAX,
    ensures
        ascending(shown(jobs, query, filter)),
        forall|i: usize| #[trigger]
            shown(jobs, query, filter).contains(i) <==> i < jobs.len() && shows(
                jobs[i as int],
                query,
                filter,
            ),
        forall|k: int|
            0 <= k < shown(jobs, query, filter).len() ==> #[trigger] shown(jobs, query, filter)[k]
                < jobs.len(),
    decreases jobs.len(),
{
    if jobs.len() > 0 {
        let front = jobs.drop_last();
        let before = shown(front, query, filter);
        let list = shown(jobs, query, filter);
        let last = (jobs.len() - 1) as usize;
        lemma_shown(front, query, filter);
        assert forall|i: usize| #[trigger] list.contains(i) <==> i < jobs.len() && shows(
            jobs[i as int],
            query,
            filter,
        ) by {
            assert(before.contains(i) <==> i < front.len() && shows(
                front[i as int],
                query,
                filter,
            ));
            if before.contains(i) {
                let k = before.index_of(i);
                assert(list[k] == i);
            }
            if list.contains(i) {
                let k = list.index_of(i);
                if k < before.len() {
                    assert(before[k] == i);
                }
            }
            if i == last && shows(jobs.last(), query, filter) {
                assert(list[list.len() - 1] == i);
            }
        }
    }
}

/// A list that ascends and holds the positions of the jobs that show is the list of shown ones.
pub proof fn lemma_shown_unique(
    jobs: Seq<JobModel>,
    query: Seq<char>,
    filter: JobFilter,
    list: Seq<usize>,
)
    requires
        jobs.len() <= usize::MAX,
        ascending(list),
        forall|i: usize| #[trigger]
            list.contains(i) <==> i < jobs.len() && shows(jobs[i as int], query, filter),
    ensures
        list == shown(jobs, query, filter),
    decreases jobs.len(),
{
    let all = shown(jobs, query, filter);
    lemma_shown(jobs, query, filter);
    if jobs.len() == 0 {
        if list.len() > 0 {
            assert(list.contains(list[0]));
        }
        assert(list =~= all);
    } else {
        let front = jobs.drop_last();
        let last = (jobs.len() - 1) as usize;
        if shows(jobs.last(), query, filter) {
            assert(list.contains(last));
            let k = list.index_of(last);
            assert(k == list.len() - 1) by {
                if k < list.len() - 1 {
                    assert(list[list.len() - 1] > last);
                    assert(list.contains(list[list.len() - 1]));
                }
            }
            let rest = list.drop_last();
            assert forall|i: usize| #[trigger] rest.contains(i) <==> i < front.len() && shows(
                front[i as int],
                query,
                filter,
            ) by {
                if rest.contains(i) {
                    let j = rest.index_of(i);
                    assert(list[j] == i);
                    assert(list[j] < list[k]);
                    assert(list.contains(i));
                }
                if i < front.len() && shows(front[i as int], query, filter) {
                    assert(list.contains(i));
                    let j = list.index_of(i);
                    assert(rest[j] == i);
                }
            }
            lemma_shown_unique(front, query, filter, rest);
            assert(list =~= rest.push(last));
        } else {
            assert forall|i: usize| #[trigger] list.contains(i) <==> i < front.len() && shows(
                front[i as int],
                query,
                filter,
            ) by {}
            lemma_shown_unique(front, query, filter, list);
        }
    }
}

/// The position of a path is that of the last job with it.
pub proof fn lemma_position(jobs: Seq<JobModel>, path: Seq<char>)
    requires
        jobs.len() <= usize::MAX,
    ensures
        match position(jobs, path) {
            Some(i) => {
                &&& i < jobs.len()
                &&& jobs[i as int].drv_path == path
                &&& forall|j: int| i < j < jobs.len() ==> (#[trigger] jobs[j]).drv_path != path
            },
            None => forall|j: int| 0 <= j < jobs.len() ==> (#[trigger] jobs[j]).drv_path != path,
        },
    decreases jobs.len(),
{
    if jobs.len() > 0 && jobs.last().drv_path != path {
        lemma_position(jobs.drop_last(), path);
        let front = jobs.drop_last();
        assert(forall|j: int| 0 <= j < front.len() ==> #[trigger] jobs[j] == front[j]);
    }
}

/// The position of a path is that of the last entry with it.
pub proof fn lemma_entry_position(entries: Seq<Entry>, path: Seq<char>)
    requires
        entries.len() <= usize::MAX,
    ensures
        match entry_position(entries, path) {
            Some(i) => {
                &&& i < entries.len()
                &&& entries[i as int].path == path
                &&& forall|j: int| i < j < entries.len() ==> (#[trigger] entries[j]).path != path
            },
            None => forall|j: int| 0 <= j < entries.len() ==> (#[trigger] entries[j]).path != path,
        },
    decreases entries.len(),
{
    if entries.len() > 0 && entries.last().path != path {
        lemma_entry_position(entries.drop_last(), path);
        let front = entries.drop_last();
        assert(forall|j: int| 0 <= j < front.len() ==> #[trigger] entries[j] == front[j]);
    }
}

/// Positions of inputs are positions of entries.
pub proof fn lemma_input_positions(entries: Seq<Entry>, inputs: Seq<Seq<char>>)
    requires
        entries.len() <= usize::MAX,
    ensures
        forall|k: int|
            0 <= k < input_positions(entries, inputs).len() ==> #[trigger] input_positions(
                entries,
                inputs,
            )[k] < entries.len(),
    decreases inputs.len(),
{
    if inputs.len() > 0 {
        lemma_input_positions(entries, inputs.drop_last());
        lemma_entry_position(entries, inputs.last());
        let before = input_positions(entries, inputs.drop_last());
        let list = input_positions(entries, inputs);
        assert forall|k: int| 0 <= k < list.len() implies #[trigger] list[k] < entries.len() by {
            if k < before.len() {
                assert(list[k] == before[k]);
            }
        }
    }
}

/// Positions of dependents are below their bound.
pub proof fn lemma_dependent_positions(entries: Seq<Entry>, target: usize, bound: int)
    requires
        bound <= entries.len() <= usize::MAX,
    ensures
        forall|k: int|
            0 <= k < dependent_positions(entries, target, bound).len()
                ==> #[trigger] dependent_positions(entries, target, bound)[k] < bound,
    decreases bound,
{
    if bound > 0 {
        lemma_dependent_positions(entries, target, bound - 1);
        let before = dependent_positions(entries, target, bound - 1);
        let list = dependent_positions(entries, target, bound);
        assert forall|k: int| 0 <= k < list.len() implies #[trigger] list[k] < bound by {
            if k < before.len() {
                assert(list[k] == before[k]);
            }
        }
    }
}

/// The first number above a bound stands where those up to the bound end.
pub proof fn lemma_first_above(list: Seq<usize>, bound: usize, at: int)
    requires
        0 <= at <= list.len(),
        forall|j: int| 0 <= j < at ==> #[trigger] list[j] <= bound,
        at < list.len() ==> list[at] > bound,
    ensures
        first_above(list, bound) == if at < list.len() {
            Some(list[at])
        } else {
            None
        },
    decreases list.len(),
{
    if list.len() > 0 && at > 0 {
        let rest = list.drop_first();
        assert(list[0] <= bound);
        assert forall|j: int| 0 <= j < at - 1 implies #[trigger] rest[j] <= bound by {
            assert(rest[j] == list[j + 1]);
        }
        lemma_first_above(rest, bound, at - 1);
    }
}

/// A shown job is selected after a rebuild, if there is one.
pub proof fn lemma_reselected(state: UiState)
    ensures
        match state.reselected().selected {
            Some(selected) => state.visible().contains(selected),
            None => state.visible().len() == 0,
        },
        state.reselected().visible() == state.visible(),
{
    if state.visible().len() > 0 {
        assert(state.visible().contains(state.visible()[0]));
    }
}

/// A shown job is selected after a reconciliation, if there is one.
pub proof fn lemma_reconciled(state: UiState, index: usize)
    requires
        state.jobs.len() <= usize::MAX,
        index < state.jobs.len(),
        match state.selected {
            Some(selected) => selected == index || state.visible().contains(selected),
            None => forall|k: usize| #[trigger] state.visible().contains(k) ==> k == index,
        },
    ensures
        match state.reconciled(index).selected {
            Some(selected) => state.visible().contains(selected),
            None => state.visible().len() == 0,
        },
        state.reconciled(index).visible() == state.visible(),
{
    let list = state.visible();
    lemma_shown(state.jobs, state.query, state.filter);
    if list.len() > 0 {
        assert(list.contains(list[0]));
        assert(list.contains(list.last()));
    }
    lemma_first_above_contained(list, index);
}

/// The first number above a bound is in the list.
proof fn lemma_first_above_contained(list: Seq<usize>, bound: usize)
    ensures
        first_above(list, bound) matches Some(found) ==> list.contains(found),
    decreases list.len(),
{
    if list.len() > 0 {
        if list[0] > bound {
            assert(list.contains(list[0]));
        } else {
            let rest = list.drop_first();
            lemma_first_above_contained(rest, bound);
            if let Some(found) = first_above(rest, bound) {
                let j = rest.index_of(found);
                assert(list[j + 1] == found);
            }
        }
    }
}

/// A position among those of inputs is that of an input.
pub proof fn lemma_input_found(entries: Seq<Entry>, inputs: Seq<Seq<char>>, x: usize)
    requires
        entries.len() <= usize::MAX,
        input_positions(entries, inputs).contains(x),
    ensures
        x < entries.len(),
        inputs.contains(entries[x as int].path),
    decreases inputs.len(),
{
    if inputs.len() > 0 {
        let front = inputs.drop_last();
        let before = input_positions(entries, front);
        let list = input_positions(entries, inputs);
        lemma_entry_position(entries, inputs.last());
        let k = list.index_of(x);
        if k < before.len() {
            assert(before[k] == x);
            lemma_input_found(entries, front, x);
            let j = front.index_of(entries[x as int].path);
            assert(inputs[j] == entries[x as int].path);
        } else {
            assert(inputs[inputs.len() - 1] == entries[x as int].path);
        }
    }
}

/// Different inputs have different positions.
pub proof fn lemma_inputs_distinct(entries: Seq<Entry>, inputs: Seq<Seq<char>>)
    requires
        entries.len() <= usize::MAX,
        inputs.no_duplicates(),
    ensures
        input_positions(entries, inputs).no_duplicates(),
    decreases inputs.len(),
{
    if inputs.len() > 0 {
        let front = inputs.drop_last();
        let before = input_positions(entries, front);
        let list = input_positions(entries, inputs);
        lemma_inputs_distinct(entries, front);
        lemma_entry_position(entries, inputs.last());
        if let Some(x) = entry_position(entries, inputs.last()) {
            assert(!before.contains(x)) by {
                if before.contains(x) {
                    lemma_input_found(entries, front, x);
                    let j = front.index_of(inputs.last());
                    assert(inputs[j] == inputs[inputs.len() - 1]);
                }
            }
            assert forall|a: int, b: int|
                0 <= a < list.len() && 0 <= b < list.len() && a != b implies list[a]
                != list[b] by {
                if a == before.len() {
                    assert(before[b] != x) by {
                        if before[b] == x {
                            assert(before.contains(x));
                        }
                    }
                } else if b == before.len() {
                    assert(before[a] != x) by {
                        if before[a] == x {
                            assert(before.contains(x));
                        }
                    }
                }
            }
        }
    }
}

} // verus!
