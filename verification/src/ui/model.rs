//! The state of the progress display, reduced from engine events and keys.

use std::sync::Arc;

use vstd::prelude::*;

use crate::model::{
    DerivationNode, Manifest, ManifestOutcome, NodeState, Phase, ProgressEvent, RootResult,
};
use crate::ordered::StringMap;
use crate::text;
use crate::ui::job::{derivation_label, Job, JobFilter, JobModel, JobStatus, PhaseStatus};
use crate::ui::state;
use crate::ui::state::{Entry, PhaseTable, UiState, LOG_LINES};

verus! {

/// `std::time::Instant`, carried and read only through [`nanos_since`].
#[verifier::external_type_specification]
#[verifier::external_body]
pub struct ExInstant(std::time::Instant);

/// `std::time::Instant::now`: the current instant, of which nothing is known.
pub assume_specification[ std::time::Instant::now ]() -> std::time::Instant;

/// `std::time::Instant::elapsed`: the nanoseconds since `start`. The reading differs from call to
/// call, so nothing is stated of it.
#[verifier::external_body]
fn nanos_since(start: &std::time::Instant) -> u128 {
    start.elapsed().as_nanos()
}

/// The longest span of time that a clock can show, in nanoseconds.
pub const MAX_SPAN: u128 = 18_446_744_073_709_551_615_999_999_999;

/// Where the model reads time from.
#[derive(Debug)]
enum TimeSource {
    /// Time is measured from this instant.
    System(std::time::Instant),
    /// Time moves only on request.
    Fixed(u128),
}

impl TimeSource {
    spec fn clock(&self) -> Option<u128> {
        match self {
            TimeSource::System(_) => None,
            TimeSource::Fixed(elapsed) => Some(*elapsed),
        }
    }

    fn now(&self) -> (result: u128)
        ensures
            match *self {
                TimeSource::System(start) => call_ensures(nanos_since, (&start,), result),
                TimeSource::Fixed(elapsed) => result == elapsed,
            },
    {
        match self {
            TimeSource::System(start) => {
                let elapsed: u128 = nanos_since(start);
                assert(call_ensures(nanos_since, (start,), elapsed));
                elapsed
            },
            TimeSource::Fixed(elapsed) => *elapsed,
        }
    }
}

impl PhaseTable {
    fn get(&self, phase: Phase) -> (result: PhaseStatus)
        ensures
            result == self.status(phase),
    {
        match phase {
            Phase::Discovery => self.discovery,
            Phase::Evaluation => self.evaluation,
            Phase::Graph => self.graph,
            Phase::Probe => self.probe,
            Phase::Realization => self.realization,
        }
    }

    fn set(&mut self, phase: Phase, status: PhaseStatus)
        ensures
            *final(self) == old(self).with(phase, status),
    {
        match phase {
            Phase::Discovery => self.discovery = status,
            Phase::Evaluation => self.evaluation = status,
            Phase::Graph => self.graph = status,
            Phase::Probe => self.probe = status,
            Phase::Realization => self.realization = status,
        }
    }
}

impl Job {
    /// Creates a job of which nothing but the path is known.
    fn new(drv_path: &str) -> (result: Self)
        ensures
            result.deep_view() == state::fresh(drv_path@),
    {
        let result = Job {
            drv_path: drv_path.to_owned(),
            label: derivation_label(drv_path),
            dependencies: Vec::new(),
            relationships_known: false,
            dependents: Vec::new(),
            status: JobStatus::Queued,
            started: None,
            settled: None,
            progress: None,
            logs: std::collections::VecDeque::new(),
            log_scroll: 0,
        };
        assert(result.deep_view() =~= state::fresh(drv_path@));
        result
    }

    /// Changes the status at time `now`.
    fn change_status(&mut self, status: JobStatus, now: u128)
        ensures
            final(self).deep_view() == state::timed(
                old(self).deep_view(),
                status,
                now,
            ),
    {
        match status {
            JobStatus::Running => {
                let resumes = match self.status {
                    JobStatus::AwaitingResult | JobStatus::Provisional(_) => true,
                    _ => false,
                };
                if resumes {
                    self.started = match self.settled.take() {
                        Some(elapsed) => Some(now.saturating_sub(elapsed)),
                        None => None,
                    };
                    self.progress = None;
                }
                if self.started.is_none() {
                    self.started = Some(now);
                }
            },
            JobStatus::Settled(_) | JobStatus::AwaitingResult | JobStatus::Provisional(_) => {
                if let Some(start) = self.started {
                    if self.settled.is_none() {
                        self.settled = Some(now.saturating_sub(start));
                    }
                }
            },
            JobStatus::Queued => {},
        }
        self.status = status;
    }

    /// Adds a log line.
    fn add_line(&mut self, line: String)
        requires
            old(self).logs@.len() <= LOG_LINES,
            old(self).log_scroll <= LOG_LINES,
        ensures
            final(self).deep_view() == state::logged(old(self).deep_view(), line@),
    {
        let ghost before = self.logs.deep_view();
        if self.logs.len() == LOG_LINES {
            let _ = self.logs.pop_front();
            assert(self.logs.deep_view() =~= before.drop_first());
        }
        let ghost kept = self.logs.deep_view();
        self.logs.push_back(line);
        assert(self.logs.deep_view() =~= kept.push(line@));
        if self.log_scroll > 0 {
            let top = self.logs.len() - 1;
            self.log_scroll = if self.log_scroll + 1 <= top {
                self.log_scroll + 1
            } else {
                top
            };
        }
    }

    /// Scrolls the log view up by a number of lines, or down by a negative one.
    fn scroll(&mut self, lines: isize)
        requires
            old(self).log_scroll <= old(self).logs@.len() <= LOG_LINES,
        ensures
            final(self).deep_view() == state::scrolled(
                old(self).deep_view(),
                lines as int,
            ),
    {
        let top = if self.logs.len() == 0 {
            0
        } else {
            self.logs.len() - 1
        };
        let wanted: i128 = self.log_scroll as i128 + lines as i128;
        self.log_scroll = if wanted < 0 {
            0
        } else if wanted > top as i128 {
            top
        } else {
            wanted as usize
        };
    }
}

/// The state of the progress display.
#[derive(Debug)]
pub struct Model {
    /// What is being done.
    pub title: String,
    phases: PhaseTable,
    jobs: Vec<Job>,
    job_index: StringMap<usize>,
    visible_jobs: Vec<usize>,
    selected: Option<usize>,
    /// Signal that cancelled the operation.
    pub cancelled: Option<i32>,
    time: TimeSource,
    finished_at: Option<u128>,
    finished: bool,
    /// How the operation ended.
    pub outcome: Option<ManifestOutcome>,
    help_visible: bool,
    filter_query: String,
    filter_input_active: bool,
    job_filter: JobFilter,
}

/// `index` holds the position of every path that a job has.
spec fn indexes(index: StringMap<usize>, jobs: Seq<JobModel>) -> bool {
    &&& index.wf()
    &&& forall|path: Seq<char>|
        #![trigger state::position(jobs, path)]
        #![trigger index@.dom().contains(path)]
        match state::position(jobs, path) {
            Some(i) => index@.dom().contains(path) && index@[path] == i,
            None => !index@.dom().contains(path),
        }
}

impl Model {
    /// Everything the display holds.
    pub closed spec fn state(&self) -> UiState {
        UiState {
            title: self.title@,
            phases: self.phases,
            jobs: self.jobs.deep_view(),
            selected: self.selected,
            cancelled: self.cancelled,
            clock: self.time.clock(),
            finished_at: self.finished_at,
            finished: self.finished,
            outcome: self.outcome,
            help_visible: self.help_visible,
            query: self.filter_query@,
            typing: self.filter_input_active,
            filter: self.job_filter,
        }
    }

    /// Paths and shown positions are looked up rightly.
    pub closed spec fn indexed(&self) -> bool {
        &&& indexes(self.job_index, self.jobs.deep_view())
        &&& self.visible_jobs@ == self.state().visible()
    }

    /// A clock that measures time may give `now`; one that does not gives what the state says.
    pub closed spec fn measures(&self, now: u128) -> bool {
        self.time matches TimeSource::System(start) ==> call_ensures(nanos_since, (&start,), now)
    }

    /// `now` is a time that the model may read.
    pub open spec fn may_read(&self, now: u128) -> bool {
        self.state().may_read(now) && self.measures(now)
    }

    /// The state is consistent, and so is what is derived from it.
    pub open spec fn wf(&self) -> bool {
        &&& self.state().consistent()
        &&& self.indexed()
    }

    fn with_time(title: &str, time: TimeSource) -> (result: Self)
        ensures
            result.wf(),
            result.state() == UiState::initial(title@, time.clock()),
    {
        let result = Model {
            title: title.to_owned(),
            phases: PhaseTable {
                discovery: PhaseStatus::Waiting,
                evaluation: PhaseStatus::Waiting,
                graph: PhaseStatus::Waiting,
                probe: PhaseStatus::Waiting,
                realization: PhaseStatus::Waiting,
            },
            jobs: Vec::new(),
            job_index: StringMap::new(),
            visible_jobs: Vec::new(),
            selected: None,
            cancelled: None,
            time,
            finished_at: None,
            finished: false,
            outcome: None,
            help_visible: false,
            filter_query: String::new(),
            filter_input_active: false,
            job_filter: JobFilter::All,
        };
        proof {
            assert(result.jobs.deep_view() =~= Seq::<JobModel>::empty());
            assert(result.state() =~= UiState::initial(title@, time.clock()));
        }
        result
    }

    /// Creates a model that measures time from now on.
    pub fn new(title: &str) -> (result: Self)
        ensures
            result.wf(),
            result.state() == UiState::initial(title@, None),
    {
        Model::with_time(title, TimeSource::System(std::time::Instant::now()))
    }

    /// Creates a model whose time moves only when [`Model::advance`] says so.
    pub fn fixed(title: &str) -> (result: Self)
        ensures
            result.wf(),
            result.state() == UiState::initial(title@, Some(0)),
    {
        Model::with_time(title, TimeSource::Fixed(0))
    }

    /// Moves a fixed model's clock forward.
    pub fn advance(&mut self, step: u128)
        requires
            old(self).wf(),
            old(self).state().clock matches Some(time) ==> time + step <= MAX_SPAN,
        ensures
            final(self).wf(),
            final(self).state() == old(self).state().advanced(step),
    {
        let moved: Option<u128> = match &self.time {
            TimeSource::Fixed(elapsed) => Some(*elapsed + step),
            TimeSource::System(_) => None,
        };
        if let Some(elapsed) = moved {
            self.time = TimeSource::Fixed(elapsed);
        }
    }
}

/// Returns where `value` is in an ascending list, or where it would have to be inserted.
fn locate(list: &Vec<usize>, value: usize) -> (result: Result<usize, usize>)
    requires
        state::ascending(list@),
    ensures
        match result {
            Ok(at) => at < list@.len() && list@[at as int] == value,
            Err(at) => {
                &&& at <= list@.len()
                &&& !list@.contains(value)
                &&& forall|j: int| 0 <= j < at ==> #[trigger] list@[j] < value
                &&& forall|j: int| at <= j < list@.len() ==> #[trigger] list@[j] > value
            },
        },
{
    let mut low: usize = 0;
    let mut high: usize = list.len();
    while low < high
        invariant
            state::ascending(list@),
            low <= high <= list@.len(),
            forall|j: int| 0 <= j < low ==> #[trigger] list@[j] < value,
            forall|j: int| high <= j < list@.len() ==> #[trigger] list@[j] > value,
        decreases high - low,
    {
        let middle: usize = low + (high - low) / 2;
        let found: usize = list[middle];
        if found == value {
            return Ok(middle);
        }
        if found < value {
            low = middle + 1;
        } else {
            high = middle;
        }
    }
    Err(low)
}

impl Model {
    /// Reports whether the job at `index` is shown, given the lowercase query.
    fn job_matches_query(&self, index: usize, query: &str) -> (result: bool)
        requires
            index < self.jobs@.len(),
            query@ == text::lowercased(self.filter_query@),
        ensures
            result == state::shows(
                self.state().jobs[index as int],
                self.state().query,
                self.state().filter,
            ),
    {
        let job = &self.jobs[index];
        if !self.job_filter.matches(job.status) {
            return false;
        }
        query.is_empty() || text::contains(text::lowercase(job.label.as_str()).as_str(), query)
            || text::contains(text::lowercase(job.drv_path.as_str()).as_str(), query)
    }

    /// Reports whether the job at `index` is shown.
    fn job_matches(&self, index: usize) -> (result: bool)
        requires
            index < self.jobs@.len(),
        ensures
            result == state::shows(
                self.state().jobs[index as int],
                self.state().query,
                self.state().filter,
            ),
    {
        self.job_matches_query(index, text::lowercase(self.filter_query.as_str()).as_str())
    }

    /// Finds the shown jobs anew and moves the selection if its job is not shown.
    fn rebuild_visible_jobs(&mut self)
        ensures
            final(self).state() == old(self).state().reselected(),
            final(self).visible_jobs@ == final(self).state().visible(),
            final(self).job_index == old(self).job_index,
            old(self).state().query.len() == 0 ==> text::lowercased(
                old(self).state().query,
            ).len() == 0,
    {
        let query = text::lowercase(self.filter_query.as_str());
        let ghost jobs = self.jobs.deep_view();
        let ghost state = self.state();
        let mut visible: Vec<usize> = Vec::new();
        let count = self.jobs.len();
        let mut i: usize = 0;
        assert(jobs.take(0) =~= Seq::<JobModel>::empty());
        while i < count
            invariant
                *self == *old(self),
                state == self.state(),
                jobs == state.jobs,
                count == self.jobs@.len(),
                count == jobs.len(),
                i <= count,
                query@ == text::lowercased(self.filter_query@),
                visible@ == state::shown(
                    jobs.take(i as int),
                    state.query,
                    state.filter,
                ),
            decreases count - i,
        {
            proof {
                assert(jobs.take(i + 1).drop_last() =~= jobs.take(i as int));
            }
            if self.job_matches_query(i, query.as_str()) {
                visible.push(i);
            }
            i = i + 1;
        }
        proof {
            assert(jobs.take(count as int) =~= jobs);
            state::lemma_shown(jobs, state.query, state.filter);
        }
        self.visible_jobs = visible;
        let kept = match self.selected {
            Some(selected) => locate(&self.visible_jobs, selected).is_ok(),
            None => false,
        };
        proof {
            if kept {
                let at = choose|at: int|
                    0 <= at < visible@.len() && visible@[at] == self.selected->0;
                assert(visible@.contains(self.selected->0));
            }
        }
        if !kept {
            self.selected = if self.visible_jobs.len() > 0 {
                Some(self.visible_jobs[0])
            } else {
                None
            };
        }
    }

    /// Shows or hides the job at `index` after it changed, and moves the selection with it.
    fn reconcile_job_visibility(&mut self, index: usize)
        requires
            index < old(self).jobs@.len(),
            state::ascending(old(self).visible_jobs@),
            forall|k: usize|
                k != index ==> (#[trigger] old(self).visible_jobs@.contains(k) <==> k < old(
                    self,
                ).jobs@.len() && state::shows(
                    old(self).state().jobs[k as int],
                    old(self).state().query,
                    old(self).state().filter,
                )),
            old(self).selected matches Some(selected) ==> old(self).visible_jobs@.contains(
                selected,
            ),
        ensures
            final(self).state() == old(self).state().reconciled(index),
            final(self).visible_jobs@ == final(self).state().visible(),
            final(self).job_index == old(self).job_index,
    {
        let ghost state = self.state();
        let ghost before = self.visible_jobs@;
        let count = self.jobs.len();
        let matches = self.job_matches(index);
        match locate(&self.visible_jobs, index) {
            Err(at) => {
                if matches {
                    self.visible_jobs.insert(at, index);
                    proof {
                        lemma_listed(before, self.visible_jobs@, at as int, index);
                        state::lemma_shown_unique(
                            state.jobs,
                            state.query,
                            state.filter,
                            self.visible_jobs@,
                        );
                    }
                } else {
                    proof {
                        state::lemma_shown_unique(
                            state.jobs,
                            state.query,
                            state.filter,
                            before,
                        );
                    }
                }
            },
            Ok(at) => {
                proof {
                    assert(before.contains(before[at as int]));
                }
                if !matches {
                    let _ = self.visible_jobs.remove(at);
                    proof {
                        lemma_unlisted(before, self.visible_jobs@, at as int);
                        state::lemma_shown_unique(
                            state.jobs,
                            state.query,
                            state.filter,
                            self.visible_jobs@,
                        );
                        state::lemma_first_above(
                            self.visible_jobs@,
                            index,
                            at as int,
                        );
                    }
                    if self.selected == Some(index) {
                        self.selected = if at < self.visible_jobs.len() {
                            Some(self.visible_jobs[at])
                        } else if self.visible_jobs.len() > 0 {
                            Some(self.visible_jobs[self.visible_jobs.len() - 1])
                        } else {
                            None
                        };
                    }
                } else {
                    proof {
                        state::lemma_shown_unique(
                            state.jobs,
                            state.query,
                            state.filter,
                            before,
                        );
                    }
                }
            },
        }
        if self.selected.is_none() && matches {
            self.selected = Some(index);
        }
    }
}

/// Inserting a number between smaller and larger ones adds it to an ascending list.
proof fn lemma_listed(before: Seq<usize>, after: Seq<usize>, at: int, value: usize)
    requires
        state::ascending(before),
        0 <= at <= before.len(),
        forall|j: int| 0 <= j < at ==> #[trigger] before[j] < value,
        forall|j: int| at <= j < before.len() ==> #[trigger] before[j] > value,
        after == before.insert(at, value),
    ensures
        state::ascending(after),
        forall|k: usize| #[trigger] after.contains(k) <==> (before.contains(k) || k == value),
{
    assert forall|k: usize| #[trigger] after.contains(k) <==> (before.contains(k) || k
        == value) by {
        if after.contains(k) {
            let i = after.index_of(k);
            if i < at {
                assert(before[i] == k);
            } else if i > at {
                assert(before[i - 1] == k);
            }
        }
        if before.contains(k) {
            let i = before.index_of(k);
            if i < at {
                assert(after[i] == k);
            } else {
                assert(after[i + 1] == k);
            }
        }
        if k == value {
            assert(after[at] == k);
        }
    }
}

/// Removing a number from an ascending list removes its only occurrence.
proof fn lemma_unlisted(before: Seq<usize>, after: Seq<usize>, at: int)
    requires
        state::ascending(before),
        0 <= at < before.len(),
        after == before.remove(at),
    ensures
        state::ascending(after),
        forall|k: usize| #[trigger]
            after.contains(k) <==> (before.contains(k) && k != before[at]),
        forall|j: int| 0 <= j < at ==> #[trigger] after[j] <= before[at],
        at < after.len() ==> after[at] > before[at],
{
    assert forall|k: usize| #[trigger] after.contains(k) <==> (before.contains(k) && k
        != before[at]) by {
        if after.contains(k) {
            let i = after.index_of(k);
            let j = if i < at {
                i
            } else {
                i + 1
            };
            assert(before[j] == k);
        }
        if before.contains(k) && k != before[at] {
            let j = before.index_of(k);
            let i = if j < at {
                j
            } else {
                j - 1
            };
            assert(after[i] == k);
        }
    }
}

impl Model {
    /// Returns the position of the job for `drv_path`, adding it if there is none.
    fn ensure_job(&mut self, drv_path: &str) -> (result: usize)
        requires
            old(self).wf(),
        ensures
            final(self).wf(),
            final(self).state() == old(self).state().ensured(drv_path@),
            result == old(self).state().ensured_position(drv_path@),
            result < final(self).state().jobs.len(),
            final(self).state().jobs[result as int].drv_path == drv_path@,
    {
        let ghost state = self.state();
        proof {
            state::lemma_position(state.jobs, drv_path@);
        }
        if let Some(at) = self.job_index.position(drv_path) {
            return *self.job_index.value_at(at);
        }
        let index = self.jobs.len();
        let ghost before = *self;
        self.job_index.insert(drv_path.to_owned(), index);
        self.jobs.push(Job::new(drv_path));
        let count = self.jobs.len();
        let ghost added = self.state();
        proof {
            let jobs = added.jobs;
            assert(jobs =~= state.jobs.push(state::fresh(drv_path@)));
            assert(jobs.drop_last() =~= state.jobs);
            state::lemma_shown(state.jobs, state.query, state.filter);
            assert forall|path: Seq<char>|
                #![trigger state::position(jobs, path)]
                #![trigger self.job_index@.dom().contains(path)]
                match state::position(jobs, path) {
                    Some(i) => self.job_index@.dom().contains(path) && self.job_index@[path] == i,
                    None => !self.job_index@.dom().contains(path),
                } by {
                let known = state::position(state.jobs, path);
            }
            assert forall|i: int| 0 <= i < jobs.len() implies state::job_consistent(
                #[trigger] jobs[i],
                jobs.len(),
            ) by {
                if i < state.jobs.len() {
                    assert(state::job_consistent(state.jobs[i], state.jobs.len()));
                }
            }
            assert forall|k: usize| k != index implies (#[trigger] self.visible_jobs@.contains(k)
                <==> k < jobs.len() && state::shows(
                jobs[k as int],
                added.query,
                added.filter,
            )) by {
                assert(state.visible().contains(k) <==> k < state.jobs.len()
                    && state::shows(state.jobs[k as int], state.query, state.filter));
            }
            assert forall|k: usize| #[trigger] added.visible().contains(k) && state.selected
                is None implies k == index by {
                state::lemma_shown(jobs, state.query, state.filter);
                if k != index {
                    assert(state.visible().contains(k));
                }
            }
            if let Some(selected) = state.selected {
                state::lemma_shown(jobs, state.query, state.filter);
                assert(state.visible().contains(selected));
                assert(added.visible().contains(selected));
            }
            state::lemma_reconciled(added, index);
        }
        self.reconcile_job_visibility(index);
        index
    }

    /// Changes the status of the job at `index`, and shows or hides it.
    fn change_job(&mut self, index: usize, status: JobStatus, now: u128)
        requires
            old(self).wf(),
            index < old(self).state().jobs.len(),
        ensures
            final(self).wf(),
            final(self).state() == (UiState {
                jobs: old(self).state().jobs.update(
                    index as int,
                    state::timed(old(self).state().jobs[index as int], status, now),
                ),
                ..old(self).state()
            }).reconciled(index),
    {
        let ghost state = self.state();
        let ghost before = self.jobs.deep_view();
        let job = &mut self.jobs[index];
        job.change_status(status, now);
        let count = self.jobs.len();
        proof {
            let changed = state::timed(before[index as int], status, now);
            let jobs = self.jobs.deep_view();
            assert(jobs =~= before.update(index as int, changed));
            lemma_same_paths(self.job_index, before, jobs);
            lemma_changed(state, self.state(), index);
            assert forall|k: usize| k != index implies (#[trigger] self.visible_jobs@.contains(k)
                <==> k < jobs.len() && state::shows(
                jobs[k as int],
                state.query,
                state.filter,
            )) by {
                state::lemma_shown(before, state.query, state.filter);
                assert(state.visible().contains(k) <==> k < before.len()
                    && state::shows(before[k as int], state.query, state.filter));
            }
            state::lemma_shown(before, state.query, state.filter);
            state::lemma_reconciled(self.state(), index);
        }
        self.reconcile_job_visibility(index);
    }

    /// Changes the status of the job for `drv_path`, adding it if there is none.
    fn set_job_status(&mut self, drv_path: &str, status: JobStatus, now: u128)
        requires
            old(self).wf(),
        ensures
            final(self).wf(),
            final(self).state() == old(self).state().with_status(drv_path@, status, now),
    {
        let index = self.ensure_job(drv_path);
        self.change_job(index, status, now);
    }

    /// Adds a log line to the job for `drv_path`, adding the job if there is none.
    fn add_job_line(&mut self, drv_path: &str, line: String)
        requires
            old(self).wf(),
        ensures
            final(self).wf(),
            final(self).state() == old(self).state().with_line(drv_path@, line@),
    {
        let index = self.ensure_job(drv_path);
        let ghost state = self.state();
        let ghost before = self.jobs.deep_view();
        proof {
            assert(state::job_consistent(state.jobs[index as int], state.jobs.len()));
            assert(self.jobs@[index as int].logs.deep_view().len() == self.jobs@[index as int].logs@.len());
        }
        let job = &mut self.jobs[index];
        job.add_line(line);
        proof {
            let changed = state::logged(before[index as int], line@);
            assert(self.jobs.deep_view() =~= before.update(index as int, changed));
            lemma_kept(state, self.state(), self.job_index, index);
        }
    }

    /// Records the transfer progress of the job for `drv_path`, adding the job if there is none.
    fn set_job_progress(&mut self, drv_path: &str, done: u64, expected: u64)
        requires
            old(self).wf(),
        ensures
            final(self).wf(),
            final(self).state() == old(self).state().with_progress(drv_path@, done, expected),
    {
        let index = self.ensure_job(drv_path);
        let ghost state = self.state();
        let ghost before = self.jobs.deep_view();
        let job = &mut self.jobs[index];
        job.progress = Some((done, expected));
        proof {
            let changed = JobModel { progress: Some((done, expected)), ..before[index as int] };
            assert(state::job_consistent(before[index as int], before.len()));
            assert(self.jobs.deep_view() =~= before.update(index as int, changed));
            lemma_kept(state, self.state(), self.job_index, index);
        }
    }
}

/// Jobs with the same paths have the same positions.
proof fn lemma_same_paths(index: StringMap<usize>, before: Seq<JobModel>, after: Seq<JobModel>)
    requires
        indexes(index, before),
        before.len() == after.len() <= usize::MAX,
        forall|i: int|
            0 <= i < before.len() ==> (#[trigger] after[i]).drv_path == before[i].drv_path,
    ensures
        indexes(index, after),
{
    assert forall|path: Seq<char>|
        #![trigger state::position(after, path)]
        #![trigger index@.dom().contains(path)]
        match state::position(after, path) {
            Some(i) => index@.dom().contains(path) && index@[path] == i,
            None => !index@.dom().contains(path),
        } by {
        lemma_same_position(before, after, path);
        let i = state::position(before, path);
    }
}

/// Jobs with the same paths have the same positions.
proof fn lemma_same_position(before: Seq<JobModel>, after: Seq<JobModel>, path: Seq<char>)
    requires
        before.len() == after.len() <= usize::MAX,
        forall|i: int|
            0 <= i < before.len() ==> (#[trigger] after[i]).drv_path == before[i].drv_path,
    ensures
        state::position(after, path) == state::position(before, path),
    decreases before.len(),
{
    if before.len() > 0 {
        assert(after[after.len() - 1].drv_path == before[before.len() - 1].drv_path);
        lemma_same_position(before.drop_last(), after.drop_last(), path);
    }
}

/// Changing one job's status keeps the rest consistent, and the selection on shown jobs or on the
/// changed one.
proof fn lemma_changed(before: UiState, after: UiState, index: usize)
    requires
        before.consistent(),
        index < before.jobs.len(),
        after.query == before.query,
        after.filter == before.filter,
        after.selected == before.selected,
        after.jobs.len() == before.jobs.len(),
        forall|i: int| 0 <= i < before.jobs.len() && i != index ==> #[trigger] after.jobs[i] == before.jobs[i],
        after.jobs[index as int].logs == before.jobs[index as int].logs,
        after.jobs[index as int].log_scroll == before.jobs[index as int].log_scroll,
        after.jobs[index as int].dependencies == before.jobs[index as int].dependencies,
        after.jobs[index as int].dependents == before.jobs[index as int].dependents,
    ensures
        forall|i: int|
            0 <= i < after.jobs.len() ==> state::job_consistent(
                #[trigger] after.jobs[i],
                after.jobs.len(),
            ),
        match after.selected {
            Some(selected) => selected == index || after.visible().contains(selected),
            None => forall|k: usize| #[trigger] after.visible().contains(k) ==> k == index,
        },
{
    state::lemma_shown(before.jobs, before.query, before.filter);
    state::lemma_shown(after.jobs, after.query, after.filter);
    assert forall|i: int| 0 <= i < after.jobs.len() implies state::job_consistent(
        #[trigger] after.jobs[i],
        after.jobs.len(),
    ) by {
        assert(state::job_consistent(before.jobs[i], before.jobs.len()));
    }
    match after.selected {
        Some(selected) => {
            assert(before.visible().contains(selected));
            if selected != index {
                assert(after.visible().contains(selected));
            }
        },
        None => {
            assert forall|k: usize| #[trigger] after.visible().contains(k) implies k == index by {
                if k != index {
                    assert(before.visible().contains(k));
                }
            }
        },
    }
}

/// Changing what does not decide whether a job shows keeps everything in place.
proof fn lemma_kept(before: UiState, after: UiState, table: StringMap<usize>, index: usize)
    requires
        before.consistent(),
        indexes(table, before.jobs),
        index < before.jobs.len(),
        after == (UiState { jobs: after.jobs, ..before }),
        after.jobs.len() == before.jobs.len(),
        forall|i: int| 0 <= i < before.jobs.len() && i != index ==> #[trigger] after.jobs[i] == before.jobs[i],
        state::job_consistent(after.jobs[index as int], after.jobs.len()),
        after.jobs[index as int].drv_path == before.jobs[index as int].drv_path,
        after.jobs[index as int].label == before.jobs[index as int].label,
        after.jobs[index as int].status == before.jobs[index as int].status,
    ensures
        after.consistent(),
        after.visible() == before.visible(),
        indexes(table, after.jobs),
{
    state::lemma_shown(before.jobs, before.query, before.filter);
    assert forall|i: usize| #[trigger] before.visible().contains(i) <==> i < after.jobs.len()
        && state::shows(after.jobs[i as int], after.query, after.filter) by {
        assert(i < before.jobs.len() ==> state::shows(
            after.jobs[i as int],
            after.query,
            after.filter,
        ) == state::shows(before.jobs[i as int], before.query, before.filter));
    }
    state::lemma_shown_unique(after.jobs, after.query, after.filter, before.visible());
    lemma_same_paths(table, before.jobs, after.jobs);
    assert forall|i: int| 0 <= i < after.jobs.len() implies state::job_consistent(
        #[trigger] after.jobs[i],
        after.jobs.len(),
    ) by {
        if i != index {
            assert(state::job_consistent(before.jobs[i], before.jobs.len()));
        }
    }
}

/// The nodes' dependency maps are well-formed.
pub open spec fn nodes_wf(nodes: Seq<Arc<DerivationNode>>) -> bool {
    forall|i: int| 0 <= i < nodes.len() ==> (#[trigger] nodes[i]).dependencies.wf()
}

/// `index` holds the position of every path that an entry has.
spec fn indexes_entries(index: StringMap<usize>, entries: Seq<Entry>) -> bool {
    &&& index.wf()
    &&& forall|path: Seq<char>|
        #![trigger state::entry_position(entries, path)]
        #![trigger index@.dom().contains(path)]
        match state::entry_position(entries, path) {
            Some(i) => index@.dom().contains(path) && index@[path] == i,
            None => !index@.dom().contains(path),
        }
}

/// Indexes the nodes by their paths.
fn index_nodes(nodes: &Vec<Arc<DerivationNode>>) -> (result: StringMap<usize>)
    ensures
        indexes_entries(result, state::entries_of(nodes@)),
{
    let ghost entries = state::entries_of(nodes@);
    let mut result: StringMap<usize> = StringMap::new();
    let count = nodes.len();
    let mut i: usize = 0;
    while i < count
        invariant
            entries == state::entries_of(nodes@),
            count == nodes@.len(),
            i <= count,
            indexes_entries(result, entries.take(i as int)),
        decreases count - i,
    {
        let ghost before = result;
        let ghost done = entries.take(i as int);
        result.insert(nodes[i].drv_path.clone(), i);
        proof {
            let after = entries.take(i + 1);
            assert(after.drop_last() =~= done);
            assert forall|path: Seq<char>|
                #![trigger state::entry_position(after, path)]
                #![trigger result@.dom().contains(path)]
                match state::entry_position(after, path) {
                    Some(k) => result@.dom().contains(path) && result@[path] == k,
                    None => !result@.dom().contains(path),
                } by {
                let known = state::entry_position(done, path);
                assert(before@.dom().contains(path) == (known is Some));
            }
        }
        i = i + 1;
    }
    assert(entries.take(count as int) =~= entries);
    result
}

/// Returns the positions of a node's dependencies that are indexed.
fn input_indices(
    index: &StringMap<usize>,
    node: &DerivationNode,
    nodes: &Vec<Arc<DerivationNode>>,
) -> (result: Vec<usize>)
    requires
        indexes_entries(*index, state::entries_of(nodes@)),
    ensures
        result@ == state::input_positions(
            state::entries_of(nodes@),
            node.dependencies.keys(),
        ),
{
    let ghost entries = state::entries_of(nodes@);
    let ghost keys = node.dependencies.keys();
    let mut result: Vec<usize> = Vec::new();
    let count = node.dependencies.len();
    let mut k: usize = 0;
    assert(keys.take(0) =~= Seq::<Seq<char>>::empty());
    while k < count
        invariant
            indexes_entries(*index, entries),
            keys == node.dependencies.keys(),
            count == keys.len(),
            k <= count,
            result@ == state::input_positions(entries, keys.take(k as int)),
        decreases count - k,
    {
        let dependency = node.dependencies.key_at(k);
        proof {
            assert(keys.take(k + 1).drop_last() =~= keys.take(k as int));
            let known = state::entry_position(entries, dependency@);
        }
        if let Some(at) = index.position(dependency.as_str()) {
            result.push(*index.value_at(at));
        }
        k = k + 1;
    }
    assert(keys.take(count as int) =~= keys);
    result
}

/// `existing` holds the last job of every path.
spec fn holds_jobs(existing: StringMap<Job>, jobs: Seq<JobModel>) -> bool {
    &&& existing.wf()
    &&& forall|path: Seq<char>|
        #![trigger state::position(jobs, path)]
        #![trigger existing@.dom().contains(path)]
        match state::position(jobs, path) {
            Some(i) => existing@.dom().contains(path) && existing@[path].deep_view()
                == jobs[i as int],
            None => !existing@.dom().contains(path),
        }
}

/// Files the jobs by their paths.
fn file_jobs(jobs: Vec<Job>) -> (result: StringMap<Job>)
    ensures
        holds_jobs(result, jobs.deep_view()),
{
    let ghost all = jobs.deep_view();
    let ghost given = jobs@;
    let mut result: StringMap<Job> = StringMap::new();
    let count = jobs.len();
    for job in iter: jobs
        invariant
            iter.seq() == given,
            all.len() == given.len(),
            all.len() <= usize::MAX,
            forall|i: int| 0 <= i < all.len() ==> #[trigger] all[i] == given[i].deep_view(),
            holds_jobs(result, all.take(iter.index() as int)),
    {
        let ghost before = result;
        let ghost done = all.take(iter.index() as int);
        let ghost at = iter.index() as int;
        let path = job.drv_path.clone();
        result.insert(path, job);
        proof {
            let after = all.take(at + 1);
            assert(after.drop_last() =~= done);
            assert(after.last() == job.deep_view());
            assert forall|path: Seq<char>|
                #![trigger state::position(after, path)]
                #![trigger result@.dom().contains(path)]
                match state::position(after, path) {
                    Some(k) => result@.dom().contains(path) && result@[path].deep_view()
                        == after[k as int],
                    None => !result@.dom().contains(path),
                } by {
                let known = state::position(done, path);
                assert(before@.dom().contains(path) == (known is Some));
                state::lemma_position(done, path);
            }
        }
    }
    assert(all.take(given.len() as int) =~= all);
    result
}

/// The job of an entry before its dependents are known.
spec fn undirected(jobs: Seq<JobModel>, entries: Seq<Entry>, i: int) -> JobModel {
    JobModel {
        dependents: Seq::empty(),
        ..state::graph_job(jobs, entries, i)
    }
}

/// Makes the jobs of a graph out of the filed jobs, without dependents.
fn graph_jobs(
    existing: StringMap<Job>,
    index: &StringMap<usize>,
    nodes: &Vec<Arc<DerivationNode>>,
    Ghost(known): Ghost<Seq<JobModel>>,
) -> (result: Vec<Job>)
    requires
        holds_jobs(existing, known),
        known.len() <= usize::MAX,
        indexes_entries(*index, state::entries_of(nodes@)),
    ensures
        result@.len() == nodes@.len(),
        forall|i: int|
            0 <= i < nodes@.len() ==> #[trigger] result.deep_view()[i] == undirected(
                known,
                state::entries_of(nodes@),
                i,
            ),
{
    let ghost entries = state::entries_of(nodes@);
    let mut existing = existing;
    let mut result: Vec<Job> = Vec::new();
    let count = nodes.len();
    let mut i: usize = 0;
    while i < count
        invariant
            entries == state::entries_of(nodes@),
            indexes_entries(*index, entries),
            count == nodes@.len(),
            count == entries.len(),
            i <= count,
            result@.len() == i,
            forall|j: int|
                0 <= j < i ==> (#[trigger] result@[j]).deep_view() == undirected(
                    known,
                    entries,
                    j,
                ),
            existing.wf(),
            known.len() <= usize::MAX,
            forall|path: Seq<char>| #[trigger]
                existing@.dom().contains(path) <==> state::position(known, path) is Some
                    && forall|j: int| 0 <= j < i ==> (#[trigger] entries[j]).path != path,
            forall|path: Seq<char>| #[trigger]
                existing@.dom().contains(path) ==> existing@[path].deep_view()
                    == known[state::position(known, path)->0 as int],
        decreases count - i,
    {
        let node = &nodes[i];
        let ghost path = entries[i as int].path;
        let ghost before = existing;
        let dependencies = input_indices(index, node, nodes);
        proof {
            state::lemma_position(known, path);
            assert(before@.dom().contains(path) <==> state::position(known, path)
                is Some && state::is_first_entry(entries, i as int));
        }
        let job = match existing.remove(node.drv_path.as_str()) {
            Some(mut job) => {
                job.dependencies = dependencies;
                job.relationships_known = true;
                job.dependents = Vec::new();
                job
            },
            None => {
                let mut job = Job::new(node.drv_path.as_str());
                job.dependencies = dependencies;
                job.relationships_known = true;
                job
            },
        };
        proof {
            assert(job.deep_view() =~= undirected(known, entries, i as int));
        }
        result.push(job);
        proof {
            assert forall|p: Seq<char>| #[trigger]
                existing@.dom().contains(p) <==> state::position(known, p) is Some
                    && forall|j: int| 0 <= j < i + 1 ==> (#[trigger] entries[j]).path != p by {
                assert(existing@.dom().contains(p) <==> before@.dom().contains(p) && p != path);
                if existing@.dom().contains(p) {
                    assert(before@.dom().contains(p));
                }
                if state::position(known, p) is Some && forall|j: int|
                    0 <= j < i + 1 ==> (#[trigger] entries[j]).path != p {
                    assert(entries[i as int].path != p);
                    assert(before@.dom().contains(p));
                }
            }
            assert forall|p: Seq<char>| #[trigger] existing@.dom().contains(
                p,
            ) implies existing@[p].deep_view() == known[state::position(
                known,
                p,
            )->0 as int] by {
                assert(before@.dom().contains(p));
            }
        }
        i = i + 1;
    }
    assert forall|i: int| 0 <= i < nodes@.len() implies #[trigger] result.deep_view()[i]
        == undirected(known, entries, i) by {
        assert(result@[i].deep_view() == undirected(known, entries, i));
    }
    result
}

/// The job of an entry with its dependents among the first `bound` entries.
spec fn linked(jobs: Seq<JobModel>, entries: Seq<Entry>, i: int, bound: int) -> JobModel {
    JobModel {
        dependents: state::dependent_positions(entries, i as usize, bound),
        ..state::graph_job(jobs, entries, i)
    }
}

/// Tells every job which jobs depend on it.
fn link_dependents(
    jobs: &mut Vec<Job>,
    Ghost(known): Ghost<Seq<JobModel>>,
    Ghost(entries): Ghost<Seq<Entry>>,
)
    requires
        old(jobs)@.len() == entries.len() <= usize::MAX,
        forall|i: int|
            0 <= i < entries.len() ==> #[trigger] old(jobs).deep_view()[i] == undirected(
                known,
                entries,
                i,
            ),
        forall|i: int| 0 <= i < entries.len() ==> (#[trigger] entries[i]).inputs.no_duplicates(),
    ensures
        final(jobs).deep_view() == state::graph_jobs(known, entries),
{
    let count = jobs.len();
    let mut index: usize = 0;
    assert forall|d: int| 0 <= d < count implies (#[trigger] jobs@[d]).deep_view() == linked(
        known,
        entries,
        d,
        0,
    ) by {
        assert(jobs.deep_view()[d] == undirected(known, entries, d));
    }
    while index < count
        invariant
            count == jobs@.len(),
            count == entries.len(),
            index <= count,
            forall|i: int|
                0 <= i < entries.len() ==> (#[trigger] entries[i]).inputs.no_duplicates(),
            forall|d: int|
                0 <= d < count ==> (#[trigger] jobs@[d]).deep_view() == linked(
                    known,
                    entries,
                    d,
                    index as int,
                ),
        decreases count - index,
    {
        let ghost list = state::input_positions(entries, entries[index as int].inputs);
        proof {
            assert(jobs@[index as int].deep_view() == linked(
                known,
                entries,
                index as int,
                index as int,
            ));
            assert(entries[index as int].inputs.no_duplicates());
            state::lemma_input_positions(entries, entries[index as int].inputs);
            state::lemma_inputs_distinct(entries, entries[index as int].inputs);
        }
        let size = jobs[index].dependencies.len();
        let mut k: usize = 0;
        while k < size
            invariant
                count == jobs@.len(),
                count == entries.len(),
                index < count,
                list == state::input_positions(entries, entries[index as int].inputs),
                list.no_duplicates(),
                size == list.len(),
                k <= size,
                forall|j: int| 0 <= j < list.len() ==> #[trigger] list[j] < count,
                forall|d: int|
                    0 <= d < count ==> (#[trigger] jobs@[d]).deep_view() == if list.take(
                        k as int,
                    ).contains(d as usize) {
                        linked(known, entries, d, index + 1)
                    } else {
                        linked(known, entries, d, index as int)
                    },
            decreases size - k,
        {
            let ghost seen = list.take(k as int);
            proof {
                let this = jobs@[index as int].deep_view();
                assert(this.dependencies == list);
            }
            let dependency: usize = jobs[index].dependencies[k];
            let ghost before = jobs@;
            proof {
                assert(dependency == list[k as int]);
                assert(!seen.contains(dependency)) by {
                    if seen.contains(dependency) {
                        let j = seen.index_of(dependency);
                        assert(list[j] == list[k as int]);
                    }
                }
                assert(list.take(k + 1) =~= seen.push(dependency));
                assert(list.contains(list[k as int]));
            }
            let job = &mut jobs[dependency];
            job.dependents.push(index);
            proof {
                assert forall|d: int| 0 <= d < count implies (#[trigger] jobs@[d]).deep_view()
                    == if list.take(k + 1).contains(d as usize) {
                    linked(known, entries, d, index + 1)
                } else {
                    linked(known, entries, d, index as int)
                } by {
                    lemma_pushed_number(seen, dependency, d as usize);
                    if d == dependency {
                        assert(before[d].deep_view() == linked(known, entries, d, index as int));
                        assert(jobs@[d].deep_view() =~= linked(known, entries, d, index + 1));
                    } else {
                        assert(jobs@[d] == before[d]);
                    }
                }
            }
            k = k + 1;
        }
        proof {
            assert(list.take(size as int) =~= list);
            assert forall|d: int| 0 <= d < count implies (#[trigger] jobs@[d]).deep_view()
                == linked(known, entries, d, index + 1) by {
                if !list.contains(d as usize) {
                    assert(linked(known, entries, d, index + 1) =~= linked(
                        known,
                        entries,
                        d,
                        index as int,
                    ));
                }
            }
        }
        index = index + 1;
    }
    proof {
        assert forall|i: int| 0 <= i < count implies #[trigger] jobs.deep_view()[i]
            == state::graph_jobs(known, entries)[i] by {
            assert(jobs@[i].deep_view() == linked(known, entries, i, count as int));
        }
        assert(jobs.deep_view() =~= state::graph_jobs(known, entries));
    }
}

proof fn lemma_pushed_number(list: Seq<usize>, value: usize, x: usize)
    ensures
        list.push(value).contains(x) <==> (list.contains(x) || x == value),
{
    let after = list.push(value);
    if list.contains(x) {
        assert(after[list.index_of(x)] == x);
    }
    if x == value {
        assert(after[list.len() as int] == x);
    }
    if after.contains(x) && x != value {
        assert(list[after.index_of(x)] == x);
    }
}

/// The jobs of a graph are where its entries are, and consistent.
proof fn lemma_graph_jobs(known: Seq<JobModel>, entries: Seq<Entry>)
    requires
        known.len() <= usize::MAX,
        entries.len() <= usize::MAX,
        forall|i: int|
            0 <= i < known.len() ==> state::job_consistent(
                #[trigger] known[i],
                known.len(),
            ),
    ensures
        forall|path: Seq<char>| #[trigger]
            state::position(state::graph_jobs(known, entries), path)
                == state::entry_position(entries, path),
        forall|i: int|
            0 <= i < entries.len() ==> state::job_consistent(
                #[trigger] state::graph_jobs(known, entries)[i],
                entries.len(),
            ),
{
    let jobs = state::graph_jobs(known, entries);
    assert forall|i: int| 0 <= i < entries.len() implies state::job_consistent(
        #[trigger] jobs[i],
        entries.len(),
    ) && jobs[i].drv_path == entries[i].path by {
        state::lemma_position(known, entries[i].path);
        state::lemma_input_positions(entries, entries[i].inputs);
        state::lemma_dependent_positions(entries, i as usize, entries.len() as int);
    }
    assert forall|path: Seq<char>| #[trigger]
        state::position(jobs, path) == state::entry_position(
        entries,
        path,
    ) by {
        state::lemma_position(jobs, path);
        state::lemma_entry_position(entries, path);
        let a = state::position(jobs, path);
        let b = state::entry_position(entries, path);
        match (a, b) {
            (Some(i), Some(j)) => {
                assert(jobs[j as int].drv_path == entries[j as int].path);
                assert(jobs[i as int].drv_path == entries[i as int].path);
                assert(i == j);
            },
            (Some(i), None) => {
                assert(jobs[i as int].drv_path == entries[i as int].path);
            },
            (None, Some(j)) => {
                assert(jobs[j as int].drv_path == entries[j as int].path);
            },
            (None, None) => {},
        }
    }
}

impl Model {
    /// Replaces the jobs by those of a discovered graph, continuing the known ones.
    fn set_graph(&mut self, nodes: &Vec<Arc<DerivationNode>>)
        requires
            old(self).wf(),
            nodes_wf(nodes@),
        ensures
            final(self).wf(),
            final(self).state() == old(self).state().with_graph(
                state::entries_of(nodes@),
            ),
    {
        let ghost state = self.state();
        let ghost known = self.jobs.deep_view();
        let ghost entries = state::entries_of(nodes@);
        let count = self.jobs.len();
        let selected_path: Option<String> = match self.selected {
            Some(selected) => {
                proof {
                    state::lemma_shown(known, state.query, state.filter);
                    assert(state.visible().contains(selected));
                }
                Some(self.jobs[selected].drv_path.clone())
            },
            None => None,
        };
        let mut jobs: Vec<Job> = Vec::new();
        std::mem::swap(&mut jobs, &mut self.jobs);
        let existing = file_jobs(jobs);
        let index = index_nodes(nodes);
        let mut jobs = graph_jobs(existing, &index, nodes, Ghost(known));
        let size = jobs.len();
        proof {
            assert forall|i: int| 0 <= i < entries.len() implies (
            #[trigger] entries[i]).inputs.no_duplicates() by {
                assert(nodes@[i].dependencies.wf());
                let keys = nodes@[i].dependencies.keys();
                assert forall|a: int, b: int|
                    0 <= a < keys.len() && 0 <= b < keys.len() && a != b implies keys[a]
                    != keys[b] by {
                    if keys[a] == keys[b] {
                        crate::ordered::lemma_ascending_distinct(keys, a, b);
                    }
                }
            }
        }
        link_dependents(&mut jobs, Ghost(known), Ghost(entries));
        self.jobs = jobs;
        self.job_index = index;
        let kept: Option<usize> = match &selected_path {
            Some(path) => {
                proof {
                    let known_position = state::entry_position(entries, path@);
                }
                match self.job_index.position(path.as_str()) {
                    Some(at) => Some(*self.job_index.value_at(at)),
                    None => None,
                }
            },
            None => None,
        };
        self.selected = match kept {
            Some(at) => Some(at),
            None => if size > 0 {
                Some(0)
            } else {
                None
            },
        };
        proof {
            lemma_graph_jobs(known, entries);
            let now = self.state().jobs;
            assert forall|path: Seq<char>|
                #![trigger state::position(now, path)]
                #![trigger self.job_index@.dom().contains(path)]
                match state::position(now, path) {
                    Some(i) => self.job_index@.dom().contains(path) && self.job_index@[path] == i,
                    None => !self.job_index@.dom().contains(path),
                } by {
                let p = state::entry_position(entries, path);
                assert(state::position(now, path) == p);
            }
            state::lemma_reselected(self.state());
        }
        self.rebuild_visible_jobs();
    }
}

/// The nodes of a discovered graph are well-formed.
pub open spec fn event_wf(event: ProgressEvent) -> bool {
    event matches ProgressEvent::GraphDiscovered(nodes) ==> nodes_wf(nodes@)
}

impl Model {
    /// Takes a progress event.
    pub fn apply(&mut self, event: ProgressEvent)
        requires
            old(self).wf(),
            event_wf(event),
        ensures
            final(self).wf(),
            exists|now: u128| #[trigger]
                old(self).may_read(now) && final(self).state() == old(self).state().applied(event, now),
    {
        let now = self.time.now();
        assert(self.may_read(now));
        self.apply_at(event, now);
    }

    /// Takes a progress event that was received at time `now`.
    pub fn apply_at(&mut self, event: ProgressEvent, now: u128)
        requires
            old(self).wf(),
            event_wf(event),
        ensures
            final(self).wf(),
            final(self).state() == old(self).state().applied(event, now),
    {
        match event {
            ProgressEvent::PhaseStarted(phase) => self.phases.set(phase, PhaseStatus::Active),
            ProgressEvent::PhaseFinished(phase) => self.phases.set(phase, PhaseStatus::Complete),
            ProgressEvent::GraphDiscovered(nodes) => self.set_graph(&nodes),
            ProgressEvent::GraphIncomplete => {},
            ProgressEvent::NodeStarted { drv_path } => {
                self.set_job_status(drv_path.as_str(), JobStatus::Running, now);
            },
            ProgressEvent::NodeActivityStopped { drv_path } => {
                self.set_job_status(drv_path.as_str(), JobStatus::AwaitingResult, now);
            },
            ProgressEvent::NodeProvisionalFinished { drv_path, state } => {
                self.set_job_status(drv_path.as_str(), JobStatus::Provisional(state), now);
            },
            ProgressEvent::NodeLogLine { drv_path, line } => {
                self.add_job_line(drv_path.as_str(), line);
            },
            ProgressEvent::NodeProgress { drv_path, done, expected } => {
                self.set_job_progress(drv_path.as_str(), done, expected);
            },
            ProgressEvent::NodeFinished { drv_path, state } => {
                self.set_job_status(drv_path.as_str(), JobStatus::Settled(state), now);
            },
            ProgressEvent::Cancelled { signal } => {
                self.cancelled = Some(signal);
            },
        }
    }
}

/// Returns the names of the roots that were evaluated to `drv_path`.
fn names_of_roots(roots: &Vec<RootResult>, drv_path: &str) -> (result: Vec<String>)
    ensures
        result.deep_view() == state::root_names(roots@, drv_path@),
{
    let mut result: Vec<String> = Vec::new();
    let count = roots.len();
    let mut i: usize = 0;
    assert(roots@.take(0) =~= Seq::<RootResult>::empty());
    assert(result.deep_view() =~= Seq::<Seq<char>>::empty());
    while i < count
        invariant
            count == roots@.len(),
            i <= count,
            result.deep_view() == state::root_names(roots@.take(i as int), drv_path@),
        decreases count - i,
    {
        let ghost before = result.deep_view();
        proof {
            assert(roots@.take(i + 1).drop_last() =~= roots@.take(i as int));
        }
        if let Some(path) = &roots[i].drv_path {
            if text::same(path.as_str(), drv_path) {
                result.push(roots[i].name.clone());
                assert(result.deep_view() =~= before.push(roots@[i as int].name@));
            }
        }
        i = i + 1;
    }
    assert(roots@.take(count as int) =~= roots@);
    result
}

/// Labels every job that roots were evaluated to with their names.
fn label_jobs(jobs: &mut Vec<Job>, roots: &Vec<RootResult>)
    ensures
        final(jobs).deep_view() == Seq::new(
            old(jobs)@.len(),
            |i: int| state::labelled(old(jobs).deep_view()[i], roots@),
        ),
{
    let ghost before = jobs.deep_view();
    let count = jobs.len();
    let mut i: usize = 0;
    while i < count
        invariant
            count == jobs@.len(),
            count == before.len(),
            i <= count,
            forall|j: int|
                0 <= j < count ==> (#[trigger] jobs@[j]).deep_view() == if j < i {
                    state::labelled(before[j], roots@)
                } else {
                    before[j]
                },
        decreases count - i,
    {
        let names = names_of_roots(roots, jobs[i].drv_path.as_str());
        assert(jobs@[i as int].deep_view() == before[i as int]);
        if names.len() > 0 {
            let label = text::join(&names, " · ");
            let job = &mut jobs[i];
            job.label = label;
        }
        i = i + 1;
    }
    assert(jobs.deep_view() =~= Seq::new(
        before.len(),
        |i: int| state::labelled(before[i], roots@),
    ));
}

/// Settles every job that did not settle by itself, as the outcome asks.
fn conclude_jobs(jobs: &mut Vec<Job>, outcome: ManifestOutcome)
    ensures
        final(jobs).deep_view() == Seq::new(
            old(jobs)@.len(),
            |i: int| state::concluded(old(jobs).deep_view()[i], outcome),
        ),
{
    let ghost before = jobs.deep_view();
    let cancelled = match outcome {
        ManifestOutcome::Cancelled => true,
        _ => false,
    };
    let count = jobs.len();
    let mut i: usize = 0;
    while i < count
        invariant
            cancelled == (outcome == ManifestOutcome::Cancelled),
            count == jobs@.len(),
            count == before.len(),
            i <= count,
            forall|j: int|
                0 <= j < count ==> (#[trigger] jobs@[j]).deep_view() == if j < i {
                    state::concluded(before[j], outcome)
                } else {
                    before[j]
                },
        decreases count - i,
    {
        assert(jobs@[i as int].deep_view() == before[i as int]);
        let job = &mut jobs[i];
        match job.status {
            JobStatus::Settled(_) => {},
            JobStatus::Provisional(state) => {
                job.status = JobStatus::Settled(
                    if cancelled {
                        NodeState::Cancelled
                    } else {
                        state
                    },
                );
            },
            _ => {
                if cancelled {
                    job.status = JobStatus::Settled(NodeState::Cancelled);
                }
            },
        }
        i = i + 1;
    }
    assert(jobs.deep_view() =~= Seq::new(
        before.len(),
        |i: int| state::concluded(before[i], outcome),
    ));
}

/// Changing only labels, statuses and times keeps paths and consistency.
spec fn similar(before: JobModel, after: JobModel) -> bool {
    &&& after.drv_path == before.drv_path
    &&& after.logs == before.logs
    &&& after.log_scroll == before.log_scroll
    &&& after.dependencies == before.dependencies
    &&& after.dependents == before.dependents
}

impl Model {
    /// Settles the jobs that a manifest has results for.
    fn settle_results(
        &mut self,
        manifest: &Manifest,
        now: u128,
    )
        requires
            indexes(old(self).job_index, old(self).state().jobs),
            old(self).state().jobs.len() <= usize::MAX,
        ensures
            final(self).state() == (UiState {
                jobs: state::with_results(old(self).state().jobs, manifest.nodes@, now),
                ..old(self).state()
            }),
            indexes(final(self).job_index, final(self).state().jobs),
            final(self).state().jobs.len() == old(self).state().jobs.len(),
            forall|i: int|
                0 <= i < old(self).state().jobs.len() ==> similar(
                    old(self).state().jobs[i],
                    #[trigger] final(self).state().jobs[i],
                ),
    {
        let ghost state = self.state();
        let nodes = &manifest.nodes;
        let count = nodes.len();
        let mut i: usize = 0;
        assert(nodes@.take(0) =~= Seq::<crate::model::NodeResult>::empty());
        assert(self.state() =~= UiState { jobs: state.jobs, ..state });
        while i < count
            invariant
                *nodes == manifest.nodes,
                count == nodes@.len(),
                i <= count,
                indexes(self.job_index, self.state().jobs),
                self.state().jobs.len() == state.jobs.len(),
                state.jobs.len() <= usize::MAX,
                self.state() == (UiState {
                    jobs: state::with_results(
                        state.jobs,
                        nodes@.take(i as int),
                        now,
                    ),
                    ..state
                }),
                forall|k: int|
                    0 <= k < state.jobs.len() ==> similar(
                        state.jobs[k],
                        #[trigger] self.state().jobs[k],
                    ),
            decreases count - i,
        {
            let ghost before = self.state().jobs;
            proof {
                assert(nodes@.take(i + 1).drop_last() =~= nodes@.take(i as int));
                state::lemma_position(before, nodes@[i as int].drv_path@);
                let p = state::position(before, nodes@[i as int].drv_path@);
            }
            if let Some(at) = self.job_index.position(nodes[i].drv_path.as_str()) {
                let index = *self.job_index.value_at(at);
                let state_of_node = nodes[i].state;
                let job = &mut self.jobs[index];
                job.change_status(JobStatus::Settled(state_of_node), now);
                proof {
                    let after = self.state().jobs;
                    let changed = state::timed(
                        before[index as int],
                        JobStatus::Settled(state_of_node),
                        now,
                    );
                    assert(after =~= before.update(index as int, changed));
                    lemma_same_paths(self.job_index, before, after);
                    assert forall|k: int| 0 <= k < state.jobs.len() implies similar(
                        state.jobs[k],
                        #[trigger] after[k],
                    ) by {
                        assert(similar(state.jobs[k], before[k]));
                    }
                }
            }
            i = i + 1;
        }
        assert(nodes@.take(count as int) =~= nodes@);
    }

    /// Ends the operation with its manifest.
    pub fn finish(&mut self, manifest: &Manifest)
        requires
            old(self).wf(),
            nodes_wf(manifest.graph@),
        ensures
            final(self).wf(),
            exists|now: u128| #[trigger]
                old(self).may_read(now) && final(self).state() == old(self).state().ended(
                    *manifest,
                    now,
                ),
    {
        let now = self.time.now();
        assert(self.may_read(now));
        self.finish_at(manifest, now);
    }

    /// Ends the operation with its manifest at time `now`.
    pub fn finish_at(&mut self, manifest: &Manifest, now: u128)
        requires
            old(self).wf(),
            nodes_wf(manifest.graph@),
        ensures
            final(self).wf(),
            final(self).state() == old(self).state().ended(*manifest, now),
    {
        if self.jobs.len() == 0 {
            self.set_graph(&manifest.graph);
        }
        let ghost known = self.state();
        label_jobs(&mut self.jobs, &manifest.roots);
        let ghost named = self.state();
        proof {
            lemma_same_paths(self.job_index, known.jobs, named.jobs);
        }
        self.settle_results(manifest, now);
        let ghost resulting = self.state();
        conclude_jobs(&mut self.jobs, manifest.outcome);
        self.outcome = Some(manifest.outcome);
        proof {
            lemma_same_paths(self.job_index, resulting.jobs, self.state().jobs);
            let jobs = self.state().jobs;
            assert forall|i: int| 0 <= i < jobs.len() implies state::job_consistent(
                #[trigger] jobs[i],
                jobs.len(),
            ) by {
                assert(state::job_consistent(known.jobs[i], known.jobs.len()));
                assert(similar(known.jobs[i], named.jobs[i]));
                assert(similar(named.jobs[i], resulting.jobs[i]));
            }
            state::lemma_reselected(self.state());
        }
        self.rebuild_visible_jobs();
        self.complete_at(now);
    }

    /// Marks the operation as finished.
    pub fn complete(&mut self)
        requires
            old(self).wf(),
        ensures
            final(self).wf(),
            exists|now: u128| #[trigger]
                old(self).may_read(now) && final(self).state() == old(self).state().completed(now),
    {
        let now = self.time.now();
        assert(self.may_read(now));
        self.complete_at(now);
    }

    /// Marks the operation as finished at time `now`.
    pub fn complete_at(&mut self, now: u128)
        requires
            old(self).wf(),
        ensures
            final(self).wf(),
            final(self).state() == old(self).state().completed(now),
    {
        if self.finished_at.is_none() {
            self.finished_at = Some(now);
        }
        self.finished = true;
    }

    /// Returns how long this model has been running, frozen once it finished.
    pub fn now(&self) -> (result: u128)
        ensures
            match self.state().finished_at {
                Some(time) => result == time,
                None => self.may_read(result),
            },
    {
        match self.finished_at {
            Some(time) => time,
            None => self.time.now(),
        }
    }

    /// Returns how long this model has been running, frozen once it finished.
    pub fn elapsed(&self) -> (result: u128)
        ensures
            match self.state().finished_at {
                Some(time) => result == time,
                None => self.may_read(result),
            },
    {
        self.now()
    }

    /// Returns how many jobs have settled.
    pub fn settled(&self) -> (result: usize)
        ensures
            result == state::settled_count(self.state().jobs),
    {
        let ghost jobs = self.state().jobs;
        let count = self.jobs.len();
        let mut result: usize = 0;
        let mut i: usize = 0;
        assert(jobs.take(0) =~= Seq::<JobModel>::empty());
        while i < count
            invariant
                jobs == self.state().jobs,
                count == self.jobs@.len(),
                count == jobs.len(),
                i <= count,
                result <= i,
                result == state::settled_count(jobs.take(i as int)),
            decreases count - i,
        {
            assert(jobs.take(i + 1).drop_last() =~= jobs.take(i as int));
            if let JobStatus::Settled(_) = self.jobs[i].status {
                result = result + 1;
            }
            i = i + 1;
        }
        assert(jobs.take(count as int) =~= jobs);
        result
    }

    /// Returns what is being done.
    pub fn title(&self) -> (result: &str)
        ensures
            result@ == self.state().title,
    {
        self.title.as_str()
    }

    /// Returns the signal that cancelled the operation.
    pub fn cancelled(&self) -> (result: Option<i32>)
        ensures
            result == self.state().cancelled,
    {
        self.cancelled
    }

    /// Returns how the operation ended.
    pub fn outcome(&self) -> (result: Option<ManifestOutcome>)
        ensures
            result == self.state().outcome,
    {
        self.outcome
    }

    /// Reports whether the operation finished.
    pub fn finished(&self) -> (result: bool)
        ensures
            result == self.state().finished,
    {
        self.finished
    }

    /// Reports whether the key help is shown.
    pub fn help_visible(&self) -> (result: bool)
        ensures
            result == self.state().help_visible,
    {
        self.help_visible
    }

    /// Shows the key help, or hides it.
    pub fn toggle_help(&mut self)
        requires
            old(self).wf(),
        ensures
            final(self).wf(),
            final(self).state() == (UiState {
                help_visible: !old(self).state().help_visible,
                ..old(self).state()
            }),
    {
        self.help_visible = !self.help_visible;
    }

    /// Returns the progress of a phase.
    pub fn phase(&self, phase: Phase) -> (result: PhaseStatus)
        ensures
            result == self.state().phases.status(phase),
    {
        self.phases.get(phase)
    }

    /// Returns the jobs.
    pub fn jobs(&self) -> (result: &Vec<Job>)
        ensures
            result.deep_view() == self.state().jobs,
    {
        &self.jobs
    }

    /// Returns the positions of the shown jobs.
    pub fn visible_job_indices(&self) -> (result: &Vec<usize>)
        requires
            self.wf(),
        ensures
            result@ == self.state().visible(),
    {
        &self.visible_jobs
    }

    /// Returns where the selected job stands among the shown ones.
    pub fn selected_visible(&self) -> (result: Option<usize>)
        requires
            self.wf(),
        ensures
            match result {
                Some(at) => {
                    &&& at < self.state().visible().len()
                    &&& self.state().selected == Some(self.state().visible()[at as int])
                },
                None => self.state().selected is None,
            },
    {
        match self.selected {
            None => None,
            Some(selected) => {
                let ghost state = self.state();
                let count = self.jobs.len();
                proof {
                    state::lemma_shown(state.jobs, state.query, state.filter);
                }
                match locate(&self.visible_jobs, selected) {
                    Ok(at) => Some(at),
                    Err(_) => None,
                }
            },
        }
    }

    /// Returns the text that shown jobs contain.
    pub fn filter_query(&self) -> (result: &str)
        ensures
            result@ == self.state().query,
    {
        self.filter_query.as_str()
    }

    /// Reports whether keys extend the query.
    pub fn filter_input_active(&self) -> (result: bool)
        ensures
            result == self.state().typing,
    {
        self.filter_input_active
    }

    /// Returns the status that shown jobs have.
    pub fn job_filter(&self) -> (result: JobFilter)
        ensures
            result == self.state().filter,
    {
        self.job_filter
    }

    /// Lets keys extend the query.
    pub fn start_filter_input(&mut self)
        requires
            old(self).wf(),
        ensures
            final(self).wf(),
            final(self).state() == (UiState { typing: true, ..old(self).state() }),
    {
        self.filter_input_active = true;
    }

    /// Stops keys from extending the query.
    pub fn finish_filter_input(&mut self)
        requires
            old(self).wf(),
        ensures
            final(self).wf(),
            final(self).state() == (UiState { typing: false, ..old(self).state() }),
    {
        self.filter_input_active = false;
    }

    /// Adds a character to the query.
    pub fn push_filter_character(&mut self, character: char)
        requires
            old(self).wf(),
        ensures
            final(self).wf(),
            final(self).state() == (UiState {
                query: old(self).state().query.push(character),
                ..old(self).state()
            }).reselected(),
    {
        self.filter_query.push(character);
        proof {
            state::lemma_reselected(self.state());
        }
        self.rebuild_visible_jobs();
    }

    /// Removes the last character of the query.
    pub fn pop_filter_character(&mut self)
        requires
            old(self).wf(),
        ensures
            final(self).wf(),
            final(self).state() == (UiState {
                query: if old(self).state().query.len() > 0 {
                    old(self).state().query.drop_last()
                } else {
                    old(self).state().query
                },
                ..old(self).state()
            }).reselected(),
    {
        let _ = self.filter_query.pop();
        proof {
            state::lemma_reselected(self.state());
        }
        self.rebuild_visible_jobs();
    }

    /// Removes every filter, so that every job is shown.
    pub fn clear_filters(&mut self)
        requires
            old(self).wf(),
        ensures
            final(self).wf(),
            final(self).state() == old(self).state().unfiltered(),
            forall|i: usize|
                i < final(self).state().jobs.len() ==> #[trigger] final(self).state().visible().contains(i),
    {
        self.filter_query = String::new();
        self.filter_input_active = false;
        self.job_filter = JobFilter::All;
        let count = self.jobs.len();
        proof {
            state::lemma_reselected(self.state());
            state::lemma_shown(self.state().jobs, Seq::empty(), JobFilter::All);
        }
        self.rebuild_visible_jobs();
    }

    /// Shows the jobs of the next status filter, or of the one before.
    pub fn cycle_job_filter(&mut self, reverse: bool)
        requires
            old(self).wf(),
        ensures
            final(self).wf(),
            final(self).state() == (UiState {
                filter: final(self).state().filter,
                ..old(self).state()
            }).reselected(),
            final(self).state().filter.rank() == if reverse {
                (old(self).state().filter.rank() + 5) % 6
            } else {
                (old(self).state().filter.rank() + 1) % 6
            },
    {
        self.set_job_filter(self.job_filter.next(reverse));
    }

    /// Shows only jobs that pass a status filter.
    pub fn set_job_filter(&mut self, filter: JobFilter)
        requires
            old(self).wf(),
        ensures
            final(self).wf(),
            final(self).state() == (UiState { filter, ..old(self).state() }).reselected(),
    {
        self.job_filter = filter;
        proof {
            state::lemma_reselected(self.state());
        }
        self.rebuild_visible_jobs();
    }

    /// Returns the position of the selected job.
    pub fn selected(&self) -> (result: Option<usize>)
        ensures
            result == self.state().selected,
    {
        self.selected
    }

    /// Scrolls the selected job's log view up by a number of lines, or down by a negative one.
    pub fn scroll_logs(&mut self, lines: isize)
        requires
            old(self).wf(),
        ensures
            final(self).wf(),
            final(self).state() == old(self).state().with_scroll(lines as int),
    {
        let ghost state = self.state();
        let count = self.jobs.len();
        if let Some(index) = self.selected {
            proof {
                state::lemma_shown(state.jobs, state.query, state.filter);
                assert(state.visible().contains(index));
                assert(state::job_consistent(
                    state.jobs[index as int],
                    state.jobs.len(),
                ));
                assert(self.jobs@[index as int].logs.deep_view().len()
                    == self.jobs@[index as int].logs@.len());
            }
            let job = &mut self.jobs[index];
            job.scroll(lines);
            proof {
                let changed = state::scrolled(state.jobs[index as int], lines as int);
                assert(self.jobs.deep_view() =~= state.jobs.update(index as int, changed));
                lemma_kept(state, self.state(), self.job_index, index);
            }
        }
    }

    /// Moves the selected job's log view to its end.
    pub fn follow_logs(&mut self)
        requires
            old(self).wf(),
        ensures
            final(self).wf(),
            final(self).state() == old(self).state().following(),
    {
        let ghost state = self.state();
        let count = self.jobs.len();
        if let Some(index) = self.selected {
            proof {
                state::lemma_shown(state.jobs, state.query, state.filter);
                assert(state.visible().contains(index));
                assert(state::job_consistent(
                    state.jobs[index as int],
                    state.jobs.len(),
                ));
            }
            let job = &mut self.jobs[index];
            job.log_scroll = 0;
            proof {
                let changed = JobModel { log_scroll: 0, ..state.jobs[index as int] };
                assert(self.jobs.deep_view() =~= state.jobs.update(index as int, changed));
                lemma_kept(state, self.state(), self.job_index, index);
            }
        }
    }

    /// Selects the next shown job; the first comes after the last.
    pub fn select_next(&mut self)
        requires
            old(self).wf(),
        ensures
            final(self).wf(),
            final(self).state() == old(self).state().moved(1),
    {
        self.select_visible(1);
    }

    /// Selects the shown job before; the last comes before the first.
    pub fn select_previous(&mut self)
        requires
            old(self).wf(),
        ensures
            final(self).wf(),
            final(self).state() == old(self).state().moved(-1),
    {
        self.select_visible(-1);
    }

    /// Selects the first shown job.
    pub fn select_first(&mut self)
        requires
            old(self).wf(),
        ensures
            final(self).wf(),
            final(self).state() == (UiState {
                selected: old(self).state().first(),
                ..old(self).state()
            }),
    {
        self.selected = if self.visible_jobs.len() > 0 {
            Some(self.visible_jobs[0])
        } else {
            None
        };
        proof {
            if self.visible_jobs@.len() > 0 {
                assert(self.visible_jobs@.contains(self.visible_jobs@[0]));
            }
        }
    }

    /// Selects the last shown job.
    pub fn select_last(&mut self)
        requires
            old(self).wf(),
        ensures
            final(self).wf(),
            final(self).state() == (UiState {
                selected: old(self).state().last(),
                ..old(self).state()
            }),
    {
        self.selected = if self.visible_jobs.len() > 0 {
            Some(self.visible_jobs[self.visible_jobs.len() - 1])
        } else {
            None
        };
        proof {
            if self.visible_jobs@.len() > 0 {
                assert(self.visible_jobs@.contains(self.visible_jobs@.last()));
            }
        }
    }

    /// Returns the positions of the jobs that the selected job depends on.
    pub fn focused_dependencies(&self) -> (result: Vec<usize>)
        requires
            self.wf(),
        ensures
            result@ == match self.state().selected {
                Some(selected) => self.state().jobs[selected as int].dependencies,
                None => Seq::empty(),
            },
    {
        match self.selected {
            Some(selected) => {
                let ghost state = self.state();
                let count = self.jobs.len();
                proof {
                    state::lemma_shown(state.jobs, state.query, state.filter);
                    assert(state.visible().contains(selected));
                }
                self.jobs[selected].dependencies.clone()
            },
            None => Vec::new(),
        }
    }

    /// Moves the selection `delta` shown jobs ahead.
    fn select_visible(&mut self, delta: isize)
        requires
            old(self).wf(),
        ensures
            final(self).wf(),
            final(self).state() == old(self).state().moved(delta as int),
    {
        let ghost state = self.state();
        let ghost list = state.visible();
        let current = self.selected_visible();
        proof {
            let count = self.jobs.len();
            state::lemma_shown(state.jobs, state.query, state.filter);
            if let Some(at) = current {
                assert(list.contains(list[at as int]));
                let other = list.index_of(list[at as int]);
                assert(other == at);
            }
        }
        self.selected = match select(current, self.visible_jobs.len(), delta) {
            Some(at) => Some(self.visible_jobs[at]),
            None => None,
        };
        proof {
            if let Some(selected) = self.selected {
                assert(list.contains(selected));
            }
        }
    }
}

/// Returns the position `delta` positions after `current` in a ring of `length` positions.
fn select(current: Option<usize>, length: usize, delta: isize) -> (result: Option<usize>)
    ensures
        match result {
            Some(at) => {
                &&& length > 0
                &&& at == state::around(
                    match current {
                        Some(at) => at as int,
                        None => 0,
                    },
                    delta as int,
                    length as int,
                )
                &&& at < length
            },
            None => length == 0,
        },
{
    if length == 0 {
        return None;
    }
    let ring: i128 = length as i128;
    let start: i128 = match current {
        Some(at) => at as i128,
        None => 0,
    };
    let sum: i128 = start + delta as i128;
    let at: i128 = if sum >= 0 {
        sum % ring
    } else {
        let back: i128 = (-sum) % ring;
        if back == 0 {
            0
        } else {
            ring - back
        }
    };
    proof {
        if sum < 0 {
            let back = (-sum) % (ring as int);
            let turns = (-sum) / (ring as int);
            vstd::arithmetic::div_mod::lemma_fundamental_div_mod(-sum, ring as int);
            if back == 0 {
                assert(sum == (-turns) * ring + 0) by (nonlinear_arith)
                    requires
                        -sum == ring * turns + 0,
                ;
                vstd::arithmetic::div_mod::lemma_fundamental_div_mod_converse(
                    sum as int,
                    ring as int,
                    -turns,
                    0,
                );
            } else {
                assert(sum == (-turns - 1) * ring + (ring - back)) by (nonlinear_arith)
                    requires
                        -sum == ring * turns + back,
                ;
                vstd::arithmetic::div_mod::lemma_fundamental_div_mod_converse(
                    sum as int,
                    ring as int,
                    -turns - 1,
                    ring - back,
                );
            }
        }
    }
    Some(at as usize)
}

} // verus!
