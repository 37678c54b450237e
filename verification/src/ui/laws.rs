//! What holds of the progress display as a whole.

use vstd::prelude::*;

use crate::model::{
    Manifest, ManifestOutcome, NodeResult, NodeState, Phase, ProgressEvent, RootResult,
};
use crate::text;
use crate::ui::job::{JobFilter, JobModel, JobStatus, PhaseStatus};
use crate::ui::state;
use crate::ui::state::{Entry, UiState, LOG_LINES};

verus! {

/// Selecting the next job and then the one before, or the other way round, changes nothing.
pub proof fn law_next_and_previous_undo_each_other(state: UiState)
    requires
        state.consistent(),
    ensures
        state.moved(1).moved(-1) == state,
        state.moved(-1).moved(1) == state,
{
    let list = state.visible();
    state::lemma_shown(state.jobs, state.query, state.filter);
    if let Some(selected) = state.selected {
        let n = list.len() as int;
        let at = list.index_of(selected);
        assert(list[at] == selected);
        let up = state::around(at, 1, n);
        let down = state::around(at, -1, n);
        assert(up == if at + 1 == n {
            0
        } else {
            at + 1
        }) by {
            lemma_ring(at + 1, n);
        }
        assert(down == if at == 0 {
            n - 1
        } else {
            at - 1
        }) by {
            lemma_ring(at - 1, n);
        }
        assert(list.contains(list[up]));
        assert(list.contains(list[down]));
        assert(list.index_of(list[up]) == up);
        assert(list.index_of(list[down]) == down);
        lemma_ring(up - 1, n);
        lemma_ring(down + 1, n);
    }
    assert(state.moved(1).moved(-1) =~= state);
    assert(state.moved(-1).moved(1) =~= state);
}

/// Positions at most one turn away from a ring wrap around once.
proof fn lemma_ring(x: int, n: int)
    requires
        -n <= x < 2 * n,
        n > 0,
    ensures
        x % n == if x < 0 {
            x + n
        } else if x < n {
            x
        } else {
            x - n
        },
{
    if x < 0 {
        vstd::arithmetic::div_mod::lemma_fundamental_div_mod_converse(x, n, -1, x + n);
    } else if x < n {
        vstd::arithmetic::div_mod::lemma_fundamental_div_mod_converse(x, n, 0, x);
    } else {
        vstd::arithmetic::div_mod::lemma_fundamental_div_mod_converse(x, n, 1, x - n);
    }
}

/// Moving the selection keeps the display consistent.
pub proof fn law_moving_keeps_a_shown_job_selected(state: UiState, step: int)
    requires
        state.consistent(),
    ensures
        state.moved(step).consistent(),
        state.moved(step).visible() == state.visible(),
{
    let list = state.visible();
    if let Some(selected) = state.selected {
        let at = state::around(list.index_of(selected), step, list.len() as int);
        vstd::arithmetic::div_mod::lemma_mod_bound(
            list.index_of(selected) + step,
            list.len() as int,
        );
        assert(list.contains(list[at]));
    }
}

/// A job whose activity stopped keeps its duration, whatever the time and whatever state it
/// settles in.
pub proof fn law_settled_jobs_keep_their_duration(
    job: JobModel,
    state: NodeState,
    at: u128,
    now: u128,
    later: u128,
)
    requires
        job.settled is Some,
    ensures
        job.duration(now) == job.duration(later),
        state::timed(job, JobStatus::Settled(state), at).duration(later) == job.duration(now),
{
}

/// Time spent waiting for a result does not count: a job that ran from `start` to `stop` and runs
/// again from `resume` has been active for both spans together.
pub proof fn law_waiting_is_not_counted(
    job: JobModel,
    start: u128,
    stop: u128,
    resume: u128,
    now: u128,
)
    requires
        job.status is Running,
        job.started == Some(start),
        job.settled is None,
        start <= stop <= resume <= now,
    ensures
        ({
            let waiting = state::timed(job, JobStatus::AwaitingResult, stop);
            let running = state::timed(waiting, JobStatus::Running, resume);
            &&& waiting.duration(now) == Some((stop - start) as u128)
            &&& running.duration(now) == Some((stop - start + (now - resume)) as u128)
        }),
{
}

/// A job that never ran has no duration, even after it settled.
pub proof fn law_unreported_jobs_have_no_duration(job: JobModel, state: NodeState, at: u128, now: u128)
    requires
        job.started is None,
        job.settled is None,
    ensures
        state::timed(job, JobStatus::Settled(state), at).duration(now) is None,
{
}

/// A log keeps at most its number of lines, the newest of which comes last; while there is room
/// nothing leaves it.
pub proof fn law_logs_keep_the_newest_lines(job: JobModel, line: Seq<char>)
    requires
        job.logs.len() <= LOG_LINES,
    ensures
        state::logged(job, line).logs.len() <= LOG_LINES,
        state::logged(job, line).logs.last() == line,
        job.logs.len() < LOG_LINES ==> state::logged(job, line).logs == job.logs.push(line),
        job.log_scroll == 0 ==> state::logged(job, line).log_scroll == 0,
{
}

/// The first time that an operation finishes is the time that counts.
pub proof fn law_finishing_freezes_time(state: UiState, now: u128, later: u128)
    ensures
        state.completed(now).completed(later) == state.completed(now),
        state.completed(now).finished_at is Some,
{
}

/// A display that finished stays finished and shows one time from then on, whatever its clock, the
/// engine and the keys do.
pub proof fn law_finished_time_is_frozen(
    state: UiState,
    step: u128,
    event: ProgressEvent,
    manifest: Manifest,
    now: u128,
    lines: int,
)
    requires
        state.consistent(),
        state.finished,
    ensures
        state.finished_at is Some,
        stays_finished(state, state.advanced(step)),
        stays_finished(state, state.applied(event, now)),
        stays_finished(state, state.ended(manifest, now)),
        stays_finished(state, state.completed(now)),
        stays_finished(state, state.moved(lines)),
        stays_finished(state, state.with_scroll(lines)),
        stays_finished(state, state.following()),
        stays_finished(state, state.unfiltered()),
{
}

/// `after` is as finished as `before`, with the same time.
pub open spec fn stays_finished(before: UiState, after: UiState) -> bool {
    after.finished == before.finished && after.finished_at == before.finished_at
}

/// Only moving the clock moves it, and only the end of an operation stops the time that is shown.
pub proof fn law_events_leave_the_clock_alone(
    state: UiState,
    event: ProgressEvent,
    manifest: Manifest,
    now: u128,
)
    ensures
        state.applied(event, now).clock == state.clock,
        stays_finished(state, state.applied(event, now)),
        state.ended(manifest, now).clock == state.clock,
        state.completed(now).clock == state.clock,
{
}

/// The display after its clock moved forward in several steps.
pub open spec fn advanced_by(state: UiState, steps: Seq<u128>) -> UiState
    decreases steps.len(),
{
    if steps.len() == 0 {
        state
    } else {
        advanced_by(state, steps.drop_last()).advanced(steps.last())
    }
}

/// All steps together.
pub open spec fn total(steps: Seq<u128>) -> nat
    decreases steps.len(),
{
    if steps.len() == 0 {
        0
    } else {
        total(steps.drop_last()) + steps.last() as nat
    }
}

/// Before it finished, a display whose clock moves only on request reads the sum of the steps that
/// it was moved by.
pub proof fn law_fixed_clocks_add_up(title: Seq<char>, steps: Seq<u128>, now: u128)
    requires
        total(steps) <= u128::MAX,
    ensures
        ({
            let state = advanced_by(UiState::initial(title, Some(0)), steps);
            &&& !state.finished
            &&& state.finished_at is None
            &&& state.clock == Some(total(steps) as u128)
            &&& state.may_read(now) <==> now == total(steps)
        }),
    decreases steps.len(),
{
    if steps.len() > 0 {
        law_fixed_clocks_add_up(title, steps.drop_last(), now);
    }
}

/// The filter after the next one and back is the same filter, and six steps go around.
pub proof fn law_filters_cycle(filter: JobFilter, next: JobFilter, back: JobFilter)
    requires
        next.rank() == (filter.rank() + 1) % 6,
        back.rank() == (next.rank() + 5) % 6,
    ensures
        back == filter,
        (filter.rank() + 6) % 6 == filter.rank(),
{
    crate::ui::job::lemma_rank(back, filter);
}

/// Every status passes exactly one of the active, waiting, queued and completed filters.
pub proof fn law_filters_divide_the_jobs(status: JobStatus)
    ensures
        (JobFilter::Active.admits(status) as int) + (JobFilter::Waiting.admits(status) as int)
            + (JobFilter::Queued.admits(status) as int) + (JobFilter::Completed.admits(
            status,
        ) as int) == 1,
        JobFilter::Failed.admits(status) ==> JobFilter::Completed.admits(status),
        JobFilter::All.admits(status),
{
}

/// A rediscovered graph keeps what is known of its jobs: only relationships change.
pub proof fn law_graphs_keep_known_jobs(jobs: Seq<JobModel>, entries: Seq<Entry>, i: int, k: usize)
    requires
        jobs.len() <= usize::MAX,
        0 <= i < entries.len(),
        state::is_first_entry(entries, i),
        state::position(jobs, entries[i].path) == Some(k),
    ensures
        ({
            let job = state::graph_jobs(jobs, entries)[i];
            &&& job.relationships_known
            &&& job == (JobModel {
                dependencies: job.dependencies,
                dependents: job.dependents,
                relationships_known: true,
                ..jobs[k as int]
            })
        }),
{
}

/// One job depends on another exactly where the other lists it as a dependent.
pub proof fn law_dependents_mirror_dependencies(
    jobs: Seq<JobModel>,
    entries: Seq<Entry>,
    i: usize,
    d: usize,
)
    requires
        entries.len() <= usize::MAX,
        i < entries.len(),
        d < entries.len(),
    ensures
        state::graph_jobs(jobs, entries)[i as int].dependencies.contains(d) <==> state::graph_jobs(
            jobs,
            entries,
        )[d as int].dependents.contains(i),
{
    lemma_dependents(entries, d, entries.len() as int, i);
}

/// The dependents below a bound are the entries below it that have the target as an input.
proof fn lemma_dependents(entries: Seq<Entry>, target: usize, bound: int, i: usize)
    requires
        0 <= bound <= entries.len() <= usize::MAX,
    ensures
        state::dependent_positions(entries, target, bound).contains(i) <==> i < bound && state::input_positions(
            entries,
            entries[i as int].inputs,
        ).contains(target),
    decreases bound,
{
    if bound > 0 {
        let before = state::dependent_positions(entries, target, bound - 1);
        let list = state::dependent_positions(entries, target, bound);
        lemma_dependents(entries, target, bound - 1, i);
        if before.contains(i) {
            assert(list[before.index_of(i)] == i);
        }
        if list.contains(i) {
            let k = list.index_of(i);
            if k < before.len() {
                assert(before[k] == i);
            }
        }
        if i == bound - 1 && state::input_positions(entries, entries[i as int].inputs).contains(target) {
            assert(list[list.len() - 1] == i);
        }
    }
}

/// At the end of a cancelled operation every job has settled, and at the end of any operation none
/// is provisional.
pub proof fn law_endings_settle_jobs(state: UiState, manifest: Manifest, now: u128, i: int)
    requires
        0 <= i < state.ended(manifest, now).jobs.len(),
    ensures
        !(state.ended(manifest, now).jobs[i].status is Provisional),
        manifest.outcome == ManifestOutcome::Cancelled ==> state.ended(
            manifest,
            now,
        ).jobs[i].status is Settled,
{
}

/// `i` is the last position with the path.
pub open spec fn is_last_job(jobs: Seq<JobModel>, i: int, path: Seq<char>) -> bool {
    &&& 0 <= i < jobs.len()
    &&& jobs[i].drv_path == path
    &&& forall|j: int| i < j < jobs.len() ==> (#[trigger] jobs[j]).drv_path != path
}

/// A path is looked up at its last job, and nowhere where no job has it.
pub proof fn law_jobs_are_found_by_path(jobs: Seq<JobModel>, path: Seq<char>)
    requires
        jobs.len() <= usize::MAX,
    ensures
        match state::position(jobs, path) {
            Some(i) => is_last_job(jobs, i as int, path),
            None => forall|j: int| 0 <= j < jobs.len() ==> (#[trigger] jobs[j]).drv_path != path,
        },
    decreases jobs.len(),
{
    if jobs.len() > 0 && jobs.last().drv_path != path {
        let front = jobs.drop_last();
        law_jobs_are_found_by_path(front, path);
        assert forall|j: int| 0 <= j < front.len() implies front[j] == #[trigger] jobs[j] by {}
        match state::position(front, path) {
            Some(i) => {
                assert(jobs[i as int] == front[i as int]);
            },
            None => {},
        }
    }
}

proof fn lemma_found(jobs: Seq<JobModel>, i: int, path: Seq<char>)
    requires
        jobs.len() <= usize::MAX,
        is_last_job(jobs, i, path),
    ensures
        state::position(jobs, path) == Some(i as usize),
{
    law_jobs_are_found_by_path(jobs, path);
    match state::position(jobs, path) {
        Some(k) => {
            if (k as int) < i {
                assert(jobs[i].drv_path != path);
            } else if i < k {
                assert(jobs[k as int].drv_path != path);
            }
        },
        None => {
            assert(jobs[i].drv_path != path);
        },
    }
}

/// Results leave paths and their order alone, settle the job of each path in the state of the last
/// result for it, and leave every other job as it was.
pub proof fn law_results_settle_their_jobs(
    jobs: Seq<JobModel>,
    results: Seq<NodeResult>,
    now: u128,
    i: int,
)
    requires
        jobs.len() <= usize::MAX,
        0 <= i < jobs.len(),
    ensures
        state::with_results(jobs, results, now).len() == jobs.len(),
        forall|j: int|
            0 <= j < jobs.len() ==> (#[trigger] state::with_results(jobs, results, now)[j]).drv_path
                == jobs[j].drv_path,
        forall|k: int|
            is_last_job(jobs, i, jobs[i].drv_path) && 0 <= k < results.len() && (
            #[trigger] results[k]).drv_path@ == jobs[i].drv_path && (forall|m: int|
                k < m < results.len() ==> (#[trigger] results[m]).drv_path@ != jobs[i].drv_path)
                ==> state::with_results(jobs, results, now)[i].status == JobStatus::Settled(
                results[k].state,
            ),
        (forall|k: int| 0 <= k < results.len() ==> (#[trigger] results[k]).drv_path@
            != jobs[i].drv_path) || !is_last_job(jobs, i, jobs[i].drv_path)
            ==> state::with_results(jobs, results, now)[i] == jobs[i],
    decreases results.len(),
{
    if results.len() > 0 {
        let front = results.drop_last();
        let last = results.last();
        let before = state::with_results(jobs, front, now);
        let after = state::with_results(jobs, results, now);
        let path = jobs[i].drv_path;
        law_results_settle_their_jobs(jobs, front, now, i);
        assert(last == results[results.len() - 1]);
        assert forall|m: int| 0 <= m < front.len() implies front[m] == #[trigger] results[m] by {}
        law_jobs_are_found_by_path(before, last.drv_path@);
        assert(is_last_job(jobs, i, path) <==> is_last_job(before, i, path)) by {
            assert forall|j: int| 0 <= j < jobs.len() implies (#[trigger] jobs[j]).drv_path
                == before[j].drv_path by {}
            if is_last_job(before, i, path) {
                assert forall|j: int| i < j < jobs.len() implies (#[trigger] jobs[j]).drv_path
                    != path by {
                    assert(before[j].drv_path != path);
                }
            }
        }
        if is_last_job(jobs, i, path) && last.drv_path@ == path {
            lemma_found(before, i, path);
            assert(after[i].status == JobStatus::Settled(last.state));
        } else {
            assert(after[i] == before[i]);
        }
        assert forall|k: int|
            is_last_job(jobs, i, path) && 0 <= k < results.len() && (
            #[trigger] results[k]).drv_path@ == path && (forall|m: int|
                k < m < results.len() ==> (#[trigger] results[m]).drv_path@ != path)
            implies after[i].status == JobStatus::Settled(results[k].state) by {
            if k < front.len() {
                assert(results[results.len() - 1].drv_path@ != path);
                assert(front[k] == results[k]);
                assert forall|m: int| k < m < front.len() implies (
                #[trigger] front[m]).drv_path@ != path by {
                    assert(results[m].drv_path@ != path);
                }
            }
        }
        if forall|k: int| 0 <= k < results.len() ==> (#[trigger] results[k]).drv_path@ != path {
            assert(results[results.len() - 1].drv_path@ != path);
            assert forall|k: int| 0 <= k < front.len() implies (#[trigger] front[k]).drv_path@
                != path by {
                assert(results[k].drv_path@ != path);
            }
        }
    }
}

/// At the end of an operation, the job of every path that has a result is settled in the state of
/// the last result for it, whatever it was before.
pub proof fn law_results_decide_how_jobs_end(
    state: UiState,
    manifest: Manifest,
    now: u128,
    i: int,
    k: int,
)
    requires
        state.consistent(),
        manifest.graph@.len() <= usize::MAX,
        0 <= k < manifest.nodes@.len(),
        is_last_job(state.ended(manifest, now).jobs, i, manifest.nodes@[k].drv_path@),
        forall|m: int|
            k < m < manifest.nodes@.len() ==> (#[trigger] manifest.nodes@[m]).drv_path@
                != manifest.nodes@[k].drv_path@,
    ensures
        state.ended(manifest, now).jobs[i].status == JobStatus::Settled(manifest.nodes@[k].state),
{
    let jobs = if state.jobs.len() == 0 {
        state::graph_jobs(state.jobs, state::entries_of(manifest.graph@))
    } else {
        state.jobs
    };
    assert(state.ended(manifest, now).jobs == concluded_jobs(jobs, manifest, now));
    lemma_concluded(jobs, manifest, now, i, k);
}

/// The jobs at the end of an operation that knows these.
spec fn concluded_jobs(jobs: Seq<JobModel>, manifest: Manifest, now: u128) -> Seq<JobModel> {
    let named = Seq::new(jobs.len(), |j: int| state::labelled(jobs[j], manifest.roots@));
    let resulting = state::with_results(named, manifest.nodes@, now);
    Seq::new(resulting.len(), |j: int| state::concluded(resulting[j], manifest.outcome))
}

proof fn lemma_concluded(jobs: Seq<JobModel>, manifest: Manifest, now: u128, i: int, k: int)
    requires
        jobs.len() <= usize::MAX,
        0 <= k < manifest.nodes@.len(),
        is_last_job(concluded_jobs(jobs, manifest, now), i, manifest.nodes@[k].drv_path@),
        forall|m: int|
            k < m < manifest.nodes@.len() ==> (#[trigger] manifest.nodes@[m]).drv_path@
                != manifest.nodes@[k].drv_path@,
    ensures
        concluded_jobs(jobs, manifest, now)[i].status == JobStatus::Settled(
            manifest.nodes@[k].state,
        ),
{
    let named = Seq::new(jobs.len(), |j: int| state::labelled(jobs[j], manifest.roots@));
    let resulting = state::with_results(named, manifest.nodes@, now);
    let after = concluded_jobs(jobs, manifest, now);
    let path = manifest.nodes@[k].drv_path@;
    lemma_results_keep_length(named, manifest.nodes@, now);
    law_results_settle_their_jobs(named, manifest.nodes@, now, i);
    assert forall|j: int| 0 <= j < after.len() implies (#[trigger] after[j]).drv_path
        == named[j].drv_path by {
        assert(resulting[j].drv_path == named[j].drv_path);
    }
    assert(is_last_job(named, i, path)) by {
        assert(after[i].drv_path == named[i].drv_path);
        assert forall|j: int| i < j < named.len() implies (#[trigger] named[j]).drv_path != path by {
            assert(after[j].drv_path == named[j].drv_path);
        }
    }
    assert(manifest.nodes@[k].drv_path@ == named[i].drv_path);
}

proof fn lemma_results_keep_length(jobs: Seq<JobModel>, results: Seq<NodeResult>, now: u128)
    requires
        jobs.len() <= usize::MAX,
    ensures
        state::with_results(jobs, results, now).len() == jobs.len(),
    decreases results.len(),
{
    if results.len() > 0 {
        let front = results.drop_last();
        lemma_results_keep_length(jobs, front, now);
        law_jobs_are_found_by_path(
            state::with_results(jobs, front, now),
            results.last().drv_path@,
        );
    }
}

/// A job that has no result ends as it was, except that a provisional state counts and that
/// cancellation settles what has not settled.
pub proof fn law_jobs_without_a_result_end_as_they_were(
    state: UiState,
    manifest: Manifest,
    now: u128,
    i: int,
)
    requires
        state.consistent(),
        0 <= i < state.jobs.len(),
        forall|k: int|
            0 <= k < manifest.nodes@.len() ==> (#[trigger] manifest.nodes@[k]).drv_path@
                != state.jobs[i].drv_path,
    ensures
        ({
            let before = state.jobs[i];
            let after = state.ended(manifest, now).jobs[i];
            &&& after == (JobModel { status: after.status, label: after.label, ..before })
            &&& before.status is Settled ==> after.status == before.status
            &&& manifest.outcome == ManifestOutcome::Cancelled && !(before.status is Settled)
                ==> after.status == JobStatus::Settled(NodeState::Cancelled)
            &&& manifest.outcome != ManifestOutcome::Cancelled ==> (
            before.status matches JobStatus::Provisional(state) ==> after.status
                == JobStatus::Settled(state))
            &&& manifest.outcome != ManifestOutcome::Cancelled && !(before.status is Provisional)
                ==> after.status == before.status
        }),
{
    let named = Seq::new(
        state.jobs.len(),
        |j: int| state::labelled(state.jobs[j], manifest.roots@),
    );
    lemma_results_keep_length(named, manifest.nodes@, now);
    law_results_settle_their_jobs(named, manifest.nodes@, now, i);
}

/// After an event about a derivation, there is a job of its path, and every job that was there
/// before is there still; those of other paths are as they were.
pub proof fn law_events_reach_their_job_alone(
    state: UiState,
    event: ProgressEvent,
    path: Seq<char>,
    now: u128,
    i: int,
)
    requires
        state.consistent(),
        state.jobs.len() < usize::MAX,
        event_path(event) == Some(path),
    ensures
        ({
            let after = state.applied(event, now);
            &&& state::position(after.jobs, path) is Some
            &&& state.jobs.len() <= after.jobs.len() <= state.jobs.len() + 1
            &&& 0 <= i < state.jobs.len() ==> after.jobs[i].drv_path == state.jobs[i].drv_path
            &&& 0 <= i < state.jobs.len() && state.jobs[i].drv_path != path ==> after.jobs[i]
                == state.jobs[i]
            &&& after.phases == state.phases
            &&& after.outcome == state.outcome
            &&& after.cancelled == state.cancelled
        }),
{
    law_jobs_are_found_by_path(state.jobs, path);
    let ensured = state.ensured(path);
    let at = state.ensured_position(path) as int;
    let after = state.applied(event, now);
    assert(ensured.jobs[at].drv_path == path);
    assert(after.jobs.len() == ensured.jobs.len());
    assert(after.jobs[at].drv_path == path);
    assert(is_last_job(after.jobs, at, path)) by {
        assert forall|j: int| at < j < after.jobs.len() implies (#[trigger] after.jobs[j]).drv_path
            != path by {
            assert(after.jobs[j] == ensured.jobs[j]);
            assert(ensured.jobs[j] == state.jobs[j]);
        }
    }
    lemma_found(after.jobs, at, path);
}

/// The derivation that an event is about.
pub open spec fn event_path(event: ProgressEvent) -> Option<Seq<char>> {
    match event {
        ProgressEvent::NodeStarted { drv_path } => Some(drv_path@),
        ProgressEvent::NodeActivityStopped { drv_path } => Some(drv_path@),
        ProgressEvent::NodeProvisionalFinished { drv_path, .. } => Some(drv_path@),
        ProgressEvent::NodeLogLine { drv_path, .. } => Some(drv_path@),
        ProgressEvent::NodeProgress { drv_path, .. } => Some(drv_path@),
        ProgressEvent::NodeFinished { drv_path, .. } => Some(drv_path@),
        _ => None,
    }
}

/// What an event says of a derivation is what its job shows: a start that it runs, a stop that it
/// waits, an end in which state it settled, a log line as its latest, progress in both numbers.
pub proof fn law_jobs_show_what_events_say(
    state: UiState,
    event: ProgressEvent,
    path: Seq<char>,
    now: u128,
    i: int,
)
    requires
        state.consistent(),
        state.jobs.len() < usize::MAX,
        event_path(event) == Some(path),
        is_last_job(state.applied(event, now).jobs, i, path),
    ensures
        ({
            let after = state.applied(event, now).jobs[i];
            match event {
                ProgressEvent::NodeStarted { .. } => after.status is Running && after.started
                    is Some,
                ProgressEvent::NodeActivityStopped { .. } => after.status is AwaitingResult,
                ProgressEvent::NodeProvisionalFinished { state, .. } => after.status
                    == JobStatus::Provisional(state),
                ProgressEvent::NodeFinished { state, .. } => after.status == JobStatus::Settled(
                    state,
                ),
                ProgressEvent::NodeLogLine { line, .. } => after.logs.len() > 0 && after.logs.last()
                    == line@,
                ProgressEvent::NodeProgress { done, expected, .. } => after.progress == Some(
                    (done, expected),
                ),
                _ => true,
            }
        }),
{
    law_events_reach_their_job_alone(state, event, path, now, i);
    law_jobs_are_found_by_path(state.jobs, path);
    let after = state.applied(event, now);
    lemma_found(after.jobs, i, path);
    let at = state.ensured_position(path) as int;
    assert(after.jobs[at].drv_path == path);
    assert(is_last_job(after.jobs, at, path)) by {
        assert forall|j: int| at < j < after.jobs.len() implies (#[trigger] after.jobs[j]).drv_path
            != path by {
            assert(after.jobs[j] == state.ensured(path).jobs[j]);
            assert(state.ensured(path).jobs[j] == state.jobs[j]);
        }
    }
    lemma_found(after.jobs, at, path);
}

/// A phase event changes that phase and no other.
pub proof fn law_phase_events_change_their_phase(
    state: UiState,
    phase: Phase,
    other: Phase,
    now: u128,
)
    requires
        other != phase,
    ensures
        ({
            let started = state.applied(ProgressEvent::PhaseStarted(phase), now);
            let finished = state.applied(ProgressEvent::PhaseFinished(phase), now);
            &&& started.phases.status(phase) == PhaseStatus::Active
            &&& finished.phases.status(phase) == PhaseStatus::Complete
            &&& started.phases.status(other) == state.phases.status(other)
            &&& finished.phases.status(other) == state.phases.status(other)
            &&& started.jobs == state.jobs
            &&& finished.jobs == state.jobs
        }),
{
}

/// A discovered graph gives one job for each of its derivations, in its order, under its path. What
/// a job depends on are the jobs of the derivation's inputs that the graph holds.
pub proof fn law_graphs_give_their_jobs(
    jobs: Seq<JobModel>,
    entries: Seq<Entry>,
    i: int,
    d: usize,
)
    requires
        jobs.len() <= usize::MAX,
        entries.len() <= usize::MAX,
        0 <= i < entries.len(),
        d < entries.len(),
        forall|a: int, b: int|
            0 <= a < b < entries.len() ==> (#[trigger] entries[a]).path != (#[trigger]
            entries[b]).path,
    ensures
        state::graph_jobs(jobs, entries).len() == entries.len(),
        state::graph_jobs(jobs, entries)[i].drv_path == entries[i].path,
        state::graph_jobs(jobs, entries)[i].dependencies.contains(d) <==> entries[i].inputs.contains(
            entries[d as int].path,
        ),
{
    law_jobs_are_found_by_path(jobs, entries[i].path);
    lemma_inputs(entries, entries[i].inputs, d);
}

proof fn lemma_entry_found(entries: Seq<Entry>, path: Seq<char>)
    requires
        entries.len() <= usize::MAX,
    ensures
        match state::entry_position(entries, path) {
            Some(i) => i < entries.len() && entries[i as int].path == path,
            None => forall|j: int| 0 <= j < entries.len() ==> (#[trigger] entries[j]).path != path,
        },
    decreases entries.len(),
{
    if entries.len() > 0 && entries.last().path != path {
        let front = entries.drop_last();
        lemma_entry_found(front, path);
        assert forall|j: int| 0 <= j < front.len() implies front[j] == #[trigger] entries[j] by {}
    }
}

proof fn lemma_inputs(entries: Seq<Entry>, inputs: Seq<Seq<char>>, d: usize)
    requires
        entries.len() <= usize::MAX,
        d < entries.len(),
        forall|a: int, b: int|
            0 <= a < b < entries.len() ==> (#[trigger] entries[a]).path != (#[trigger]
            entries[b]).path,
    ensures
        state::input_positions(entries, inputs).contains(d) <==> inputs.contains(
            entries[d as int].path,
        ),
    decreases inputs.len(),
{
    if inputs.len() > 0 {
        let front = inputs.drop_last();
        let path = entries[d as int].path;
        let before = state::input_positions(entries, front);
        let list = state::input_positions(entries, inputs);
        lemma_inputs(entries, front, d);
        lemma_entry_found(entries, inputs.last());
        if before.contains(d) {
            assert(list[before.index_of(d)] == d);
            assert(inputs[front.index_of(path)] == path);
        }
        if front.contains(path) {
            assert(inputs[front.index_of(path)] == path);
        }
        if inputs.contains(path) {
            let k = inputs.index_of(path);
            if k < front.len() {
                assert(front[k] == path);
            } else {
                let at = state::entry_position(entries, path)->0;
                assert(at == d) by {
                    if at < d {
                        assert(entries[at as int].path != entries[d as int].path);
                    } else if d < at {
                        assert(entries[d as int].path != entries[at as int].path);
                    }
                }
                assert(list[list.len() - 1] == d);
            }
        }
        if list.contains(d) {
            let k = list.index_of(d);
            if k < before.len() {
                assert(before[k] == d);
            } else {
                assert(inputs[inputs.len() - 1] == path);
            }
        }
    }
}

/// A derivation that one root was evaluated to is labelled with that root's name, and one of none
/// keeps its label.
pub proof fn law_roots_name_their_jobs(job: JobModel, roots: Seq<RootResult>, k: int)
    ensures
        state::labelled(job, roots) == (JobModel {
            label: state::labelled(job, roots).label,
            ..job
        }),
        (forall|m: int| 0 <= m < roots.len() ==> !#[trigger] names_job(roots[m], job))
            ==> state::labelled(job, roots).label == job.label,
        0 <= k < roots.len() && names_job(roots[k], job) && (forall|m: int|
            0 <= m < roots.len() && m != k ==> !#[trigger] names_job(roots[m], job))
            ==> state::labelled(job, roots).label == roots[k].name@,
{
    lemma_root_names(roots, job, k);
    if state::root_names(roots, job.drv_path).len() == 1 {
        let names = state::root_names(roots, job.drv_path);
        assert(names.drop_last() =~= Seq::empty());
        crate::text::lemma_joined_one(names[0], " · "@);
        assert(names =~= seq![names[0]]);
    }
}

/// The root was evaluated to the job's derivation.
pub open spec fn names_job(root: RootResult, job: JobModel) -> bool {
    root.drv_path matches Some(path) && path@ == job.drv_path
}

proof fn lemma_root_names(roots: Seq<RootResult>, job: JobModel, k: int)
    ensures
        (forall|m: int| 0 <= m < roots.len() ==> !#[trigger] names_job(roots[m], job))
            ==> state::root_names(roots, job.drv_path).len() == 0,
        0 <= k < roots.len() && names_job(roots[k], job) && (forall|m: int|
            0 <= m < roots.len() && m != k ==> !#[trigger] names_job(roots[m], job))
            ==> state::root_names(roots, job.drv_path) == seq![roots[k].name@],
    decreases roots.len(),
{
    if roots.len() > 0 {
        let front = roots.drop_last();
        lemma_root_names(front, job, k);
        let last = roots.len() - 1;
        assert forall|m: int| 0 <= m < front.len() implies front[m] == #[trigger] roots[m] by {}
        assert(roots.last() == roots[last]);
        if forall|m: int| 0 <= m < roots.len() ==> !#[trigger] names_job(roots[m], job) {
            assert(!names_job(roots[last], job));
            assert forall|m: int| 0 <= m < front.len() implies !#[trigger] names_job(
                front[m],
                job,
            ) by {
                assert(!names_job(roots[m], job));
            }
        }
        if 0 <= k < roots.len() && names_job(roots[k], job) && (forall|m: int|
            0 <= m < roots.len() && m != k ==> !#[trigger] names_job(roots[m], job)) {
            if k == last {
                assert forall|m: int| 0 <= m < front.len() implies !#[trigger] names_job(
                    front[m],
                    job,
                ) by {
                    assert(!names_job(roots[m], job));
                }
                assert(state::root_names(roots, job.drv_path) =~= seq![roots[k].name@]);
            } else {
                assert(!names_job(roots[last], job));
                assert(names_job(front[k], job));
                assert forall|m: int| 0 <= m < front.len() && m != k implies !#[trigger] names_job(
                    front[m],
                    job,
                ) by {
                    assert(!names_job(roots[m], job));
                }
            }
        }
    }
}

/// Settled jobs are counted: none where none has settled, all where all have, and the jobs of two
/// lists together as those of each.
pub proof fn law_settled_jobs_are_counted(jobs: Seq<JobModel>, more: Seq<JobModel>)
    ensures
        state::settled_count(jobs) <= jobs.len(),
        state::settled_count(jobs + more) == state::settled_count(jobs) + state::settled_count(more),
        jobs.len() == 1 ==> (state::settled_count(jobs) == 1 <==> jobs[0].status is Settled),
    decreases more.len(), jobs.len(),
{
    if more.len() > 0 {
        law_settled_jobs_are_counted(jobs, more.drop_last());
        assert((jobs + more).drop_last() =~= jobs + more.drop_last());
        assert((jobs + more).last() == more.last());
    } else {
        assert(jobs + more =~= jobs);
        if jobs.len() > 0 {
            law_settled_jobs_are_counted(jobs.drop_last(), more);
            assert(jobs.drop_last() + more =~= jobs.drop_last());
        }
    }
}

/// The jobs shown are those whose status passes the filter and whose label or path holds the query,
/// whatever the case, each once and in their order.
pub proof fn law_shown_jobs_match(state: UiState, i: usize)
    requires
        state.jobs.len() <= usize::MAX,
    ensures
        state.visible().contains(i) <==> {
            &&& i < state.jobs.len()
            &&& state.filter.admits(state.jobs[i as int].status)
            &&& text::lowercased(state.query).len() == 0 || text::occurs(
                text::lowercased(state.jobs[i as int].label),
                text::lowercased(state.query),
            ) || text::occurs(
                text::lowercased(state.jobs[i as int].drv_path),
                text::lowercased(state.query),
            )
        },
        forall|a: int, b: int|
            0 <= a < b < state.visible().len() ==> #[trigger] state.visible()[a]
                < #[trigger] state.visible()[b],
{
    state::lemma_shown(state.jobs, state.query, state.filter);
}

/// The next job is the one shown behind the selected one, and the first behind the last; nothing
/// but the selection changes.
pub proof fn law_the_next_job_is_the_one_below(state: UiState, k: int)
    requires
        state.consistent(),
        0 <= k < state.visible().len(),
        state.selected == Some(state.visible()[k]),
    ensures
        state.moved(1) == (UiState {
            selected: Some(
                if k + 1 < state.visible().len() {
                    state.visible()[k + 1]
                } else {
                    state.visible()[0]
                },
            ),
            ..state
        }),
        state.moved(-1) == (UiState {
            selected: Some(
                if k > 0 {
                    state.visible()[k - 1]
                } else {
                    state.visible().last()
                },
            ),
            ..state
        }),
{
    let list = state.visible();
    state::lemma_shown(state.jobs, state.query, state.filter);
    assert(list.contains(list[k]));
    let at = list.index_of(list[k]);
    assert(list[at] == list[k]);
    assert(at == k);
    lemma_ring(k + 1, list.len() as int);
    lemma_ring(k - 1, list.len() as int);
}

proof fn lemma_first_above(list: Seq<usize>, bound: usize)
    requires
        state::ascending(list),
    ensures
        match state::first_above(list, bound) {
            Some(next) => next > bound && list.contains(next) && (forall|k: int|
                0 <= k < list.len() && #[trigger] list[k] > bound ==> list[k] >= next),
            None => forall|k: int| 0 <= k < list.len() ==> #[trigger] list[k] <= bound,
        },
    decreases list.len(),
{
    if list.len() > 0 && list[0] <= bound {
        let rest = list.drop_first();
        assert forall|i: int, j: int| 0 <= i < j < rest.len() implies rest[i] < rest[j] by {
            assert(list[i + 1] < list[j + 1]);
        }
        lemma_first_above(rest, bound);
        match state::first_above(rest, bound) {
            Some(next) => {
                assert(list[rest.index_of(next) + 1] == next);
                assert forall|k: int| 0 <= k < list.len() && #[trigger] list[k]
                    > bound implies list[k] >= next by {
                    assert(list[k] == rest[k - 1]);
                }
            },
            None => {
                assert forall|k: int| 0 <= k < list.len() implies #[trigger] list[k] <= bound by {
                    if k > 0 {
                        assert(list[k] == rest[k - 1]);
                    }
                }
            },
        }
    } else if list.len() > 0 {
        assert(list.contains(list[0]));
        assert forall|k: int| 0 <= k < list.len() && #[trigger] list[k] > bound implies list[k]
            >= list[0] by {
            if k > 0 {
                assert(list[0] < list[k]);
            }
        }
    }
}

/// After an event about a derivation the selection stays on its job, as long as that is shown. A
/// job that is no longer shown hands it to the next shown job below, and where there is none to the
/// last.
#[verifier::rlimit(60)]
pub proof fn law_the_selection_stays_on_its_job(
    state: UiState,
    event: ProgressEvent,
    path: Seq<char>,
    now: u128,
    selected: usize,
)
    requires
        state.consistent(),
        state.jobs.len() < usize::MAX,
        event_path(event) == Some(path),
        state.selected == Some(selected),
    ensures
        ({
            let after = state.applied(event, now);
            let list = after.visible();
            &&& list.contains(selected) ==> after.selected == Some(selected)
            &&& !list.contains(selected) ==> match after.selected {
                Some(next) => list.contains(next) && if next > selected {
                    forall|k: int|
                        0 <= k < list.len() && #[trigger] list[k] > selected ==> list[k] >= next
                } else {
                    forall|k: int| 0 <= k < list.len() ==> #[trigger] list[k] <= next
                },
                None => list.len() == 0,
            }
        }),
{
    let after = state.applied(event, now);
    let list = after.visible();
    law_jobs_are_found_by_path(state.jobs, path);
    law_events_reach_their_job_alone(state, event, path, now, selected as int);
    state::lemma_shown(state.jobs, state.query, state.filter);
    state::lemma_shown(after.jobs, after.query, after.filter);
    lemma_first_above(list, selected);
    let at = state.ensured_position(path);
    assert(state.visible().contains(selected));
    assert(selected != at ==> after.jobs[selected as int] == state.jobs[selected as int]);
    assert(state.ensured(path).selected == Some(selected));
    if !list.contains(selected) {
        lemma_only_status_hides(state, event, path, now);
        assert(at == selected);
        if list.len() > 0 {
            assert(list.contains(list.last()));
            assert forall|k: int| 0 <= k < list.len() implies #[trigger] list[k] <= list.last() by {
                if k < list.len() - 1 {
                    assert(list[k] < list[list.len() - 1]);
                }
            }
        }
    } else {
        assert(list.contains(selected));
    }
}

proof fn lemma_only_status_hides(
    state: UiState,
    event: ProgressEvent,
    path: Seq<char>,
    now: u128,
)
    requires
        state.consistent(),
        state.jobs.len() < usize::MAX,
        event_path(event) == Some(path),
    ensures
        ({
            let at = state.ensured_position(path);
            let after = state.applied(event, now);
            &&& (event is NodeLogLine || event is NodeProgress) ==> state::shows(
                after.jobs[at as int],
                after.query,
                after.filter,
            ) == state::shows(
                state.ensured(path).jobs[at as int],
                after.query,
                after.filter,
            )
            &&& after.query == state.query
            &&& after.filter == state.filter
        }),
{
    law_jobs_are_found_by_path(state.jobs, path);
}

/// Scrolling moves a log view by the lines it is told, between its end and its first line, and
/// changes nothing else of the job. Two moves in one direction are one move by both.
pub proof fn law_scrolling_adds_up(job: JobModel, first: int, second: int)
    requires
        0 <= job.log_scroll <= state::top_of_log(job),
        (first >= 0 && second >= 0) || (first <= 0 && second <= 0),
    ensures
        ({
            let after = state::scrolled(job, first);
            &&& after == (JobModel { log_scroll: after.log_scroll, ..job })
            &&& 0 <= after.log_scroll
            &&& after.log_scroll < job.logs.len() || after.log_scroll == 0
            &&& 0 <= job.log_scroll + first < job.logs.len() ==> after.log_scroll == job.log_scroll
                + first
            &&& job.log_scroll + first < 0 ==> after.log_scroll == 0
            &&& job.log_scroll + first >= job.logs.len() > 0 ==> after.log_scroll == job.logs.len()
                - 1
            &&& state::scrolled(after, second) == state::scrolled(job, first + second)
        }),
{
}

/// Scrolling reaches the selected job alone, and following shows the end of its log.
pub proof fn law_scrolling_reaches_the_selected_job(state: UiState, lines: int, i: int)
    requires
        state.consistent(),
        0 <= i < state.jobs.len(),
    ensures
        ({
            let scrolled = state.with_scroll(lines).jobs;
            let following = state.following().jobs;
            &&& scrolled.len() == state.jobs.len()
            &&& following.len() == state.jobs.len()
            &&& state.selected != Some(i as usize) ==> scrolled[i] == state.jobs[i] && following[i]
                == state.jobs[i]
            &&& state.selected == Some(i as usize) ==> scrolled[i] == state::scrolled(
                state.jobs[i],
                lines,
            ) && following[i] == (JobModel { log_scroll: 0, ..state.jobs[i] })
        }),
{
    state::lemma_shown(state.jobs, state.query, state.filter);
}

/// A job after several log lines.
pub open spec fn logged_all(job: JobModel, lines: Seq<Seq<char>>) -> JobModel
    decreases lines.len(),
{
    if lines.len() == 0 {
        job
    } else {
        state::logged(logged_all(job, lines.drop_last()), lines.last())
    }
}

/// A job's log holds the latest of all its lines, in their order, as many as it may keep.
pub proof fn law_logs_are_the_end_of_all_lines(job: JobModel, lines: Seq<Seq<char>>)
    requires
        job.logs.len() <= LOG_LINES,
    ensures
        ({
            let all = job.logs + lines;
            let kept = logged_all(job, lines).logs;
            &&& kept.len() <= LOG_LINES
            &&& kept.len() <= all.len()
            &&& kept.len() == LOG_LINES || kept == all
            &&& kept == all.skip(all.len() - kept.len())
        }),
    decreases lines.len(),
{
    let all = job.logs + lines;
    if lines.len() == 0 {
        assert(all =~= job.logs);
        assert(all.skip(0) =~= all);
    } else {
        let front = lines.drop_last();
        law_logs_are_the_end_of_all_lines(job, front);
        let before = logged_all(job, front).logs;
        let kept = logged_all(job, lines).logs;
        assert(all =~= (job.logs + front).push(lines.last()));
        assert(kept =~= all.skip(all.len() - kept.len()));
    }
}

/// While a log has room, a scrolled view of it stays on its lines when another one comes.
pub proof fn law_scrolled_views_stay_on_their_lines(job: JobModel, line: Seq<char>)
    requires
        job.logs.len() < LOG_LINES,
        0 < job.log_scroll < job.logs.len(),
    ensures
        ({
            let after = state::logged(job, line);
            &&& after.logs.len() - after.log_scroll == job.logs.len() - job.log_scroll
            &&& after == (JobModel { logs: after.logs, log_scroll: after.log_scroll, ..job })
        }),
{
}

proof fn lemma_root_names_add(a: Seq<RootResult>, b: Seq<RootResult>, path: Seq<char>)
    ensures
        state::root_names(a + b, path) == state::root_names(a, path) + state::root_names(b, path),
    decreases b.len(),
{
    if b.len() == 0 {
        assert(a + b =~= a);
        assert(state::root_names(a, path) + state::root_names(b, path) =~= state::root_names(
            a,
            path,
        ));
    } else {
        assert((a + b).drop_last() =~= a + b.drop_last());
        assert((a + b).last() == b.last());
        lemma_root_names_add(a, b.drop_last(), path);
        assert(state::root_names(a + b, path) =~= state::root_names(a, path) + state::root_names(
            b,
            path,
        ));
    }
}

/// Where some roots name a job and further roots do too, its label is what each would give, with a
/// dot between them.
pub proof fn law_labels_name_every_root(
    job: JobModel,
    first: Seq<RootResult>,
    second: Seq<RootResult>,
    a: int,
    b: int,
)
    requires
        0 <= a < first.len(),
        names_job(first[a], job),
        0 <= b < second.len(),
        names_job(second[b], job),
    ensures
        state::labelled(job, first + second).label == state::labelled(job, first).label + " · "@
            + state::labelled(job, second).label,
{
    lemma_named(first, job, a);
    lemma_named(second, job, b);
    lemma_root_names_add(first, second, job.drv_path);
    let (x, y) = (
        state::root_names(first, job.drv_path),
        state::root_names(second, job.drv_path),
    );
    text::law_joining_separates(x, y, Seq::empty(), " · "@);
}

proof fn lemma_named(roots: Seq<RootResult>, job: JobModel, k: int)
    requires
        0 <= k < roots.len(),
        names_job(roots[k], job),
    ensures
        state::root_names(roots, job.drv_path).len() > 0,
    decreases roots.len(),
{
    if k < roots.len() - 1 {
        assert(roots.drop_last()[k] == roots[k]);
        lemma_named(roots.drop_last(), job, k);
    }
}

/// An operation that ended shows how it ended and the time at which it first did, and keeps the
/// signal that cancelled it.
pub proof fn law_endings_record_the_outcome(state: UiState, manifest: Manifest, now: u128)
    ensures
        ({
            let after = state.ended(manifest, now);
            &&& after.outcome == Some(manifest.outcome)
            &&& after.finished
            &&& state.finished_at is None ==> after.finished_at == Some(now)
            &&& state.finished_at is Some ==> after.finished_at == state.finished_at
            &&& after.cancelled == state.cancelled
            &&& after.phases == state.phases
            &&& after.title == state.title
            &&& after.query == state.query
            &&& after.filter == state.filter
        }),
{
}

/// A signal is recorded, and nothing else changes with it.
pub proof fn law_cancellation_records_its_signal(state: UiState, signal: i32, now: u128)
    ensures
        state.applied(ProgressEvent::Cancelled { signal }, now) == (UiState {
            cancelled: Some(signal),
            ..state
        }),
        state.applied(ProgressEvent::GraphIncomplete, now) == state,
{
}

/// A job that starts runs from now on, one that runs goes on from its start, and one that stops has
/// run for as long as it did; every other thing known of it stays.
pub proof fn law_only_running_time_counts(job: JobModel, start: u128, now: u128, state: NodeState)
    requires
        start <= now,
    ensures
        ({
            let running = state::timed(job, JobStatus::Running, now);
            let stopped = state::timed(job, JobStatus::Settled(state), now);
            &&& job.started is None && !(job.status is AwaitingResult || job.status is Provisional)
                ==> running.started == Some(now)
            &&& job.status is Running && job.started == Some(start) ==> running.started == Some(
                start,
            )
            &&& job.started == Some(start) && job.settled is None ==> stopped.settled == Some(
                (now - start) as u128,
            )
            &&& running.status is Running
            &&& stopped.status == JobStatus::Settled(state)
            &&& running.drv_path == job.drv_path
            &&& running.label == job.label
            &&& running.dependencies == job.dependencies
            &&& running.dependents == job.dependents
            &&& running.logs == job.logs
            &&& running.log_scroll == job.log_scroll
            &&& stopped == (JobModel { status: stopped.status, settled: stopped.settled, ..job })
        }),
{
}

/// Where the query or the filter changes what is shown, the selection stays while its job is shown,
/// and moves to the first shown job otherwise; nothing else changes.
pub proof fn law_the_selection_follows_the_filter(
    state: UiState,
    query: Seq<char>,
    filter: JobFilter,
    selected: usize,
)
    requires
        state.selected == Some(selected),
    ensures
        ({
            let after = (UiState { query, filter, ..state }).reselected();
            &&& after == (UiState { query, filter, selected: after.selected, ..state })
            &&& after.visible().contains(selected) ==> after.selected == Some(selected)
            &&& !after.visible().contains(selected) && after.visible().len() > 0
                ==> after.selected == Some(after.visible()[0])
            &&& after.visible().len() == 0 ==> after.selected is None
        }),
{
    let after = (UiState { query, filter, ..state }).reselected();
    assert(after.visible() == (UiState { query, filter, ..state }).visible());
}

/// A discovered graph keeps the selection on the job of the same path, as long as that is shown.
pub proof fn law_graphs_keep_the_selection(
    state: UiState,
    entries: Seq<Entry>,
    selected: usize,
    k: usize,
)
    requires
        state.selected == Some(selected),
        entries.len() <= usize::MAX,
        k < entries.len(),
        entries[k as int].path == state.jobs[selected as int].drv_path,
        forall|a: int, b: int|
            0 <= a < b < entries.len() ==> (#[trigger] entries[a]).path != (#[trigger]
            entries[b]).path,
    ensures
        ({
            let after = state.with_graph(entries);
            &&& after.jobs == state::graph_jobs(state.jobs, entries)
            &&& after.visible().contains(k) ==> after.selected == Some(k)
            &&& after == (UiState { jobs: after.jobs, selected: after.selected, ..state })
        }),
{
    let path = state.jobs[selected as int].drv_path;
    lemma_entry_found(entries, path);
    match state::entry_position(entries, path) {
        Some(at) => {
            if at < k {
                assert(entries[at as int].path != entries[k as int].path);
            } else if k < at {
                assert(entries[k as int].path != entries[at as int].path);
            }
        },
        None => {
            assert(entries[k as int].path != path);
        },
    }
}

/// The job of a derivation that was not known is named after it, and nothing is known of it but
/// what the event says; it is the last of the jobs.
pub proof fn law_new_jobs_are_named_after_their_derivation(
    state: UiState,
    event: ProgressEvent,
    path: Seq<char>,
    now: u128,
)
    requires
        state.consistent(),
        state.jobs.len() < usize::MAX,
        event_path(event) == Some(path),
        forall|i: int| 0 <= i < state.jobs.len() ==> (#[trigger] state.jobs[i]).drv_path != path,
    ensures
        ({
            let after = state.applied(event, now).jobs;
            let job = after.last();
            &&& after.len() == state.jobs.len() + 1
            &&& job.drv_path == path
            &&& job.label == crate::ui::job::label_of(path)
            &&& job.dependencies.len() == 0
            &&& job.dependents.len() == 0
            &&& !job.relationships_known
            &&& job.log_scroll == 0
            &&& event is NodeStarted ==> job.started == Some(now)
            &&& !(event is NodeStarted) ==> job.started is None
            &&& job.settled is None
            &&& !(event is NodeProgress) ==> job.progress is None
            &&& !(event is NodeLogLine) ==> job.logs.len() == 0
            &&& event is NodeLogLine ==> job.logs.len() == 1
            &&& event is NodeLogLine || event is NodeProgress ==> job.status is Queued
        }),
{
    law_jobs_are_found_by_path(state.jobs, path);
    assert(state.ensured(path).jobs.len() == state.jobs.len() + 1);
}

/// An event changes of its job what it speaks of and nothing else: a log line the log and its view,
/// progress the two numbers, and any other event the status and the times. Only a job that starts
/// again after waiting loses its progress.
pub proof fn law_events_change_only_what_they_speak_of(
    state: UiState,
    event: ProgressEvent,
    path: Seq<char>,
    now: u128,
    i: int,
)
    requires
        state.consistent(),
        state.jobs.len() < usize::MAX,
        event_path(event) == Some(path),
        is_last_job(state.jobs, i, path),
    ensures
        ({
            let before = state.jobs[i];
            let after = state.applied(event, now).jobs[i];
            let again = event is NodeStarted && (before.status is AwaitingResult || before.status
                is Provisional);
            &&& event is NodeLogLine ==> after == (JobModel {
                logs: after.logs,
                log_scroll: after.log_scroll,
                ..before
            })
            &&& event is NodeProgress ==> after == (JobModel {
                progress: after.progress,
                ..before
            })
            &&& !(event is NodeLogLine || event is NodeProgress) ==> after == (JobModel {
                status: after.status,
                started: after.started,
                settled: after.settled,
                progress: after.progress,
                ..before
            })
            &&& again ==> after.progress is None
            &&& !again && !(event is NodeProgress) ==> after.progress == before.progress
            &&& state.applied(event, now).jobs.len() == state.jobs.len()
        }),
{
    lemma_found(state.jobs, i, path);
}

/// A result changes of its job the status and the time it stopped, and nothing else.
pub proof fn law_results_change_status_and_time_alone(
    jobs: Seq<JobModel>,
    results: Seq<NodeResult>,
    now: u128,
    i: int,
)
    requires
        jobs.len() <= usize::MAX,
        0 <= i < jobs.len(),
    ensures
        ({
            let after = state::with_results(jobs, results, now)[i];
            &&& after == (JobModel { status: after.status, settled: after.settled, ..jobs[i] })
            &&& jobs[i].settled is Some ==> after.settled == jobs[i].settled
            &&& jobs[i].started is None ==> after.settled == jobs[i].settled
        }),
    decreases results.len(),
{
    if results.len() > 0 {
        let front = results.drop_last();
        law_results_change_status_and_time_alone(jobs, front, now, i);
        lemma_results_keep_length(jobs, front, now);
        law_jobs_are_found_by_path(state::with_results(jobs, front, now), results.last().drv_path@);
    }
}

/// A job of a discovered graph that was not known before is named after its derivation, and nothing
/// is known of it but its relationships.
pub proof fn law_graphs_name_new_jobs(jobs: Seq<JobModel>, entries: Seq<Entry>, i: int)
    requires
        jobs.len() <= usize::MAX,
        0 <= i < entries.len(),
        forall|k: int|
            0 <= k < jobs.len() ==> (#[trigger] jobs[k]).drv_path != entries[i].path,
    ensures
        ({
            let job = state::graph_jobs(jobs, entries)[i];
            &&& job.drv_path == entries[i].path
            &&& job.label == crate::ui::job::label_of(entries[i].path)
            &&& job.relationships_known
            &&& job.status is Queued
            &&& job.started is None
            &&& job.settled is None
            &&& job.progress is None
            &&& job.logs.len() == 0
            &&& job.log_scroll == 0
        }),
{
    law_jobs_are_found_by_path(jobs, entries[i].path);
}

} // verus!
