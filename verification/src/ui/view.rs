//! What the full-screen interface shows, as plain text, colors and measures.

use vstd::prelude::*;

use crate::model::{ManifestOutcome, NodeState, Phase};
use crate::text;
use crate::ui::job::{Job, JobFilter, JobModel, JobStatus, PhaseStatus};
use crate::ui::model::Model;
use crate::ui::state;
use crate::ui::state::UiState;

verus! {

/// A color of the interface.
#[derive(Clone, Copy, Debug, PartialEq, Eq, Structural)]
pub enum Tone {
    /// What is of little weight.
    Dim,
    /// What is going on.
    Active,
    /// What waits for a result.
    Pending,
    /// What went well.
    Good,
    /// What was downloaded.
    Transferred,
    /// What failed.
    Bad,
    /// What did not happen.
    Stopped,
}

/// The color of a status.
pub open spec fn tone_of(status: JobStatus) -> Tone {
    match status {
        JobStatus::Queued => Tone::Dim,
        JobStatus::Running => Tone::Active,
        JobStatus::AwaitingResult => Tone::Pending,
        JobStatus::Provisional(_) => Tone::Pending,
        JobStatus::Settled(NodeState::Cached) => Tone::Good,
        JobStatus::Settled(NodeState::Built) => Tone::Good,
        JobStatus::Settled(NodeState::Realized) => Tone::Good,
        JobStatus::Settled(NodeState::Substituted) => Tone::Transferred,
        JobStatus::Settled(NodeState::Failed) => Tone::Bad,
        JobStatus::Settled(NodeState::Skipped) => Tone::Stopped,
        JobStatus::Settled(NodeState::Cancelled) => Tone::Stopped,
    }
}

/// Returns the color of a status.
pub fn status_style(status: JobStatus) -> (result: Tone)
    ensures
        result == tone_of(status),
{
    match status {
        JobStatus::Queued => Tone::Dim,
        JobStatus::Running => Tone::Active,
        JobStatus::AwaitingResult => Tone::Pending,
        JobStatus::Provisional(_) => Tone::Pending,
        JobStatus::Settled(settled) => match settled {
            NodeState::Cached => Tone::Good,
            NodeState::Built => Tone::Good,
            NodeState::Realized => Tone::Good,
            NodeState::Substituted => Tone::Transferred,
            NodeState::Failed => Tone::Bad,
            NodeState::Skipped => Tone::Stopped,
            NodeState::Cancelled => Tone::Stopped,
        },
    }
}

/// The symbol of a status; a running job has that of the spinner.
pub open spec fn symbol_of(status: JobStatus, spinner: Seq<char>) -> Seq<char> {
    match status {
        JobStatus::Queued => "○"@,
        JobStatus::Running => spinner,
        JobStatus::AwaitingResult => "◌"@,
        JobStatus::Provisional(_) => "◌"@,
        JobStatus::Settled(NodeState::Cached) => "●"@,
        JobStatus::Settled(NodeState::Substituted) => "↓"@,
        JobStatus::Settled(NodeState::Built) => "✓"@,
        JobStatus::Settled(NodeState::Realized) => "✓"@,
        JobStatus::Settled(NodeState::Failed) => "✕"@,
        JobStatus::Settled(NodeState::Skipped) => "—"@,
        JobStatus::Settled(NodeState::Cancelled) => "!"@,
    }
}

/// Returns the symbol of a status.
pub fn status_symbol(status: JobStatus, spinner: &'static str) -> (result: &'static str)
    ensures
        result@ == symbol_of(status, spinner@),
{
    match status {
        JobStatus::Queued => "○",
        JobStatus::Running => spinner,
        JobStatus::AwaitingResult => "◌",
        JobStatus::Provisional(_) => "◌",
        JobStatus::Settled(settled) => match settled {
            NodeState::Cached => "●",
            NodeState::Substituted => "↓",
            NodeState::Built => "✓",
            NodeState::Realized => "✓",
            NodeState::Failed => "✕",
            NodeState::Skipped => "—",
            NodeState::Cancelled => "!",
        },
    }
}

/// The words for a status. A job counts as finished only once its result is confirmed.
pub open spec fn status_words(status: JobStatus) -> Seq<char> {
    match status {
        JobStatus::Queued => "queued"@,
        JobStatus::Running => "running"@,
        JobStatus::AwaitingResult => "awaiting result"@,
        JobStatus::Provisional(_) => "awaiting result"@,
        JobStatus::Settled(NodeState::Cached) => "cached"@,
        JobStatus::Settled(NodeState::Substituted) => "substituted"@,
        JobStatus::Settled(NodeState::Built) => "built"@,
        JobStatus::Settled(NodeState::Realized) => "realized"@,
        JobStatus::Settled(NodeState::Failed) => "failed"@,
        JobStatus::Settled(NodeState::Skipped) => "skipped"@,
        JobStatus::Settled(NodeState::Cancelled) => "cancelled"@,
    }
}

/// Returns the words for a status.
pub fn status_name(status: JobStatus) -> (result: &'static str)
    ensures
        result@ == status_words(status),
{
    match status {
        JobStatus::Queued => "queued",
        JobStatus::Running => "running",
        JobStatus::AwaitingResult => "awaiting result",
        JobStatus::Provisional(_) => "awaiting result",
        JobStatus::Settled(settled) => match settled {
            NodeState::Cached => "cached",
            NodeState::Substituted => "substituted",
            NodeState::Built => "built",
            NodeState::Realized => "realized",
            NodeState::Failed => "failed",
            NodeState::Skipped => "skipped",
            NodeState::Cancelled => "cancelled",
        },
    }
}

/// The pictures of the spinner.
pub open spec fn spinner_pictures() -> Seq<Seq<char>> {
    seq!["⠋"@, "⠙"@, "⠹"@, "⠸"@, "⠼"@, "⠴"@, "⠦"@, "⠧"@]
}

/// The nanoseconds for which the spinner shows one picture.
pub const SPINNER_NANOS: u128 = 120_000_000;

/// Which picture the spinner shows after a time; it stands still once they can no longer be
/// counted.
pub open spec fn picture_at(elapsed: u128) -> int {
    let shown = (elapsed as int) / (SPINNER_NANOS as int);
    if shown <= usize::MAX {
        shown % 8
    } else {
        0
    }
}

/// Returns the spinner's picture after a time in nanoseconds.
pub fn spinner_frame(elapsed: u128) -> (result: &'static str)
    ensures
        result@ == spinner_pictures()[picture_at(elapsed)],
{
    let shown: u128 = elapsed / SPINNER_NANOS;
    let frame: u128 = if shown <= usize::MAX as u128 {
        shown % 8
    } else {
        0
    };
    if frame == 0 {
        "⠋"
    } else if frame == 1 {
        "⠙"
    } else if frame == 2 {
        "⠹"
    } else if frame == 3 {
        "⠸"
    } else if frame == 4 {
        "⠼"
    } else if frame == 5 {
        "⠴"
    } else if frame == 6 {
        "⠦"
    } else {
        "⠧"
    }
}

/// The words and the color for an operation's outcome.
pub open spec fn outcome_words(outcome: Option<ManifestOutcome>) -> (Seq<char>, Tone) {
    match outcome {
        Some(ManifestOutcome::Success) => ("SUCCESS"@, Tone::Good),
        Some(ManifestOutcome::Failed) => ("FAILED"@, Tone::Bad),
        Some(ManifestOutcome::Cancelled) => ("CANCELLED"@, Tone::Stopped),
        None => ("RUNNING"@, Tone::Active),
    }
}

/// Returns the words and the color for an operation's outcome.
pub fn outcome_label(outcome: Option<ManifestOutcome>) -> (result: (&'static str, Tone))
    ensures
        (result.0@, result.1) == outcome_words(outcome),
{
    match outcome {
        Some(outcome) => match outcome {
            ManifestOutcome::Success => ("SUCCESS", Tone::Good),
            ManifestOutcome::Failed => ("FAILED", Tone::Bad),
            ManifestOutcome::Cancelled => ("CANCELLED", Tone::Stopped),
        },
        None => ("RUNNING", Tone::Active),
    }
}

/// The label of a phase on the rail.
pub open spec fn rail_label(phase: Phase) -> Seq<char> {
    match phase {
        Phase::Discovery => "DISCOVER"@,
        Phase::Evaluation => "EVALUATE"@,
        Phase::Graph => "MAP"@,
        Phase::Probe => "PROBE"@,
        Phase::Realization => "REALIZE"@,
    }
}

/// The symbol and the color of a phase on the rail.
pub open spec fn rail_mark(status: PhaseStatus) -> (Seq<char>, Tone) {
    match status {
        PhaseStatus::Waiting => ("○"@, Tone::Dim),
        PhaseStatus::Active => ("◆"@, Tone::Active),
        PhaseStatus::Complete => ("●"@, Tone::Good),
    }
}

/// Returns what the rail shows for a phase.
pub fn rail_entry(model: &Model, phase: Phase) -> (result: (String, Tone))
    ensures
        ({
            let mark = rail_mark(model.state().phases.status(phase));
            &&& result.0@ == mark.0 + " "@ + rail_label(phase)
            &&& result.1 == mark.1
        }),
{
    let label = match phase {
        Phase::Discovery => "DISCOVER",
        Phase::Evaluation => "EVALUATE",
        Phase::Graph => "MAP",
        Phase::Probe => "PROBE",
        Phase::Realization => "REALIZE",
    };
    let (symbol, tone) = match model.phase(phase) {
        PhaseStatus::Waiting => ("○", Tone::Dim),
        PhaseStatus::Active => ("◆", Tone::Active),
        PhaseStatus::Complete => ("●", Tone::Good),
    };
    (text::cat3(symbol, " ", label), tone)
}

/// Returns the counter of settled jobs.
pub fn settled_counter(model: &Model) -> (result: String)
    ensures
        result@ == text::decimal_text(state::settled_count(model.state().jobs) as nat) + "/"@
            + text::decimal_text(model.state().jobs.len()),
{
    let count = model.jobs().len();
    assert(count == model.state().jobs.len());
    text::cat3(
        text::decimal(model.settled() as u128).as_str(),
        "/",
        text::decimal(count as u128).as_str(),
    )
}

/// The labels of the jobs at some positions, as far as there are such jobs.
pub open spec fn labels_at(jobs: Seq<JobModel>, indices: Seq<usize>) -> Seq<Seq<char>>
    decreases indices.len(),
{
    if indices.len() == 0 {
        Seq::empty()
    } else if indices.last() < jobs.len() {
        labels_at(jobs, indices.drop_last()).push(jobs[indices.last() as int].label)
    } else {
        labels_at(jobs, indices.drop_last())
    }
}

/// The labels of the jobs at some positions, in one line.
pub open spec fn label_line(jobs: Seq<JobModel>, indices: Seq<usize>) -> Seq<char> {
    text::joined(labels_at(jobs, indices), ", "@)
}

/// Returns the labels of the jobs at some positions, in one line.
pub fn labels(jobs: &Vec<Job>, indices: &Vec<usize>) -> (result: String)
    ensures
        result@ == label_line(jobs.deep_view(), indices@),
{
    let ghost all = jobs.deep_view();
    let mut parts: Vec<String> = Vec::new();
    let mut i: usize = 0;
    assert(parts.deep_view() =~= labels_at(all, indices@.take(0)));
    while i < indices.len()
        invariant
            all == jobs.deep_view(),
            i <= indices@.len(),
            parts.deep_view() == labels_at(all, indices@.take(i as int)),
        decreases indices@.len() - i,
    {
        let index = indices[i];
        proof {
            assert(indices@.take(i + 1).drop_last() =~= indices@.take(i as int));
            assert(indices@.take(i + 1).last() == index);
        }
        if index < jobs.len() {
            let ghost before = parts.deep_view();
            let label = jobs[index].label.clone();
            let ghost name = label@;
            parts.push(label);
            assert(parts.deep_view() =~= before.push(name));
            assert(all[index as int].label == name);
        }
        i = i + 1;
    }
    assert(indices@.take(indices@.len() as int) =~= indices@);
    text::join(&parts, ", ")
}

/// A line, or a word for its absence.
pub open spec fn or_none_text(value: Seq<char>) -> Seq<char> {
    if value.len() == 0 {
        "none"@
    } else {
        value
    }
}

/// Returns a line, or a word for its absence.
pub fn or_none(value: &str) -> (result: &str)
    ensures
        result@ == or_none_text(value@),
{
    if value.is_empty() {
        "none"
    } else {
        value
    }
}

/// A number below a hundred in two digits.
pub open spec fn two_digits(n: nat) -> Seq<char> {
    seq![text::digit((n / 10) as int), text::digit((n % 10) as int)]
}

/// Minutes and seconds.
pub open spec fn minutes_text(seconds: nat) -> Seq<char> {
    text::decimal_text(seconds / 60) + "m"@ + two_digits(seconds % 60) + "s"@
}

/// Returns minutes and seconds for a time of a minute or more; a shorter one is written with
/// fractions of a second.
pub fn minutes(seconds: u64) -> (result: Option<String>)
    ensures
        match result {
            Some(written) => seconds >= 60 && written@ == minutes_text(seconds as nat),
            None => seconds < 60,
        },
{
    if seconds < 60 {
        return None;
    }
    let rest: u8 = (seconds % 60) as u8;
    let mut digits = String::new();
    digits.push((48 + rest / 10) as char);
    digits.push((48 + rest % 10) as char);
    assert(digits@ =~= two_digits((seconds % 60) as nat));
    Some(
        text::cat4(
            text::decimal((seconds / 60) as u128).as_str(),
            "m",
            digits.as_str(),
            "s",
        ),
    )
}

/// The share of a transfer in percent, as far as it can be computed in 64 bits: a whole one where
/// more was transferred than expected, and none where nothing was expected.
pub open spec fn share(done: u64, expected: u64) -> int {
    let hundredfold = if done * 100 <= u64::MAX {
        done * 100
    } else {
        u64::MAX as int
    };
    if expected == 0 {
        0
    } else if hundredfold / (expected as int) <= 100 {
        hundredfold / (expected as int)
    } else {
        100
    }
}

/// Returns the share of a transfer in percent.
pub fn percent(done: u64, expected: u64) -> (result: u8)
    ensures
        result == share(done, expected),
        result <= 100,
{
    if expected == 0 {
        return 0;
    }
    let hundredfold: u64 = if done <= u64::MAX / 100 {
        done * 100
    } else {
        u64::MAX
    };
    let share: u64 = hundredfold / expected;
    if share <= 100 {
        share as u8
    } else {
        100
    }
}

/// The line on a job's transfer.
pub open spec fn transfer_text(
    transferred: Seq<char>,
    expected: Seq<char>,
    percent: int,
) -> Seq<char> {
    "\ntransferred: "@ + transferred + "/"@ + expected + " MiB "@ + text::decimal_text(
        percent as nat,
    ) + "%"@
}

/// What is said of a selected job, given the written forms of its time and its transfer.
pub open spec fn detail_text(
    jobs: Seq<JobModel>,
    index: int,
    elapsed: Seq<char>,
    transferred: Seq<char>,
    expected: Seq<char>,
) -> Seq<char> {
    let job = jobs[index];
    job.label + "\n\nstatus: "@ + status_words(job.status) + "\nelapsed: "@ + elapsed + match job.progress {
        Some((done, total)) => transfer_text(transferred, expected, share(done, total)),
        None => Seq::empty(),
    } + "\ndepends on: "@ + or_none_text(label_line(jobs, job.dependencies)) + "\nrequired by: "@
        + or_none_text(label_line(jobs, job.dependents)) + "\n\n"@ + job.drv_path
}

/// Returns what is said of a job, given the written forms of its time and its transfer.
pub fn detail(
    jobs: &Vec<Job>,
    index: usize,
    elapsed: &str,
    transferred: &str,
    expected: &str,
) -> (result: String)
    requires
        index < jobs@.len(),
    ensures
        result@ == detail_text(
            jobs.deep_view(),
            index as int,
            elapsed@,
            transferred@,
            expected@,
        ),
{
    let job = &jobs[index];
    assert(jobs.deep_view()[index as int] == job.deep_view());
    let transfer = match job.progress {
        Some((done, total)) => {
            let share = percent(done, total);
            text::cat2(
                text::cat5("\ntransferred: ", transferred, "/", expected, " MiB ").as_str(),
                text::cat2(text::decimal(share as u128).as_str(), "%").as_str(),
            )
        },
        None => String::new(),
    };
    proof {
        match job.progress {
            Some((done, total)) => {
                assert(transfer@ =~= transfer_text(transferred@, expected@, share(done, total)));
            },
            None => {
                assert(transfer@ =~= Seq::<char>::empty());
            },
        }
    }
    let needs = labels(jobs, &job.dependencies);
    let needed = labels(jobs, &job.dependents);
    let head = text::cat6(
        job.label.as_str(),
        "\n\nstatus: ",
        status_name(job.status),
        "\nelapsed: ",
        elapsed,
        transfer.as_str(),
    );
    let middle = text::cat5(
        head.as_str(),
        "\ndepends on: ",
        or_none(needs.as_str()),
        "\nrequired by: ",
        or_none(needed.as_str()),
    );
    text::cat3(middle.as_str(), "\n\n", job.drv_path.as_str())
}

/// One row of the job table.
#[derive(Debug, PartialEq, Eq)]
pub struct JobRow {
    /// The status symbol.
    pub symbol: &'static str,
    /// The color of the symbol.
    pub tone: Tone,
    /// The job's name.
    pub label: String,
    /// How long it has been active, in nanoseconds.
    pub elapsed: Option<u128>,
    /// The jobs it needs.
    pub needs: String,
}

/// A row shows a job.
pub open spec fn row_shows(
    row: JobRow,
    jobs: Seq<JobModel>,
    index: int,
    spinner: Seq<char>,
    now: u128,
) -> bool {
    let job = jobs[index];
    &&& row.symbol@ == symbol_of(job.status, spinner)
    &&& row.tone == tone_of(job.status)
    &&& row.label@ == job.label
    &&& row.elapsed == job.duration(now)
    &&& row.needs@ == label_line(jobs, job.dependencies)
}

/// Returns the rows of the job table: one for each shown job, in order.
pub fn job_rows(model: &Model, spinner: &'static str, now: u128) -> (result: Vec<JobRow>)
    requires
        model.wf(),
    ensures
        result@.len() == model.state().visible().len(),
        forall|i: int|
            0 <= i < result@.len() ==> row_shows(
                #[trigger] result@[i],
                model.state().jobs,
                model.state().visible()[i] as int,
                spinner@,
                now,
            ),
{
    let jobs = model.jobs();
    let shown = model.visible_job_indices();
    let ghost state = model.state();
    proof {
        state::lemma_shown(state.jobs, state.query, state.filter);
    }
    let mut result: Vec<JobRow> = Vec::new();
    let mut i: usize = 0;
    while i < shown.len()
        invariant
            state == model.state(),
            jobs.deep_view() == state.jobs,
            shown@ == state.visible(),
            forall|j: int| 0 <= j < shown@.len() ==> #[trigger] shown@[j] < state.jobs.len(),
            i <= shown@.len(),
            result@.len() == i,
            forall|j: int|
                0 <= j < i ==> row_shows(
                    #[trigger] result@[j],
                    state.jobs,
                    shown@[j] as int,
                    spinner@,
                    now,
                ),
        decreases shown@.len() - i,
    {
        let index = shown[i];
        let job = &jobs[index];
        assert(state.jobs[index as int] == job.deep_view());
        result.push(
            JobRow {
                symbol: status_symbol(job.status, spinner),
                tone: status_style(job.status),
                label: job.label.clone(),
                elapsed: job.elapsed(now),
                needs: labels(jobs, &job.dependencies),
            },
        );
        i = i + 1;
    }
    result
}

/// The table and the details of the selected job stand side by side where there is room.
pub fn side_by_side(width: u16, height: u16) -> (result: bool)
    ensures
        result == (width >= 72 && height >= 8),
{
    width >= 72 && height >= 8
}

/// The jobs are restricted by a query or a status.
pub open spec fn is_filtered(state: UiState) -> bool {
    state.typing || state.query.len() > 0 || state.filter != JobFilter::All
}

/// The line of keys.
pub open spec fn footer_text(state: UiState, width: u16) -> Seq<char> {
    if is_filtered(state) {
        " /"@ + state.query + "  "@ + state.filter.name() + "  Enter apply  Esc clear"@
    } else if width < 64 {
        " j/k select  ? help  q cancel"@
    } else {
        " ↑/↓ select  j/k navigate  ? help  q/Ctrl-C cancel"@
    }
}

/// Returns the line of keys.
pub fn footer(model: &Model, width: u16) -> (result: String)
    ensures
        result@ == footer_text(model.state(), width),
{
    let all = match model.job_filter() {
        JobFilter::All => true,
        _ => false,
    };
    if model.filter_input_active() || !model.filter_query().is_empty() || !all {
        text::cat5(
            " /",
            model.filter_query(),
            "  ",
            model.job_filter().label(),
            "  Enter apply  Esc clear",
        )
    } else if width < 64 {
        " j/k select  ? help  q cancel".to_owned()
    } else {
        " ↑/↓ select  j/k navigate  ? help  q/Ctrl-C cancel".to_owned()
    }
}

/// A rectangle of the screen.
#[derive(Clone, Copy, Debug, PartialEq, Eq, Structural)]
pub struct Area {
    /// The left column.
    pub x: u16,
    /// The top row.
    pub y: u16,
    /// The number of columns.
    pub width: u16,
    /// The number of rows.
    pub height: u16,
}

impl Area {
    /// `other` lies in this area.
    pub open spec fn holds(self, other: Area) -> bool {
        &&& self.x <= other.x
        &&& self.y <= other.y
        &&& other.x + other.width <= self.x + self.width
        &&& other.y + other.height <= self.y + self.height
    }
}

/// A measure less a margin, but no more than a limit.
pub open spec fn within(size: u16, margin: int, limit: int) -> int {
    let room = if size >= margin {
        size - margin
    } else {
        0
    };
    if room <= limit {
        room
    } else {
        limit
    }
}

/// Returns where the key help stands: in the middle of the screen.
pub fn help_area(screen: Area) -> (result: Area)
    requires
        screen.x + screen.width <= u16::MAX,
        screen.y + screen.height <= u16::MAX,
    ensures
        result.width == within(screen.width, 8, 58),
        result.height == within(screen.height, 4, 12),
        result.x == screen.x + (screen.width - result.width) / 2,
        result.y == screen.y + (screen.height - result.height) / 2,
        screen.holds(result),
{
    let room: u16 = if screen.width >= 8 {
        screen.width - 8
    } else {
        0
    };
    let width: u16 = if room <= 58 {
        room
    } else {
        58
    };
    let space: u16 = if screen.height >= 4 {
        screen.height - 4
    } else {
        0
    };
    let height: u16 = if space <= 12 {
        space
    } else {
        12
    };
    Area {
        x: screen.x + (screen.width - width) / 2,
        y: screen.y + (screen.height - height) / 2,
        width,
        height,
    }
}

/// The first and the last but one of the log lines that a view of some rows shows, scrolled up
/// from the end by a number of lines.
pub open spec fn window(total: nat, scroll: int, rows: int) -> (int, int) {
    let end = if scroll <= total {
        total - scroll
    } else {
        0
    };
    let start = if rows <= end {
        end - rows
    } else {
        0
    };
    (start, end)
}

/// Returns the log lines that a view of some rows shows.
pub fn log_window(total: usize, scroll: usize, rows: usize) -> (result: (usize, usize))
    ensures
        (result.0 as int, result.1 as int) == window(total as nat, scroll as int, rows as int),
        result.0 <= result.1 <= total,
{
    let end: usize = if scroll <= total {
        total - scroll
    } else {
        0
    };
    let start: usize = if rows <= end {
        end - rows
    } else {
        0
    };
    (start, end)
}

/// Returns the log lines of a job that a view of some rows shows.
pub fn shown_log(job: &Job, rows: usize) -> (result: Vec<String>)
    ensures
        ({
            let shown = window(job.logs@.len(), job.log_scroll as int, rows as int);
            result.deep_view() == job.deep_view().logs.subrange(shown.0, shown.1)
        }),
{
    let (start, end) = log_window(job.logs.len(), job.log_scroll, rows);
    let ghost logs = job.deep_view().logs;
    let mut result: Vec<String> = Vec::new();
    let mut i: usize = start;
    assert(result.deep_view() =~= logs.subrange(start as int, start as int));
    while i < end
        invariant
            logs == job.logs.deep_view(),
            start <= i <= end <= job.logs@.len(),
            result.deep_view() == logs.subrange(start as int, i as int),
        decreases end - i,
    {
        let ghost before = result.deep_view();
        let line = job.logs[i].clone();
        let ghost shown = line@;
        result.push(line);
        proof {
            assert(result.deep_view() =~= before.push(shown));
            assert(logs.subrange(start as int, i + 1) =~= logs.subrange(
                start as int,
                i as int,
            ).push(shown));
        }
        i = i + 1;
    }
    result
}

/// A log view that was not scrolled shows the latest line.
pub proof fn law_log_views_follow_the_end(total: nat, rows: int)
    requires
        total > 0,
        rows > 0,
    ensures
        window(total, 0, rows).0 <= total - 1 < window(total, 0, rows).1,
{
}

/// A scrolled log view leaves out as many of the latest lines as it was scrolled.
pub proof fn law_scrolling_leaves_the_latest_lines_out(total: nat, scroll: int, rows: int)
    requires
        0 <= scroll <= total,
        rows >= 0,
    ensures
        window(total, scroll, rows).1 == total - scroll,
        window(total, scroll, rows).1 - window(total, scroll, rows).0 <= rows,
{
}

/// A job that waits for its result looks neither like one that has not begun nor like one that
/// succeeded.
pub proof fn law_waiting_jobs_look_unlike_others(status: JobStatus)
    requires
        status is AwaitingResult || status is Provisional,
    ensures
        tone_of(status) != tone_of(JobStatus::Queued),
        forall|settled: NodeState| tone_of(status) != #[trigger] tone_of(JobStatus::Settled(settled)),
        status_words(status) == "awaiting result"@,
{
}

/// The share of a transfer is its integral part in percent, up to the whole, as long as a
/// hundredfold of it can be counted; it is never more than the whole, and nothing where nothing is
/// expected.
pub proof fn law_shares_are_parts_of_the_whole(done: u64, expected: u64)
    ensures
        0 <= share(done, expected) <= 100,
        expected == 0 ==> share(done, expected) == 0,
        expected > 0 && done <= expected && done * 100 <= u64::MAX ==> share(done, expected)
            * expected <= done * 100 < (share(done, expected) + 1) * expected,
        0 < expected <= done && done * 100 <= u64::MAX ==> share(done, expected) == 100,
{
    if expected > 0 {
        let hundredfold = if done * 100 <= u64::MAX {
            done * 100
        } else {
            u64::MAX as int
        };
        let whole = expected as int;
        vstd::arithmetic::div_mod::lemma_fundamental_div_mod(hundredfold, whole);
        vstd::arithmetic::div_mod::lemma_div_pos_is_pos(hundredfold, whole);
        let part = hundredfold / whole;
        assert(part * whole <= hundredfold < (part + 1) * whole) by (nonlinear_arith)
            requires
                hundredfold == whole * part + hundredfold % whole,
                0 <= hundredfold % whole < whole,
        ;
        if done <= expected && done * 100 <= u64::MAX {
            assert(part <= 100) by (nonlinear_arith)
                requires
                    part * whole <= 100 * whole,
                    whole > 0,
            ;
        }
        if expected <= done && done * 100 <= u64::MAX {
            assert(part >= 100) by (nonlinear_arith)
                requires
                    100 * whole < (part + 1) * whole,
                    whole > 0,
            ;
        }
    }
}

/// More transferred is no smaller a share.
pub proof fn law_shares_grow(done: u64, more: u64, expected: u64)
    requires
        done <= more,
    ensures
        share(done, expected) <= share(more, expected),
{
    if expected > 0 {
        let a = if done * 100 <= u64::MAX {
            done * 100
        } else {
            u64::MAX as int
        };
        let b = if more * 100 <= u64::MAX {
            more * 100
        } else {
            u64::MAX as int
        };
        vstd::arithmetic::div_mod::lemma_div_is_ordered(a, b, expected as int);
    }
}

/// Minutes and seconds read back as the time they stand for, with fewer than sixty seconds in two
/// digits.
pub proof fn law_minutes_read_back(seconds: nat)
    ensures
        ({
            let written = minutes_text(seconds);
            let size = written.len() as int;
            let rest = text::number(written.subrange(size - 3, size - 1));
            &&& size > 4
            &&& written[size - 1] == 's'
            &&& written[size - 4] == 'm'
            &&& 0 <= rest < 60
            &&& 60 * text::number(written.take(size - 4)) + rest == seconds
        }),
{
    reveal_strlit("m");
    reveal_strlit("s");
    let written = minutes_text(seconds);
    let size = written.len() as int;
    let minutes = text::decimal_text(seconds / 60);
    text::law_decimals_read_back(seconds / 60);
    assert(written.take(size - 4) =~= minutes);
    let rest = (seconds % 60) as nat;
    let digits = written.subrange(size - 3, size - 1);
    assert(digits =~= two_digits(rest));
    assert(digits.drop_last() =~= seq![text::digit((rest / 10) as int)]);
    assert(digits.drop_last().drop_last() =~= Seq::empty());
    reveal_with_fuel(text::number, 3);
    assert(text::number(digits.drop_last()) == rest / 10);
}

/// The spinner starts with its first picture and goes on by one at a time, round and round, as long
/// as the pictures can be counted.
pub proof fn law_the_spinner_turns(elapsed: u128)
    requires
        elapsed + SPINNER_NANOS <= u128::MAX,
        (elapsed + SPINNER_NANOS) / (SPINNER_NANOS as int) <= usize::MAX,
    ensures
        elapsed < SPINNER_NANOS ==> picture_at(elapsed) == 0,
        picture_at((elapsed + SPINNER_NANOS) as u128) == (picture_at(elapsed) + 1)
            % (spinner_pictures().len() as int),
        0 <= picture_at(elapsed) < spinner_pictures().len(),
{
    let shown = (elapsed as int) / (SPINNER_NANOS as int);
    let later = (elapsed + SPINNER_NANOS) as u128;
    assert((later as int) / (SPINNER_NANOS as int) == shown + 1);
    assert(picture_at(elapsed) == shown % 8);
    assert(picture_at(later) == (shown + 1) % 8);
    assert(spinner_pictures().len() == 8);
}

/// A log view shows as many lines as it has rows, unless it reaches the first line.
pub proof fn law_log_views_are_full(total: nat, scroll: int, rows: int)
    requires
        0 <= scroll,
        0 <= rows,
    ensures
        ({
            let (start, end) = window(total, scroll, rows);
            &&& 0 <= start <= end <= total
            &&& end - start == rows || (start == 0 && end - start < rows)
            &&& scroll >= total ==> end == 0
        }),
{
}

/// Only jobs that went well look so, and only failed jobs look failed.
pub proof fn law_colors_tell_how_jobs_ended(status: JobStatus)
    ensures
        tone_of(status) is Bad <==> status == JobStatus::Settled(NodeState::Failed),
        tone_of(status) is Good <==> status == JobStatus::Settled(NodeState::Cached) || status
            == JobStatus::Settled(NodeState::Built) || status == JobStatus::Settled(
            NodeState::Realized,
        ),
        tone_of(status) is Transferred <==> status == JobStatus::Settled(NodeState::Substituted),
        tone_of(status) is Stopped <==> status == JobStatus::Settled(NodeState::Skipped) || status
            == JobStatus::Settled(NodeState::Cancelled),
        tone_of(status) is Active <==> status is Running,
        tone_of(status) is Dim <==> status is Queued,
{
}

/// Two statuses with the same words are the same, but for those of jobs that wait for their result.
pub proof fn law_words_tell_statuses_apart(a: JobStatus, b: JobStatus)
    requires
        status_words(a) == status_words(b),
    ensures
        a == b || ((a is AwaitingResult || a is Provisional) && (b is AwaitingResult
            || b is Provisional)),
{
    reveal_strlit("queued");
    reveal_strlit("running");
    reveal_strlit("awaiting result");
    reveal_strlit("cached");
    reveal_strlit("substituted");
    reveal_strlit("built");
    reveal_strlit("realized");
    reveal_strlit("failed");
    reveal_strlit("skipped");
    reveal_strlit("cancelled");
    assert("queued"@.len() == 6 && "cached"@.len() == 6 && "failed"@.len() == 6);
    assert("running"@.len() == 7 && "skipped"@.len() == 7 && "realized"@.len() == 8);
    assert("built"@.len() == 5 && "substituted"@.len() == 11 && "cancelled"@.len() == 9);
    assert("awaiting result"@.len() == 15);
    assert("queued"@[0] == 'q' && "cached"@[0] == 'c' && "failed"@[0] == 'f');
    assert("running"@[0] == 'r' && "skipped"@[0] == 's');
}

/// A line of labels names the jobs at the positions, in their order.
pub proof fn law_label_lines_name_their_jobs(jobs: Seq<JobModel>, indices: Seq<usize>, i: int)
    requires
        forall|k: int| 0 <= k < indices.len() ==> #[trigger] indices[k] < jobs.len(),
        0 <= i < indices.len(),
    ensures
        labels_at(jobs, indices).len() == indices.len(),
        labels_at(jobs, indices)[i] == jobs[indices[i] as int].label,
    decreases indices.len(),
{
    let front = indices.drop_last();
    reveal_with_fuel(labels_at, 2);
    assert(indices[indices.len() - 1] < jobs.len());
    assert forall|k: int| 0 <= k < front.len() implies #[trigger] front[k] < jobs.len() by {
        assert(indices[k] < jobs.len());
    }
    if front.len() > 0 {
        law_label_lines_name_their_jobs(jobs, front, if i < front.len() {
            i
        } else {
            0
        });
    }
}

/// A text holds a part.
#[verifier::opaque]
spec fn holds(whole: Seq<char>, part: Seq<char>) -> bool {
    text::occurs(whole, part)
}

proof fn lemma_holds_end(front: Seq<char>, part: Seq<char>)
    ensures
        holds(front + part, part),
{
    reveal(holds);
    let none = Seq::<char>::empty();
    text::law_texts_hold_their_parts(front, front, part, none);
    assert(front + part + none =~= front + part);
}

proof fn lemma_holds_still(whole: Seq<char>, more: Seq<char>, part: Seq<char>)
    requires
        holds(whole, part),
    ensures
        holds(whole + more, part),
{
    reveal(holds);
    let longer = whole + more;
    assert(longer.skip(0).take(whole.len() as int) =~= whole);
    assert(text::starts(longer.skip(0), whole));
    text::lemma_occurs_in_part(longer, 0, whole, part);
}

proof fn lemma_starts_still(whole: Seq<char>, more: Seq<char>, part: Seq<char>)
    requires
        text::starts(whole, part),
    ensures
        text::starts(whole + more, part),
{
    assert((whole + more).take(part.len() as int) =~= whole.take(part.len() as int));
}

proof fn lemma_details(
    a: Seq<char>,
    b: Seq<char>,
    c: Seq<char>,
    d: Seq<char>,
    e: Seq<char>,
    f: Seq<char>,
    g: Seq<char>,
    h: Seq<char>,
    i: Seq<char>,
    j: Seq<char>,
    k: Seq<char>,
    l: Seq<char>,
)
    ensures
        ({
            let said = a + b + c + d + e + f + g + h + i + j + k + l;
            &&& text::starts(said, a)
            &&& text::ends(said, l)
            &&& holds(said, c)
            &&& holds(said, e)
            &&& holds(said, f)
            &&& holds(said, h)
            &&& holds(said, j)
        }),
{
    let s0 = a;
    assert(a.take(a.len() as int) =~= a);
    let s1 = s0 + b;
    lemma_starts_still(s0, b, a);
    let s2 = s1 + c;
    lemma_starts_still(s1, c, a);
    lemma_holds_end(s1, c);
    let s3 = s2 + d;
    lemma_starts_still(s2, d, a);
    lemma_holds_still(s2, d, c);
    let s4 = s3 + e;
    lemma_starts_still(s3, e, a);
    lemma_holds_still(s3, e, c);
    lemma_holds_end(s3, e);
    let s5 = s4 + f;
    lemma_starts_still(s4, f, a);
    lemma_holds_still(s4, f, c);
    lemma_holds_still(s4, f, e);
    lemma_holds_end(s4, f);
    let s6 = s5 + g;
    lemma_starts_still(s5, g, a);
    lemma_holds_still(s5, g, c);
    lemma_holds_still(s5, g, e);
    lemma_holds_still(s5, g, f);
    let s7 = s6 + h;
    lemma_starts_still(s6, h, a);
    lemma_holds_still(s6, h, c);
    lemma_holds_still(s6, h, e);
    lemma_holds_still(s6, h, f);
    lemma_holds_end(s6, h);
    let s8 = s7 + i;
    lemma_starts_still(s7, i, a);
    lemma_holds_still(s7, i, c);
    lemma_holds_still(s7, i, e);
    lemma_holds_still(s7, i, f);
    lemma_holds_still(s7, i, h);
    let s9 = s8 + j;
    lemma_starts_still(s8, j, a);
    lemma_holds_still(s8, j, c);
    lemma_holds_still(s8, j, e);
    lemma_holds_still(s8, j, f);
    lemma_holds_still(s8, j, h);
    lemma_holds_end(s8, j);
    let s10 = s9 + k;
    lemma_starts_still(s9, k, a);
    lemma_holds_still(s9, k, c);
    lemma_holds_still(s9, k, e);
    lemma_holds_still(s9, k, f);
    lemma_holds_still(s9, k, h);
    lemma_holds_still(s9, k, j);
    let s11 = s10 + l;
    lemma_starts_still(s10, l, a);
    lemma_holds_still(s10, l, c);
    lemma_holds_still(s10, l, e);
    lemma_holds_still(s10, l, f);
    lemma_holds_still(s10, l, h);
    lemma_holds_still(s10, l, j);
    assert(s11.skip(s10.len() as int) =~= l);
}

proof fn lemma_transfer(transferred: Seq<char>, expected: Seq<char>, percent: int)
    ensures
        text::occurs(transfer_text(transferred, expected, percent), transferred + "/"@ + expected),
{
    let line = transferred + "/"@ + expected;
    let rest = " MiB "@ + text::decimal_text(percent as nat) + "%"@;
    let whole = transfer_text(transferred, expected, percent);
    assert(whole =~= "\ntransferred: "@ + line + rest);
    text::law_texts_hold_their_parts(whole, "\ntransferred: "@, line, rest);
}

/// What is said of a job begins with its label, ends with its path, and holds the words for its
/// status, the written forms of its time and its transfer, and the labels of the jobs it needs and
/// of those that need it.
pub proof fn law_details_say_what_is_known(
    jobs: Seq<JobModel>,
    index: int,
    elapsed: Seq<char>,
    transferred: Seq<char>,
    expected: Seq<char>,
)
    ensures
        ({
            let said = detail_text(jobs, index, elapsed, transferred, expected);
            let job = jobs[index];
            &&& text::starts(said, job.label)
            &&& text::ends(said, job.drv_path)
            &&& text::occurs(said, status_words(job.status))
            &&& text::occurs(said, elapsed)
            &&& job.progress is Some ==> text::occurs(said, transferred + "/"@ + expected)
            &&& text::occurs(said, or_none_text(label_line(jobs, job.dependencies)))
            &&& text::occurs(said, or_none_text(label_line(jobs, job.dependents)))
        }),
{
    let job = jobs[index];
    let transfer = match job.progress {
        Some((done, total)) => transfer_text(transferred, expected, share(done, total)),
        None => Seq::empty(),
    };
    let needs = or_none_text(label_line(jobs, job.dependencies));
    let needed = or_none_text(label_line(jobs, job.dependents));
    let said = detail_text(jobs, index, elapsed, transferred, expected);
    lemma_details(
        job.label,
        "\n\nstatus: "@,
        status_words(job.status),
        "\nelapsed: "@,
        elapsed,
        transfer,
        "\ndepends on: "@,
        needs,
        "\nrequired by: "@,
        needed,
        "\n\n"@,
        job.drv_path,
    );
    reveal(holds);
    if let Some((done, total)) = job.progress {
        let line = transferred + "/"@ + expected;
        lemma_transfer(transferred, expected, share(done, total));
        let at = choose|i: int|
            0 <= i <= said.len() && text::starts(#[trigger] said.skip(i), transfer);
        text::lemma_occurs_in_part(said, at, transfer, line);
    }
}

/// The line of keys shows the query and the filter where the jobs are restricted by one, and no
/// other line does.
pub proof fn law_the_footer_shows_the_filter(state: UiState, width: u16)
    ensures
        is_filtered(state) ==> text::starts(footer_text(state, width), " /"@ + state.query)
            && text::occurs(footer_text(state, width), "  "@ + state.filter.name() + "  Enter"@),
        !is_filtered(state) ==> footer_text(state, width)[1] != '/',
        is_filtered(state) <==> state.typing || state.query != Seq::<char>::empty() || state.filter
            != JobFilter::All,
{
    reveal_strlit("  Enter apply  Esc clear");
    reveal_strlit("  Enter");
    reveal_strlit(" j/k select  ? help  q cancel");
    reveal_strlit(" ↑/↓ select  j/k navigate  ? help  q/Ctrl-C cancel");
    assert(state.query =~= Seq::<char>::empty() <==> state.query.len() == 0);
    if is_filtered(state) {
        let shown = footer_text(state, width);
        let name = state.filter.name();
        let rest = "  "@ + name + "  Enter apply  Esc clear"@;
        assert(shown =~= (" /"@ + state.query) + rest);
        text::lemma_starts_itself(" /"@ + state.query, rest);
        let part = "  "@ + name + "  Enter"@;
        let back = "  Enter apply  Esc clear"@.skip(7);
        assert("  Enter apply  Esc clear"@ =~= "  Enter"@ + back);
        assert(shown =~= (" /"@ + state.query) + part + back);
        text::law_texts_hold_their_parts(shown, " /"@ + state.query, part, back);
    }
}

/// A measure less its margin fits, and only a limit or the margin keeps it from taking all the
/// room.
pub proof fn law_measures_keep_their_margin(size: u16, margin: int, limit: int)
    requires
        0 <= margin,
        0 <= limit,
    ensures
        0 <= within(size, margin, limit) <= limit,
        size >= margin ==> within(size, margin, limit) + margin <= size,
        size >= margin && within(size, margin, limit) < limit ==> within(size, margin, limit)
            + margin == size,
        size < margin ==> within(size, margin, limit) == 0,
{
}

/// What is returned as percent is the integral share of a hundred, as long as a hundredfold can be
/// counted, and a whole where at least as much was transferred as expected.
pub proof fn law_percent_is_the_share_of_a_hundred(done: u64, expected: u64, result: u8)
    requires
        call_ensures(percent, (done, expected), result),
    ensures
        result <= 100,
        expected == 0 ==> result == 0,
        0 < expected && done <= expected && done * 100 <= u64::MAX ==> result * expected <= done
            * 100 < (result + 1) * expected,
        0 < expected <= done && done * 100 <= u64::MAX ==> result == 100,
{
    law_shares_are_parts_of_the_whole(done, expected);
}

/// The key help stands in the middle: the room left and right of it, and above and below it,
/// differs by one at most, and it takes all the room but for its margin and its limit.
pub proof fn law_the_help_stands_in_the_middle(screen: Area, result: Area)
    requires
        screen.x + screen.width <= u16::MAX,
        screen.y + screen.height <= u16::MAX,
        call_ensures(help_area, (screen,), result),
    ensures
        ({
            let left = result.x - screen.x;
            let right = screen.x + screen.width - (result.x + result.width);
            let above = result.y - screen.y;
            let below = screen.y + screen.height - (result.y + result.height);
            &&& 0 <= left <= right <= left + 1
            &&& 0 <= above <= below <= above + 1
            &&& result.width <= 58
            &&& result.height <= 12
            &&& screen.width >= 8 ==> left + right >= 8 && (result.width < 58 ==> left + right == 8)
            &&& screen.height >= 4 ==> above + below >= 4 && (result.height < 12 ==> above + below
                == 4)
        }),
{
    law_measures_keep_their_margin(screen.width, 8, 58);
    law_measures_keep_their_margin(screen.height, 4, 12);
}

/// Only a minute or more is written in minutes, and what is written reads back as the time.
pub proof fn law_minutes_are_written_from_a_minute_on(seconds: u64, result: Option<String>)
    requires
        call_ensures(minutes, (seconds,), result),
    ensures
        result is Some <==> seconds >= 60,
        result matches Some(written) ==> {
            let size = written@.len() as int;
            60 * text::number(written@.take(size - 4)) + text::number(
                written@.subrange(size - 3, size - 1),
            ) == seconds
        },
{
    law_minutes_read_back(seconds as nat);
}

/// A log view shows consecutive lines of the log in their order, the last of which is as far from
/// the end as the view is scrolled.
pub proof fn law_log_views_show_the_log(job: Job, rows: usize, result: Vec<String>, i: int)
    requires
        call_ensures(shown_log, (&job, rows), result),
        job.log_scroll <= job.logs@.len(),
        0 <= i < result@.len(),
    ensures
        ({
            let end = job.logs@.len() - job.log_scroll;
            &&& result@.len() <= rows
            &&& result@.len() < rows ==> result@.len() == end
            &&& result@[i]@ == job.logs@[end - result@.len() + i]@
        }),
{
    let shown = window(job.logs@.len(), job.log_scroll as int, rows as int);
    let logs = job.deep_view().logs;
    assert(result.deep_view().len() == result@.len());
    assert(logs.len() == job.logs@.len());
    assert(result.deep_view()[i] == logs.subrange(shown.0, shown.1)[i]);
    assert(result.deep_view()[i] == result@[i]@);
}

/// The job table shows each shown job in its order, by its own name, with how long it has been
/// active.
pub proof fn law_rows_show_their_jobs(
    model: Model,
    spinner: &'static str,
    now: u128,
    result: Vec<JobRow>,
    i: int,
)
    requires
        model.wf(),
        call_ensures(job_rows, (&model, spinner, now), result),
        0 <= i < result@.len(),
    ensures
        result@.len() == model.state().visible().len(),
        ({
            let job = model.state().jobs[model.state().visible()[i] as int];
            &&& result@[i].label@ == job.label
            &&& result@[i].elapsed == job.duration(now)
            &&& job.status is Running ==> result@[i].symbol@ == spinner@
            &&& result@[i].tone is Bad <==> job.status == JobStatus::Settled(NodeState::Failed)
        }),
{
    let job = model.state().jobs[model.state().visible()[i] as int];
    assert(row_shows(
        result@[i],
        model.state().jobs,
        model.state().visible()[i] as int,
        spinner@,
        now,
    ));
    law_colors_tell_how_jobs_ended(job.status);
}

/// The counter reads back as the number of settled jobs and the number of all.
pub proof fn law_the_counter_reads_back(model: Model, result: String)
    requires
        call_ensures(settled_counter, (&model,), result),
    ensures
        exists|done: Seq<char>, all: Seq<char>|
            {
                &&& result@ == #[trigger] (done + "/"@ + all)
                &&& text::number(done) == state::settled_count(model.state().jobs)
                &&& text::number(all) == model.state().jobs.len()
            },
{
    let done = text::decimal_text(state::settled_count(model.state().jobs) as nat);
    let all = text::decimal_text(model.state().jobs.len());
    text::law_decimals_read_back(state::settled_count(model.state().jobs) as nat);
    text::law_decimals_read_back(model.state().jobs.len());
    assert(result@ == done + "/"@ + all);
}

/// A running job has the spinner's symbol. Of all others, only jobs that wait for their result share
/// a symbol, and jobs that were built or realized do.
pub proof fn law_symbols_tell_statuses_apart(a: JobStatus, b: JobStatus, spinner: Seq<char>)
    requires
        !(a is Running),
        !(b is Running),
        symbol_of(a, spinner) == symbol_of(b, spinner),
    ensures
        symbol_of(JobStatus::Running, spinner) == spinner,
        a == b || ((a is AwaitingResult || a is Provisional) && (b is AwaitingResult
            || b is Provisional)) || (tone_of(a) is Good && tone_of(b) is Good && a
            != JobStatus::Settled(NodeState::Cached) && b != JobStatus::Settled(NodeState::Cached)),
{
    reveal_strlit("○");
    reveal_strlit("◌");
    reveal_strlit("●");
    reveal_strlit("↓");
    reveal_strlit("✓");
    reveal_strlit("✕");
    reveal_strlit("—");
    reveal_strlit("!");
    assert("○"@[0] == '○' && "◌"@[0] == '◌' && "●"@[0] == '●' && "↓"@[0] == '↓');
    assert("✓"@[0] == '✓' && "✕"@[0] == '✕' && "—"@[0] == '—' && "!"@[0] == '!');
}

/// On the rail, phases are told apart by their labels, and how far they are by symbol and color.
pub proof fn law_the_rail_tells_phases_apart(
    phases: (Phase, Phase),
    statuses: (PhaseStatus, PhaseStatus),
)
    ensures
        rail_label(phases.0) == rail_label(phases.1) ==> phases.0 == phases.1,
        rail_mark(statuses.0).0 == rail_mark(statuses.1).0 ==> statuses.0 == statuses.1,
        rail_mark(statuses.0).1 == rail_mark(statuses.1).1 ==> statuses.0 == statuses.1,
{
    reveal_strlit("DISCOVER");
    reveal_strlit("EVALUATE");
    reveal_strlit("MAP");
    reveal_strlit("PROBE");
    reveal_strlit("REALIZE");
    reveal_strlit("○");
    reveal_strlit("◆");
    reveal_strlit("●");
    assert("DISCOVER"@.len() == 8 && "EVALUATE"@.len() == 8 && "MAP"@.len() == 3);
    assert("PROBE"@.len() == 5 && "REALIZE"@.len() == 7);
    assert("DISCOVER"@[0] == 'D' && "EVALUATE"@[0] == 'E');
    assert("○"@[0] == '○' && "◆"@[0] == '◆' && "●"@[0] == '●');
}

/// Outcomes are told apart by word and by color, and a success alone looks like one.
pub proof fn law_outcomes_look_apart(a: Option<ManifestOutcome>, b: Option<ManifestOutcome>)
    ensures
        outcome_words(a).0 == outcome_words(b).0 ==> a == b,
        outcome_words(a).1 == outcome_words(b).1 ==> a == b,
        outcome_words(a).1 is Good <==> a == Some(ManifestOutcome::Success),
        outcome_words(a).1 is Bad <==> a == Some(ManifestOutcome::Failed),
{
    reveal_strlit("SUCCESS");
    reveal_strlit("FAILED");
    reveal_strlit("CANCELLED");
    reveal_strlit("RUNNING");
    assert("SUCCESS"@.len() == 7 && "FAILED"@.len() == 6 && "CANCELLED"@.len() == 9
        && "RUNNING"@.len() == 7);
    assert("SUCCESS"@[0] == 'S' && "RUNNING"@[0] == 'R');
}

} // verus!
