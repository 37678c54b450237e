//! Which interface shows progress, what its keys do, and what it says in plain lines.

use vstd::prelude::*;

use crate::model::{Manifest, ManifestOutcome, NodeResult, NodeState, Phase, ProgressEvent};
use crate::process::Cancellation;
use crate::text;
use crate::ui::job;
use crate::ui::job::JobFilter;
use crate::ui::model::Model;
use crate::ui::state::UiState;

verus! {

/// An interface that shows progress.
#[derive(Clone, Copy, Debug, PartialEq, Eq, Structural)]
pub enum OutputMode {
    /// The full-screen interface.
    Tui,
    /// One line per event.
    Stream,
}

/// What the terminal allows.
#[derive(Clone, Copy, Debug, PartialEq, Eq)]
pub struct DisplayContext<'a> {
    /// Whether standard input and standard error are terminals.
    pub interactive_io: bool,
    /// The terminal's name.
    pub term: Option<&'a str>,
}

impl<'a> DisplayContext<'a> {
    /// The terminal can show the full-screen interface.
    pub open spec fn capable(&self) -> bool {
        &&& self.interactive_io
        &&& self.term matches Some(term) && term@.len() > 0 && term@ != "dumb"@
    }
}

impl OutputMode {
    /// Chooses the interface: the full-screen one where it was asked for and can be shown.
    pub fn select(requested: OutputMode, context: DisplayContext<'_>) -> (result: Self)
        ensures
            result == (if requested == OutputMode::Tui && context.capable() {
                OutputMode::Tui
            } else {
                OutputMode::Stream
            }),
    {
        let named = match context.term {
            Some(term) => !term.is_empty() && !text::same(term, "dumb"),
            None => false,
        };
        match requested {
            OutputMode::Tui => {
                if context.interactive_io && named {
                    OutputMode::Tui
                } else {
                    OutputMode::Stream
                }
            },
            OutputMode::Stream => OutputMode::Stream,
        }
    }
}

/// A key that the full-screen interface knows.
#[derive(Clone, Copy, Debug, PartialEq, Eq, Structural)]
pub enum KeyCode {
    /// A character.
    Char(char),
    /// The up arrow.
    Up,
    /// The down arrow.
    Down,
    /// The enter key.
    Enter,
    /// The escape key.
    Esc,
    /// The backspace key.
    Backspace,
    /// Any other key.
    Other,
}

/// A pressed key.
#[derive(Clone, Copy, Debug, PartialEq, Eq, Structural)]
pub struct Key {
    /// Which key.
    pub code: KeyCode,
    /// Whether it was pressed with the control key.
    pub control: bool,
}

impl Key {
    /// Ctrl-C, which cancels in every mode.
    pub open spec fn interrupts(self) -> bool {
        self.control && self.code == KeyCode::Char('c')
    }

    /// The key cancels the work: Ctrl-C always does, and `q` where it is not typed into the query.
    pub open spec fn cancels(self, state: UiState) -> bool {
        self.interrupts() || (!state.typing && self.code == KeyCode::Char('q'))
    }

    /// The display after the key.
    pub open spec fn pressed(self, state: UiState) -> UiState {
        if self.cancels(state) {
            state
        } else if state.typing {
            match self.code {
                KeyCode::Char(character) => if self.control {
                    state
                } else {
                    UiState { query: state.query.push(character), ..state }.reselected()
                },
                KeyCode::Backspace => UiState {
                    query: if state.query.len() > 0 {
                        state.query.drop_last()
                    } else {
                        state.query
                    },
                    ..state
                }.reselected(),
                KeyCode::Enter => UiState { typing: false, ..state },
                KeyCode::Esc => state.unfiltered(),
                _ => state,
            }
        } else {
            match self.code {
                KeyCode::Up => state.moved(-1),
                KeyCode::Down => state.moved(1),
                KeyCode::Char('k') => state.moved(-1),
                KeyCode::Char('j') => state.moved(1),
                KeyCode::Char('?') => UiState { help_visible: !state.help_visible, ..state },
                KeyCode::Char('/') => UiState { typing: true, ..state },
                KeyCode::Char('f') => UiState { filter: turned(state.filter, false), ..state }.reselected(),
                KeyCode::Char('F') => UiState { filter: turned(state.filter, true), ..state }.reselected(),
                KeyCode::Esc => if state.help_visible {
                    UiState { help_visible: false, ..state }
                } else {
                    state.unfiltered()
                },
                _ => state,
            }
        }
    }
}

/// The filter after another one, or before it; the first comes after the last.
pub open spec fn turned(filter: JobFilter, reverse: bool) -> JobFilter {
    choose|next: JobFilter|
        next.rank() == if reverse {
            (filter.rank() + 5) % 6
        } else {
            (filter.rank() + 1) % 6
        }
}

fn turn(model: &mut Model, reverse: bool)
    requires
        old(model).wf(),
    ensures
        final(model).wf(),
        final(model).state() == (UiState {
            filter: turned(old(model).state().filter, reverse),
            ..old(model).state()
        }).reselected(),
{
    model.cycle_job_filter(reverse);
    proof {
        let filter = old(model).state().filter;
        job::lemma_rank(model.state().filter, turned(filter, reverse));
    }
}

/// Takes a key into the display and returns the signal with which the work is to be cancelled, if
/// the key cancels it.
pub fn press(model: &mut Model, key: Key) -> (result: Option<i32>)
    requires
        old(model).wf(),
    ensures
        final(model).wf(),
        final(model).state() == key.pressed(old(model).state()),
        result == (if key.cancels(old(model).state()) {
            Some(2i32)
        } else {
            None
        }),
{
    if key.control {
        match key.code {
            KeyCode::Char('c') => {
                return Some(2);
            },
            _ => {},
        }
    }
    if model.filter_input_active() {
        match key.code {
            KeyCode::Char(character) => {
                if !key.control {
                    model.push_filter_character(character);
                }
            },
            KeyCode::Backspace => model.pop_filter_character(),
            KeyCode::Enter => model.finish_filter_input(),
            KeyCode::Esc => model.clear_filters(),
            _ => {},
        }
        return None;
    }
    match key.code {
        KeyCode::Char('q') => {
            return Some(2);
        },
        KeyCode::Up => model.select_previous(),
        KeyCode::Char('k') => model.select_previous(),
        KeyCode::Down => model.select_next(),
        KeyCode::Char('j') => model.select_next(),
        KeyCode::Char('?') => model.toggle_help(),
        KeyCode::Char('/') => model.start_filter_input(),
        KeyCode::Char('f') => turn(model, false),
        KeyCode::Char('F') => turn(model, true),
        KeyCode::Esc => {
            if model.help_visible() {
                model.toggle_help();
            } else {
                model.clear_filters();
            }
        },
        _ => {},
    }
    None
}

/// Takes a key into the display, and requests cancellation where the key asks for it.
pub fn handle_key(model: &mut Model, key: Key, cancellation: &Cancellation)
    requires
        old(model).wf(),
    ensures
        final(model).wf(),
        final(model).state() == key.pressed(old(model).state()),
        key.cancels(old(model).state()) ==> cancellation.was_asked(2),
{
    match press(model, key) {
        Some(signal) => cancellation.request(signal),
        None => {},
    }
}

/// What is typed into the query only changes the query and what shows of the jobs: it moves
/// nothing else and cancels nothing.
pub proof fn law_typing_triggers_no_command(state: UiState, character: char)
    requires
        state.typing,
    ensures
        ({
            let key = Key { code: KeyCode::Char(character), control: false };
            &&& !key.cancels(state)
            &&& key.pressed(state) == (UiState {
                query: state.query.push(character),
                selected: key.pressed(state).selected,
                ..state
            })
        }),
{
}

/// Escape leaves no filter and no query behind, unless it hides the key help.
pub proof fn law_escape_shows_every_job(state: UiState, control: bool)
    requires
        state.typing || !state.help_visible,
    ensures
        ({
            let after = (Key { code: KeyCode::Esc, control }).pressed(state);
            &&& after.query.len() == 0
            &&& after.filter == JobFilter::All
            &&& !after.typing
        }),
{
}

/// The name of an outcome.
pub open spec fn outcome_name(outcome: ManifestOutcome) -> Seq<char> {
    match outcome {
        ManifestOutcome::Success => "Success"@,
        ManifestOutcome::Failed => "Failed"@,
        ManifestOutcome::Cancelled => "Cancelled"@,
    }
}

/// The name of a phase.
pub open spec fn phase_name(phase: Phase) -> Seq<char> {
    match phase {
        Phase::Discovery => "Discovery"@,
        Phase::Evaluation => "Evaluation"@,
        Phase::Graph => "Graph"@,
        Phase::Probe => "Probe"@,
        Phase::Realization => "Realization"@,
    }
}

/// The name of a settled state.
pub open spec fn state_name(state: NodeState) -> Seq<char> {
    match state {
        NodeState::Cached => "Cached"@,
        NodeState::Substituted => "Substituted"@,
        NodeState::Built => "Built"@,
        NodeState::Realized => "Realized"@,
        NodeState::Failed => "Failed"@,
        NodeState::Skipped => "Skipped"@,
        NodeState::Cancelled => "Cancelled"@,
    }
}

fn outcome_text(outcome: ManifestOutcome) -> (result: &'static str)
    ensures
        result@ == outcome_name(outcome),
{
    match outcome {
        ManifestOutcome::Success => "Success",
        ManifestOutcome::Failed => "Failed",
        ManifestOutcome::Cancelled => "Cancelled",
    }
}

fn phase_text(phase: Phase) -> (result: &'static str)
    ensures
        result@ == phase_name(phase),
{
    match phase {
        Phase::Discovery => "Discovery",
        Phase::Evaluation => "Evaluation",
        Phase::Graph => "Graph",
        Phase::Probe => "Probe",
        Phase::Realization => "Realization",
    }
}

fn state_text(state: NodeState) -> (result: &'static str)
    ensures
        result@ == state_name(state),
{
    match state {
        NodeState::Cached => "Cached",
        NodeState::Substituted => "Substituted",
        NodeState::Built => "Built",
        NodeState::Realized => "Realized",
        NodeState::Failed => "Failed",
        NodeState::Skipped => "Skipped",
        NodeState::Cancelled => "Cancelled",
    }
}

/// How many nodes settled in a state.
pub open spec fn count_in(nodes: Seq<NodeResult>, state: NodeState) -> nat
    decreases nodes.len(),
{
    if nodes.len() == 0 {
        0
    } else {
        count_in(nodes.drop_last(), state) + if nodes.last().state == state {
            1nat
        } else {
            0nat
        }
    }
}

/// How many nodes settled in each state.
#[derive(Clone, Copy, Debug, PartialEq, Eq, Structural)]
pub struct Tally {
    /// Nodes whose outputs were there.
    pub cached: usize,
    /// Nodes whose outputs were downloaded.
    pub substituted: usize,
    /// Nodes that were built.
    pub built: usize,
    /// Nodes whose outputs Nix confirmed.
    pub realized: usize,
    /// Nodes that failed.
    pub failed: usize,
    /// Nodes that were skipped.
    pub skipped: usize,
    /// Nodes that were cancelled.
    pub cancelled: usize,
}

impl Tally {
    /// Each number counts the nodes of its state.
    pub open spec fn counts(self, nodes: Seq<NodeResult>) -> bool {
        &&& self.cached == count_in(nodes, NodeState::Cached)
        &&& self.substituted == count_in(nodes, NodeState::Substituted)
        &&& self.built == count_in(nodes, NodeState::Built)
        &&& self.realized == count_in(nodes, NodeState::Realized)
        &&& self.failed == count_in(nodes, NodeState::Failed)
        &&& self.skipped == count_in(nodes, NodeState::Skipped)
        &&& self.cancelled == count_in(nodes, NodeState::Cancelled)
    }
}

/// Counts the nodes of each state.
pub fn tally(nodes: &Vec<NodeResult>) -> (result: Tally)
    ensures
        result.counts(nodes@),
        result.cached + result.substituted + result.built + result.realized + result.failed
            + result.skipped + result.cancelled == nodes@.len(),
{
    let mut result = Tally {
        cached: 0,
        substituted: 0,
        built: 0,
        realized: 0,
        failed: 0,
        skipped: 0,
        cancelled: 0,
    };
    let count = nodes.len();
    let mut i: usize = 0;
    while i < count
        invariant
            count == nodes@.len(),
            i <= count,
            result.counts(nodes@.take(i as int)),
            result.cached + result.substituted + result.built + result.realized + result.failed
                + result.skipped + result.cancelled == i,
        decreases count - i,
    {
        proof {
            assert(nodes@.take(i + 1).drop_last() =~= nodes@.take(i as int));
            assert(nodes@.take(i + 1).last() == nodes@[i as int]);
        }
        match nodes[i].state {
            NodeState::Cached => {
                result.cached = result.cached + 1;
            },
            NodeState::Substituted => {
                result.substituted = result.substituted + 1;
            },
            NodeState::Built => {
                result.built = result.built + 1;
            },
            NodeState::Realized => {
                result.realized = result.realized + 1;
            },
            NodeState::Failed => {
                result.failed = result.failed + 1;
            },
            NodeState::Skipped => {
                result.skipped = result.skipped + 1;
            },
            NodeState::Cancelled => {
                result.cancelled = result.cancelled + 1;
            },
        }
        i = i + 1;
    }
    assert(nodes@.take(count as int) =~= nodes@);
    result
}

/// A number and what it counts.
pub open spec fn counted(number: nat, noun: Seq<char>) -> Seq<char> {
    text::decimal_text(number) + noun
}

fn count_text(number: usize, noun: &str) -> (result: String)
    ensures
        result@ == counted(number as nat, noun@),
{
    text::cat2(text::decimal(number as u128).as_str(), noun)
}

/// The parts of a completed operation's summary.
pub open spec fn summary_parts(manifest: Manifest) -> Seq<Seq<char>> {
    let nodes = manifest.nodes@;
    seq![
        outcome_name(manifest.outcome),
        counted(nodes.len(), " jobs"@),
        counted(count_in(nodes, NodeState::Cached), " cached"@),
        counted(count_in(nodes, NodeState::Substituted), " downloaded"@),
        counted(
            count_in(nodes, NodeState::Built) + count_in(nodes, NodeState::Realized),
            " built"@,
        ),
        counted(count_in(nodes, NodeState::Failed), " failed"@),
        counted(count_in(nodes, NodeState::Skipped), " skipped"@),
        counted(count_in(nodes, NodeState::Cancelled), " cancelled"@),
    ]
}

/// Returns the line that sums up a completed operation.
pub fn completion_summary(title: &str, manifest: &Manifest) -> (result: String)
    ensures
        result@ == title@ + ": "@ + text::joined(summary_parts(*manifest), " · "@),
{
    let count = manifest.nodes.len();
    let tally = tally(&manifest.nodes);
    let mut parts: Vec<String> = Vec::new();
    parts.push(outcome_text(manifest.outcome).to_owned());
    parts.push(count_text(count, " jobs"));
    parts.push(count_text(tally.cached, " cached"));
    parts.push(count_text(tally.substituted, " downloaded"));
    parts.push(count_text(tally.built + tally.realized, " built"));
    parts.push(count_text(tally.failed, " failed"));
    parts.push(count_text(tally.skipped, " skipped"));
    parts.push(count_text(tally.cancelled, " cancelled"));
    assert(parts.deep_view() =~= summary_parts(*manifest));
    text::cat3(title, ": ", text::join(&parts, " · ").as_str())
}

/// The line that an event gives where there is no full-screen interface.
pub open spec fn event_line(event: ProgressEvent) -> Option<Seq<char>> {
    match event {
        ProgressEvent::PhaseStarted(phase) => Some(
            "nix-tools: "@ + phase_name(phase) + " started"@,
        ),
        ProgressEvent::PhaseFinished(phase) => Some(
            "nix-tools: "@ + phase_name(phase) + " finished"@,
        ),
        ProgressEvent::GraphDiscovered(nodes) => Some(
            "nix-tools: discovered "@ + text::decimal_text(nodes@.len()) + " derivations"@,
        ),
        ProgressEvent::NodeStarted { drv_path } => Some("nix-tools: realizing "@ + drv_path@),
        ProgressEvent::NodeFinished { drv_path, state } => Some(
            "nix-tools: "@ + drv_path@ + " "@ + state_name(state),
        ),
        ProgressEvent::Cancelled { signal } => Some(
            "nix-tools: cancelled by signal "@ + text::signed_text(signal as int),
        ),
        _ => None,
    }
}

/// Returns the line that an event gives where there is no full-screen interface.
pub fn stream_line(event: &ProgressEvent) -> (result: Option<String>)
    ensures
        match result {
            Some(line) => event_line(*event) == Some(line@),
            None => event_line(*event) is None,
        },
{
    match event {
        ProgressEvent::PhaseStarted(phase) => Some(
            text::cat3("nix-tools: ", phase_text(*phase), " started"),
        ),
        ProgressEvent::PhaseFinished(phase) => Some(
            text::cat3("nix-tools: ", phase_text(*phase), " finished"),
        ),
        ProgressEvent::GraphDiscovered(nodes) => Some(
            text::cat3(
                "nix-tools: discovered ",
                text::decimal(nodes.len() as u128).as_str(),
                " derivations",
            ),
        ),
        ProgressEvent::NodeStarted { drv_path } => Some(
            text::cat2("nix-tools: realizing ", drv_path.as_str()),
        ),
        ProgressEvent::NodeFinished { drv_path, state } => Some(
            text::cat4("nix-tools: ", drv_path.as_str(), " ", state_text(*state)),
        ),
        ProgressEvent::Cancelled { signal } => Some(
            text::cat2("nix-tools: cancelled by signal ", text::signed(*signal).as_str()),
        ),
        _ => None,
    }
}

/// Ctrl-C cancels whatever the display shows, and a key that cancels changes nothing of it.
pub proof fn law_interrupts_cancel_in_every_mode(state: UiState, key: Key)
    ensures
        (Key { code: KeyCode::Char('c'), control: true }).cancels(state),
        key.cancels(state) ==> key.pressed(state) == state,
        key.cancels(state) ==> key.code == KeyCode::Char('c') || key.code == KeyCode::Char('q'),
        !state.typing ==> (Key { code: KeyCode::Char('q'), control: false }).cancels(state),
{
}

/// The display after keys that were typed one after another.
pub open spec fn typed(state: UiState, characters: Seq<char>) -> UiState
    decreases characters.len(),
{
    if characters.len() == 0 {
        state
    } else {
        (Key { code: KeyCode::Char(characters.last()), control: false }).pressed(
            typed(state, characters.drop_last()),
        )
    }
}

/// What is typed stands behind the query, character by character, and leaves everything alone but
/// the query and the selection.
pub proof fn law_the_query_is_what_was_typed(state: UiState, characters: Seq<char>)
    requires
        state.typing,
    ensures
        ({
            let after = typed(state, characters);
            &&& after.query == state.query + characters
            &&& after == (UiState { query: after.query, selected: after.selected, ..state })
        }),
    decreases characters.len(),
{
    if characters.len() == 0 {
        assert(state.query + characters =~= state.query);
    } else {
        law_the_query_is_what_was_typed(state, characters.drop_last());
        assert((state.query + characters.drop_last()).push(characters.last()) =~= state.query
            + characters);
    }
}

/// Backspace takes back the last character that was typed, and nothing where there is none.
pub proof fn law_backspace_takes_back_a_character(state: UiState, character: char, control: bool)
    requires
        state.typing,
    ensures
        ({
            let typed = (Key { code: KeyCode::Char(character), control: false }).pressed(state);
            let after = (Key { code: KeyCode::Backspace, control }).pressed(typed);
            &&& after.query == state.query
            &&& after == (UiState { selected: after.selected, ..state })
        }),
        state.query.len() == 0 ==> (Key { code: KeyCode::Backspace, control }).pressed(
            state,
        ).query.len() == 0,
{
    assert(state.query.push(character).drop_last() =~= state.query);
}

/// Outside the query, letters move the selection as the arrows do, the help comes and goes, and the
/// filter turned on and back is the same.
pub proof fn law_letters_do_what_their_keys_say(state: UiState, control: bool)
    requires
        !state.typing,
        !control,
    ensures
        (Key { code: KeyCode::Char('j'), control }).pressed(state) == (Key {
            code: KeyCode::Down,
            control,
        }).pressed(state),
        (Key { code: KeyCode::Char('k'), control }).pressed(state) == (Key {
            code: KeyCode::Up,
            control,
        }).pressed(state),
        (Key { code: KeyCode::Down, control }).pressed(state) == state.moved(1),
        (Key { code: KeyCode::Up, control }).pressed(state) == state.moved(-1),
        ({
            let help = Key { code: KeyCode::Char('?'), control };
            &&& help.pressed(state).help_visible != state.help_visible
            &&& help.pressed(help.pressed(state)) == state
        }),
        ({
            let asking = (Key { code: KeyCode::Char('/'), control }).pressed(state);
            &&& asking.typing
            &&& (Key { code: KeyCode::Enter, control }).pressed(asking) == state
        }),
        ({
            let turned = (Key { code: KeyCode::Char('f'), control }).pressed(state);
            let back = (Key { code: KeyCode::Char('F'), control }).pressed(turned);
            &&& turned.filter != state.filter
            &&& back.filter == state.filter
            &&& back == (UiState { selected: back.selected, ..state })
        }),
{
    lemma_turned(state.filter, false);
    lemma_turned(turned(state.filter, false), true);
    job::lemma_rank(turned(turned(state.filter, false), true), state.filter);
}

proof fn lemma_turned(filter: JobFilter, reverse: bool)
    ensures
        turned(filter, reverse).rank() == if reverse {
            (filter.rank() + 5) % 6
        } else {
            (filter.rank() + 1) % 6
        },
{
    let wanted = if reverse {
        (filter.rank() + 5) % 6
    } else {
        (filter.rank() + 1) % 6
    };
    assert(JobFilter::All.rank() == 0);
    assert(JobFilter::Active.rank() == 1);
    assert(JobFilter::Waiting.rank() == 2);
    assert(JobFilter::Queued.rank() == 3);
    assert(JobFilter::Completed.rank() == 4);
    assert(JobFilter::Failed.rank() == 5);
    assert(exists|next: JobFilter| #[trigger] next.rank() == wanted);
}

/// Escape hides the key help first where it is shown and nothing is typed, and keys without a
/// meaning change nothing.
pub proof fn law_other_keys_change_nothing(state: UiState, key: Key)
    ensures
        key.code is Other ==> key.pressed(state) == state && !key.cancels(state),
        !state.typing && state.help_visible && key.code is Esc ==> key.pressed(state) == (UiState {
            help_visible: false,
            ..state
        }),
        !state.typing && (key.code is Enter || key.code is Backspace) ==> key.pressed(state)
            == state,
        state.typing && (key.code is Up || key.code is Down) ==> key.pressed(state) == state,
{
}

/// The nodes that settled in a state are counted one by one.
pub proof fn law_counts_are_of_the_nodes_in_a_state(nodes: Seq<NodeResult>, state: NodeState)
    ensures
        count_in(nodes, state) == nodes.filter(|node: NodeResult| node.state == state).len(),
    decreases nodes.len(),
{
    let wanted = |node: NodeResult| node.state == state;
    reveal(Seq::filter);
    if nodes.len() > 0 {
        law_counts_are_of_the_nodes_in_a_state(nodes.drop_last(), state);
    }
}

/// The summary counts every node once: the numbers behind that of all jobs add up to it.
pub proof fn law_summaries_count_every_node_once(manifest: Manifest)
    ensures
        ({
            let nodes = manifest.nodes@;
            let parts = summary_parts(manifest);
            exists|cached: nat, downloaded: nat, built: nat, failed: nat, skipped: nat, cancelled: nat|
                #![trigger
                    counted(cached, " cached"@),
                    counted(downloaded, " downloaded"@),
                    counted(built, " built"@),
                    counted(failed, " failed"@),
                    counted(skipped, " skipped"@),
                    counted(cancelled, " cancelled"@)]
                {
                    &&& parts == seq![
                        outcome_name(manifest.outcome),
                        counted(nodes.len(), " jobs"@),
                        counted(cached, " cached"@),
                        counted(downloaded, " downloaded"@),
                        counted(built, " built"@),
                        counted(failed, " failed"@),
                        counted(skipped, " skipped"@),
                        counted(cancelled, " cancelled"@),
                    ]
                    &&& cached + downloaded + built + failed + skipped + cancelled == nodes.len()
                }
        }),
{
    let nodes = manifest.nodes@;
    lemma_states_divide_the_nodes(nodes);
    let cached = count_in(nodes, NodeState::Cached);
    let downloaded = count_in(nodes, NodeState::Substituted);
    let built = count_in(nodes, NodeState::Built) + count_in(nodes, NodeState::Realized);
    let failed = count_in(nodes, NodeState::Failed);
    let skipped = count_in(nodes, NodeState::Skipped);
    let cancelled = count_in(nodes, NodeState::Cancelled);
    assert(summary_parts(manifest) =~= seq![
        outcome_name(manifest.outcome),
        counted(nodes.len(), " jobs"@),
        counted(cached, " cached"@),
        counted(downloaded, " downloaded"@),
        counted(built, " built"@),
        counted(failed, " failed"@),
        counted(skipped, " skipped"@),
        counted(cancelled, " cancelled"@),
    ]);
}

proof fn lemma_states_divide_the_nodes(nodes: Seq<NodeResult>)
    ensures
        count_in(nodes, NodeState::Cached) + count_in(nodes, NodeState::Substituted) + count_in(
            nodes,
            NodeState::Built,
        ) + count_in(nodes, NodeState::Realized) + count_in(nodes, NodeState::Failed) + count_in(
            nodes,
            NodeState::Skipped,
        ) + count_in(nodes, NodeState::Cancelled) == nodes.len(),
    decreases nodes.len(),
{
    if nodes.len() > 0 {
        lemma_states_divide_the_nodes(nodes.drop_last());
    }
}

/// Every line for an event begins with the program's name; those on a derivation name it, and those
/// on the graph and on a signal give the number.
pub proof fn law_streamed_lines_name_their_subject(event: ProgressEvent)
    ensures
        event_line(event) matches Some(line) ==> text::starts(line, "nix-tools: "@),
        match event {
            ProgressEvent::NodeStarted { drv_path } => event_line(event) matches Some(line)
                && text::ends(line, drv_path@),
            ProgressEvent::NodeFinished { drv_path, state } => event_line(event) matches Some(line)
                && text::occurs(line, drv_path@) && text::ends(line, state_name(state)),
            ProgressEvent::GraphDiscovered(nodes) => event_line(event) matches Some(line)
                && text::occurs(line, text::decimal_text(nodes@.len())),
            ProgressEvent::Cancelled { signal } => event_line(event) matches Some(line)
                && text::ends(line, text::signed_text(signal as int)),
            ProgressEvent::PhaseStarted(phase) => event_line(event) matches Some(line)
                && text::occurs(line, phase_name(phase)) && text::ends(line, " started"@),
            ProgressEvent::PhaseFinished(phase) => event_line(event) matches Some(line)
                && text::occurs(line, phase_name(phase)) && text::ends(line, " finished"@),
            _ => event_line(event) is None,
        },
{
    reveal_strlit("nix-tools: ");
    reveal_strlit("nix-tools: discovered ");
    reveal_strlit("nix-tools: realizing ");
    reveal_strlit("nix-tools: cancelled by signal ");
    let none = Seq::<char>::empty();
    match event {
        ProgressEvent::PhaseStarted(phase) => {
            lemma_row_of_three("nix-tools: "@, phase_name(phase), " started"@);
        },
        ProgressEvent::PhaseFinished(phase) => {
            lemma_row_of_three("nix-tools: "@, phase_name(phase), " finished"@);
        },
        ProgressEvent::GraphDiscovered(nodes) => {
            let count = text::decimal_text(nodes@.len());
            lemma_row_of_three("nix-tools: discovered "@, count, " derivations"@);
            assert("nix-tools: discovered "@.take(11) =~= "nix-tools: "@);
            let line = "nix-tools: discovered "@ + count + " derivations"@;
            assert(line.take(11) =~= "nix-tools: discovered "@.take(11));
        },
        ProgressEvent::NodeStarted { drv_path } => {
            lemma_row_of_three("nix-tools: realizing "@, drv_path@, none);
            let line = "nix-tools: realizing "@ + drv_path@;
            assert(line.take(11) =~= "nix-tools: "@);
            assert(line.skip("nix-tools: realizing "@.len() as int) =~= drv_path@);
        },
        ProgressEvent::NodeFinished { drv_path, state } => {
            let line = "nix-tools: "@ + drv_path@ + " "@ + state_name(state);
            lemma_row_of_three("nix-tools: "@, drv_path@, " "@ + state_name(state));
            assert(line =~= "nix-tools: "@ + drv_path@ + (" "@ + state_name(state)));
            assert(line.skip(line.len() - state_name(state).len()) =~= state_name(state));
        },
        ProgressEvent::Cancelled { signal } => {
            let written = text::signed_text(signal as int);
            let line = "nix-tools: cancelled by signal "@ + written;
            assert(line.take(11) =~= "nix-tools: "@);
            assert(line.skip("nix-tools: cancelled by signal "@.len() as int) =~= written);
        },
        _ => {},
    }
}

proof fn lemma_row_of_three(first: Seq<char>, second: Seq<char>, third: Seq<char>)
    ensures
        text::starts(first + second + third, first),
        text::occurs(first + second + third, second),
        text::ends(first + second + third, third),
{
    text::law_texts_hold_their_parts(first, first, second, third);
    text::law_texts_hold_their_parts(first, first + second, third, Seq::empty());
    text::lemma_starts_itself(first, second + third);
    assert(first + (second + third) =~= first + second + third);
}

/// Different outcomes, phases and states have different names.
pub proof fn law_names_tell_apart(
    outcomes: (ManifestOutcome, ManifestOutcome),
    phases: (Phase, Phase),
    states: (NodeState, NodeState),
)
    ensures
        outcome_name(outcomes.0) == outcome_name(outcomes.1) ==> outcomes.0 == outcomes.1,
        phase_name(phases.0) == phase_name(phases.1) ==> phases.0 == phases.1,
        state_name(states.0) == state_name(states.1) ==> states.0 == states.1,
{
    reveal_strlit("Success");
    reveal_strlit("Failed");
    reveal_strlit("Cancelled");
    reveal_strlit("Discovery");
    reveal_strlit("Evaluation");
    reveal_strlit("Graph");
    reveal_strlit("Probe");
    reveal_strlit("Realization");
    reveal_strlit("Cached");
    reveal_strlit("Substituted");
    reveal_strlit("Built");
    reveal_strlit("Realized");
    reveal_strlit("Skipped");
    assert("Success"@.len() == 7 && "Failed"@.len() == 6 && "Cancelled"@.len() == 9);
    assert("Discovery"@.len() == 9 && "Evaluation"@.len() == 10 && "Realization"@.len() == 11);
    assert("Graph"@[0] == 'G' && "Probe"@[0] == 'P');
    assert("Graph"@.len() == 5 && "Probe"@.len() == 5);
    assert("Cached"@.len() == 6 && "Substituted"@.len() == 11 && "Built"@.len() == 5);
    assert("Realized"@.len() == 8 && "Skipped"@.len() == 7);
    assert("Cached"@[0] == 'C' && "Failed"@[0] == 'F');
}

/// The full-screen interface is shown only where it was asked for, on terminals of a name that can
/// show it.
pub proof fn law_the_screen_is_used_where_it_can_be(
    requested: OutputMode,
    context: DisplayContext<'_>,
    result: OutputMode,
)
    requires
        call_ensures(OutputMode::select, (requested, context), result),
    ensures
        result is Tui <==> requested is Tui && context.interactive_io && match context.term {
            Some(term) => term@ != Seq::<char>::empty() && term@ != "dumb"@,
            None => false,
        },
{
    if let Some(term) = context.term {
        assert(term@ =~= Seq::<char>::empty() <==> term@.len() == 0);
    }
}

/// A tally counts the nodes of each state, and every node once.
pub proof fn law_tallies_count_every_node(nodes: Vec<NodeResult>, result: Tally)
    requires
        call_ensures(tally, (&nodes,), result),
    ensures
        result.cached == nodes@.filter(|node: NodeResult| node.state is Cached).len(),
        result.substituted == nodes@.filter(|node: NodeResult| node.state is Substituted).len(),
        result.built == nodes@.filter(|node: NodeResult| node.state is Built).len(),
        result.realized == nodes@.filter(|node: NodeResult| node.state is Realized).len(),
        result.failed == nodes@.filter(|node: NodeResult| node.state is Failed).len(),
        result.skipped == nodes@.filter(|node: NodeResult| node.state is Skipped).len(),
        result.cancelled == nodes@.filter(|node: NodeResult| node.state is Cancelled).len(),
        result.cached + result.substituted + result.built + result.realized + result.failed
            + result.skipped + result.cancelled == nodes@.len(),
{
    lemma_counted(nodes@, NodeState::Cached, |node: NodeResult| node.state is Cached);
    lemma_counted(nodes@, NodeState::Substituted, |node: NodeResult| node.state is Substituted);
    lemma_counted(nodes@, NodeState::Built, |node: NodeResult| node.state is Built);
    lemma_counted(nodes@, NodeState::Realized, |node: NodeResult| node.state is Realized);
    lemma_counted(nodes@, NodeState::Failed, |node: NodeResult| node.state is Failed);
    lemma_counted(nodes@, NodeState::Skipped, |node: NodeResult| node.state is Skipped);
    lemma_counted(nodes@, NodeState::Cancelled, |node: NodeResult| node.state is Cancelled);
}

proof fn lemma_counted(
    nodes: Seq<NodeResult>,
    state: NodeState,
    wanted: spec_fn(NodeResult) -> bool,
)
    requires
        forall|node: NodeResult| #[trigger] wanted(node) <==> node.state == state,
    ensures
        count_in(nodes, state) == nodes.filter(wanted).len(),
    decreases nodes.len(),
{
    reveal(Seq::filter);
    if nodes.len() > 0 {
        lemma_counted(nodes.drop_last(), state, wanted);
    }
}

/// The summary of an operation begins with its title and its outcome.
pub proof fn law_summaries_begin_with_title_and_outcome(
    title: &str,
    manifest: Manifest,
    result: String,
)
    requires
        call_ensures(completion_summary, (title, &manifest), result),
    ensures
        text::starts(result@, title@ + ": "@ + outcome_name(manifest.outcome)),
        text::ends(
            result@,
            counted(count_in(manifest.nodes@, NodeState::Cancelled), " cancelled"@),
        ),
{
    let parts = summary_parts(manifest);
    let rest = parts.skip(1);
    assert(parts =~= seq![parts[0]] + rest);
    text::law_joining_separates(seq![parts[0]], rest, parts[0], " · "@);
    let line = text::joined(parts, " · "@);
    let front = title@ + ": "@ + parts[0];
    let tail = " · "@ + text::joined(rest, " · "@);
    assert(result@ =~= front + tail);
    text::lemma_starts_itself(front, tail);
    let last = parts.last();
    let before = parts.drop_last();
    assert(parts =~= before + seq![last]);
    text::law_joining_separates(before, seq![last], last, " · "@);
    let head = title@ + ": "@ + (text::joined(before, " · "@) + " · "@);
    assert(result@ =~= head + last);
    text::law_texts_hold_their_parts(head, head, last, Seq::empty());
}

} // verus!
