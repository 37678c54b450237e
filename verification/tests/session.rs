//! Display selection, keys and plain progress lines.

use std::sync::Arc;

use nix_tools::model::{
    DerivationNode, Manifest, ManifestMetrics, ManifestOutcome, NodeResult, NodeState, Phase,
    ProgressEvent,
};
use nix_tools::ordered::{StringMap, StringSet};
use nix_tools::process::Cancellation;
use nix_tools::ui::job::JobFilter;
use nix_tools::ui::model::Model;
use nix_tools::ui::session::{
    completion_summary, handle_key, press, stream_line, DisplayContext, Key, KeyCode, OutputMode,
};

fn key(code: KeyCode) -> Key {
    Key { code, control: false }
}

#[test]
fn explicit_tui_requires_an_interactive_terminal() {
    assert_eq!(
        OutputMode::select(
            OutputMode::Tui,
            DisplayContext { interactive_io: true, term: Some("xterm-256color") },
        ),
        OutputMode::Tui
    );

    assert_eq!(
        OutputMode::select(
            OutputMode::Stream,
            DisplayContext { interactive_io: true, term: Some("xterm-256color") },
        ),
        OutputMode::Stream
    );

    for context in [
        DisplayContext { interactive_io: false, term: Some("xterm-256color") },
        DisplayContext { interactive_io: true, term: Some("dumb") },
    ] {
        assert_eq!(OutputMode::select(OutputMode::Tui, context), OutputMode::Stream);
    }
}

#[test]
fn unnamed_terminals_cannot_show_the_full_screen() {
    for term in [None, Some("")] {
        assert_eq!(
            OutputMode::select(OutputMode::Tui, DisplayContext { interactive_io: true, term }),
            OutputMode::Stream
        );
    }
}

#[test]
fn control_c_requests_cancellation() {
    let cancellation = Cancellation::default();
    let mut model = Model::new("check");

    handle_key(&mut model, Key { code: KeyCode::Char('c'), control: true }, &cancellation);
    assert_eq!(cancellation.signal(), Some(2));
}

#[test]
fn slash_edits_a_filter_without_triggering_normal_mode_keys() {
    let cancellation = Cancellation::default();
    let mut model = Model::new("check");

    for code in [KeyCode::Char('/'), KeyCode::Char('j'), KeyCode::Char('o'), KeyCode::Char('b')] {
        handle_key(&mut model, key(code), &cancellation);
    }
    assert_eq!(model.filter_query(), "job");
    assert!(model.filter_input_active());

    handle_key(&mut model, key(KeyCode::Enter), &cancellation);
    assert!(!model.filter_input_active());
}

#[test]
fn normal_mode_cycles_status_filters_and_escape_clears_them() {
    let cancellation = Cancellation::default();
    let mut model = Model::new("check");

    handle_key(&mut model, key(KeyCode::Char('f')), &cancellation);
    assert_eq!(model.job_filter(), JobFilter::Active);
    handle_key(&mut model, key(KeyCode::Char('F')), &cancellation);
    assert_eq!(model.job_filter(), JobFilter::All);

    handle_key(&mut model, key(KeyCode::Esc), &cancellation);
    assert_eq!(model.job_filter(), JobFilter::All);
    assert_eq!(model.filter_query(), "");
}

#[test]
fn a_typed_q_extends_the_query_and_a_pressed_one_cancels() {
    let mut model = Model::fixed("check");
    assert_eq!(press(&mut model, key(KeyCode::Char('/'))), None);
    assert_eq!(press(&mut model, key(KeyCode::Char('q'))), None);
    assert_eq!(model.filter_query(), "q");
    assert_eq!(press(&mut model, key(KeyCode::Backspace)), None);
    assert_eq!(model.filter_query(), "");
    assert_eq!(press(&mut model, key(KeyCode::Esc)), None);
    assert!(!model.filter_input_active());
    assert_eq!(press(&mut model, key(KeyCode::Char('q'))), Some(2));
}

#[test]
fn escape_hides_the_help_before_it_clears_filters() {
    let mut model = Model::fixed("check");
    press(&mut model, key(KeyCode::Char('f')));
    press(&mut model, key(KeyCode::Char('?')));
    assert!(model.help_visible());
    press(&mut model, key(KeyCode::Esc));
    assert!(!model.help_visible());
    assert_eq!(model.job_filter(), JobFilter::Active);
    press(&mut model, key(KeyCode::Esc));
    assert_eq!(model.job_filter(), JobFilter::All);
}

#[test]
fn arrows_and_letters_move_the_selection() {
    let mut model = Model::fixed("check");
    model.apply(ProgressEvent::GraphDiscovered(vec![leaf("a"), leaf("b")]));
    press(&mut model, key(KeyCode::Down));
    assert_eq!(model.selected(), Some(1));
    press(&mut model, key(KeyCode::Char('k')));
    assert_eq!(model.selected(), Some(0));
    press(&mut model, key(KeyCode::Up));
    assert_eq!(model.selected(), Some(1));
    press(&mut model, key(KeyCode::Char('j')));
    assert_eq!(model.selected(), Some(0));
    press(&mut model, key(KeyCode::Other));
    assert_eq!(model.selected(), Some(0));
}

fn leaf(path: &str) -> Arc<DerivationNode> {
    let mut outputs = StringMap::new();
    outputs.insert("out".to_owned(), None);
    Arc::new(DerivationNode {
        drv_path: path.to_owned(),
        dependencies: StringMap::new(),
        outputs,
    })
}

fn result(path: &str, state: NodeState) -> NodeResult {
    NodeResult {
        drv_path: path.to_owned(),
        dependencies: Vec::new(),
        required_outputs: StringSet::new(),
        produced_paths: Vec::new(),
        state,
        dependency_failure: None,
    }
}

#[test]
fn the_summary_counts_every_settled_state() {
    let manifest = Manifest {
        schema: "nix-tools.manifest/v1",
        system: "x86_64-linux".to_owned(),
        roots: Vec::new(),
        graph: Vec::new(),
        availability: Vec::new(),
        nodes: vec![
            result("a", NodeState::Cached),
            result("b", NodeState::Built),
            result("c", NodeState::Realized),
            result("d", NodeState::Substituted),
            result("e", NodeState::Failed),
            result("f", NodeState::Skipped),
            result("g", NodeState::Cancelled),
            result("h", NodeState::Cancelled),
        ],
        diagnostics: Vec::new(),
        metrics: ManifestMetrics::default(),
        outcome: ManifestOutcome::Failed,
    };
    assert_eq!(
        completion_summary("nt check", &manifest),
        "nt check: Failed · 8 jobs · 1 cached · 1 downloaded · 2 built · 1 failed · 1 skipped · 2 cancelled"
    );
}

#[test]
fn progress_events_become_plain_lines() {
    let cases = [
        (ProgressEvent::PhaseStarted(Phase::Probe), Some("nix-tools: Probe started")),
        (
            ProgressEvent::PhaseFinished(Phase::Realization),
            Some("nix-tools: Realization finished"),
        ),
        (
            ProgressEvent::GraphDiscovered(vec![leaf("a"), leaf("b")]),
            Some("nix-tools: discovered 2 derivations"),
        ),
        (
            ProgressEvent::NodeStarted { drv_path: "a.drv".to_owned() },
            Some("nix-tools: realizing a.drv"),
        ),
        (
            ProgressEvent::NodeFinished { drv_path: "a.drv".to_owned(), state: NodeState::Built },
            Some("nix-tools: a.drv Built"),
        ),
        (
            ProgressEvent::Cancelled { signal: -15 },
            Some("nix-tools: cancelled by signal -15"),
        ),
        (ProgressEvent::GraphIncomplete, None),
    ];
    for (event, line) in cases {
        assert_eq!(stream_line(&event).as_deref(), line);
    }
}
