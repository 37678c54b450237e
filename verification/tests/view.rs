//! What the full-screen interface shows.

use std::sync::Arc;

use nix_tools::model::{DerivationNode, ManifestOutcome, NodeState, Phase, ProgressEvent};
use nix_tools::ordered::{StringMap, StringSet};
use nix_tools::ui::job::JobStatus;
use nix_tools::ui::model::Model;
use nix_tools::ui::view::{
    detail, footer, help_area, job_rows, labels, log_window, minutes, or_none, outcome_label,
    percent, rail_entry, settled_counter, shown_log, side_by_side, spinner_frame, status_name,
    status_style, status_symbol, Area, Tone,
};

fn node(path: &str, dependencies: &[&str]) -> Arc<DerivationNode> {
    let mut selections = StringMap::new();
    for dependency in dependencies {
        let mut outputs = StringSet::new();
        outputs.insert("out".to_owned());
        selections.insert((*dependency).to_owned(), outputs);
    }
    let mut outputs = StringMap::new();
    outputs.insert("out".to_owned(), None);
    Arc::new(DerivationNode { drv_path: path.to_owned(), dependencies: selections, outputs })
}

const CORE: &str = "/nix/store/aaaaaaaaaaaaaaaaaaaaaaaaaaaaaaaa-core.drv";
const CLI: &str = "/nix/store/bbbbbbbbbbbbbbbbbbbbbbbbbbbbbbbb-cli.drv";

#[test]
fn full_frame_exposes_phases_jobs_and_dependencies() {
    let mut model = Model::fixed("nt check");
    model.apply(ProgressEvent::PhaseStarted(Phase::Realization));
    model.apply(ProgressEvent::GraphDiscovered(vec![node(CORE, &[]), node(CLI, &[CORE])]));
    model.select_next();

    assert!(side_by_side(80, 12));
    assert_eq!(model.title, "nt check");
    assert_eq!(model.title(), "nt check");
    assert_eq!(rail_entry(&model, Phase::Discovery), ("○ DISCOVER".to_owned(), Tone::Dim));
    assert_eq!(rail_entry(&model, Phase::Realization), ("◆ REALIZE".to_owned(), Tone::Active));
    let rows = job_rows(&model, spinner_frame(0), model.now());
    assert_eq!(rows[0].label, "core");
    assert_eq!(rows[1].label, "cli");
    assert_eq!(rows[1].needs, "core");
    let selected = model.selected().unwrap();
    assert!(detail(model.jobs(), selected, "—", "", "").contains("depends on: core"));
    assert!(footer(&model, 80).contains("↑/↓ select"));
    assert_eq!(footer(&model, 64), " ↑/↓ select  j/k navigate  ? help  q/Ctrl-C cancel");
}

#[test]
fn narrow_frame_keeps_the_job_map_and_controls_visible() {
    let mut model = Model::fixed("nt build");
    model.apply(ProgressEvent::GraphDiscovered(vec![node(CORE, &[])]));

    assert!(!side_by_side(48, 12));
    assert_eq!(job_rows(&model, spinner_frame(0), model.now())[0].label, "core");
    assert!(footer(&model, 48).contains("q cancel"));
}

#[test]
fn filtered_frame_shows_only_matches_and_exposes_filter_controls() {
    let mut model = Model::fixed("nt check");
    model.apply(ProgressEvent::GraphDiscovered(vec![
        node("/nix/store/aaaaaaaaaaaaaaaaaaaaaaaaaaaaaaaa-api-test.drv", &[]),
        node("/nix/store/bbbbbbbbbbbbbbbbbbbbbbbbbbbbbbbb-web-test.drv", &[]),
        node("/nix/store/cccccccccccccccccccccccccccccccc-api-lint.drv", &[]),
    ]));
    model.start_filter_input();
    for character in "api".chars() {
        model.push_filter_character(character);
    }
    model.select_last();
    model.apply(ProgressEvent::NodeLogLine {
        drv_path: "/nix/store/cccccccccccccccccccccccccccccccc-api-lint.drv".to_owned(),
        line: "selected filtered log".to_owned(),
    });

    let shown: Vec<String> = job_rows(&model, spinner_frame(0), model.now())
        .into_iter()
        .map(|row| row.label)
        .collect();
    assert_eq!(shown, ["api-test", "api-lint"]);
    let selected = model.selected().unwrap();
    assert_eq!(shown_log(&model.jobs()[selected], 5), ["selected filtered log"]);
    assert!(footer(&model, 80).contains("/api"));
    assert!(footer(&model, 80).contains("Esc clear"));
}

#[test]
fn stopped_activity_waits_without_a_spinner_or_a_success_status() {
    let mut model = Model::fixed("build");
    model.apply(ProgressEvent::GraphDiscovered(vec![node(CORE, &[])]));
    model.apply(ProgressEvent::NodeStarted { drv_path: CORE.to_owned() });
    model.advance(1_000_000_000);
    model.apply(ProgressEvent::NodeActivityStopped { drv_path: CORE.to_owned() });
    model.advance(600_000_000_000);

    let rows = job_rows(&model, spinner_frame(model.elapsed()), model.now());
    assert_eq!(rows[0].symbol, "◌");
    assert_eq!(rows[0].elapsed, Some(1_000_000_000));
    assert_eq!(settled_counter(&model), "0/1");
    let text = detail(model.jobs(), 0, "1.0s", "", "");
    assert!(text.contains("awaiting result"));
    assert!(text.contains("elapsed: 1.0s"));
}

#[test]
fn live_progress_shows_a_settled_counter_timings_and_reverse_dependencies() {
    let mut model = Model::fixed("nt build");
    model.apply(ProgressEvent::GraphDiscovered(vec![node(CORE, &[]), node(CLI, &[CORE])]));
    model.apply(ProgressEvent::NodeStarted { drv_path: CORE.to_owned() });
    model.apply(ProgressEvent::NodeProgress {
        drv_path: CORE.to_owned(),
        done: 1_048_576,
        expected: 2_097_152,
    });
    model.advance(1_500_000_000);

    assert_eq!(settled_counter(&model), "0/2");
    let rows = job_rows(&model, spinner_frame(model.elapsed()), model.now());
    assert_eq!(rows[0].elapsed, Some(1_500_000_000));
    let text = detail(model.jobs(), 0, "1.5s", "1.0", "2.0");
    assert!(text.contains("required by: cli"));
    assert!(text.contains("transferred: 1.0/2.0 MiB 50%"));
}

#[test]
fn a_transfer_past_its_own_estimate_still_renders_a_whole_share() {
    let mut model = Model::fixed("nt build");
    model.apply(ProgressEvent::GraphDiscovered(vec![node(CORE, &[])]));
    model.apply(ProgressEvent::NodeProgress {
        drv_path: CORE.to_owned(),
        done: 3_145_728,
        expected: 2_097_152,
    });

    let text = detail(model.jobs(), 0, "—", "3.0", "2.0");
    assert!(text.contains("transferred: 3.0/2.0 MiB") && text.contains("100%"));
}

#[test]
fn selected_log_panel_follows_tail_and_scrolls_back() {
    let mut model = Model::fixed("build");
    model.apply(ProgressEvent::GraphDiscovered(vec![node("a", &[])]));
    for index in 0..20 {
        model.apply(ProgressEvent::NodeLogLine {
            drv_path: "a".to_owned(),
            line: format!("log-{index:02}"),
        });
    }
    let followed = shown_log(&model.jobs()[0], 8);
    assert!(followed.contains(&"log-19".to_owned()));
    assert!(!followed.contains(&"log-00".to_owned()));
    model.scroll_logs(10);
    let scrolled = shown_log(&model.jobs()[0], 8);
    assert!(scrolled.contains(&"log-09".to_owned()));
    assert!(!scrolled.contains(&"log-19".to_owned()));
}

#[test]
fn awaiting_result_uses_a_different_color_from_queued() {
    assert_ne!(status_style(JobStatus::Queued), status_style(JobStatus::AwaitingResult));
}

#[test]
fn narrow_terminal_keeps_selected_live_logs_visible() {
    let mut model = Model::fixed("build");
    model.apply(ProgressEvent::GraphDiscovered(vec![node("a", &[])]));
    model.apply(ProgressEvent::NodeLogLine {
        drv_path: "a".to_owned(),
        line: "live compiler output".to_owned(),
    });
    assert_eq!(shown_log(&model.jobs()[0], 4), ["live compiler output"]);
}

#[test]
fn repeated_log_batches_render_without_losing_the_live_tail() {
    let mut model = Model::fixed("build");
    model.apply(ProgressEvent::GraphDiscovered(vec![node("a", &[])]));
    for batch in 0..40 {
        for offset in 0..256 {
            model.apply(ProgressEvent::NodeLogLine {
                drv_path: "a".to_owned(),
                line: format!("compiler line {}", batch * 256 + offset),
            });
        }
        assert!(model.jobs()[0].logs.len() <= 1_000);
        assert!(shown_log(&model.jobs()[0], 8)
            .contains(&format!("compiler line {}", batch * 256 + 255)));
    }
}

#[test]
fn every_status_has_its_symbol_and_its_words() {
    let cases = [
        (JobStatus::Queued, "○", "queued", Tone::Dim),
        (JobStatus::Running, "⠋", "running", Tone::Active),
        (JobStatus::AwaitingResult, "◌", "awaiting result", Tone::Pending),
        (JobStatus::Provisional(NodeState::Built), "◌", "awaiting result", Tone::Pending),
        (JobStatus::Settled(NodeState::Cached), "●", "cached", Tone::Good),
        (JobStatus::Settled(NodeState::Substituted), "↓", "substituted", Tone::Transferred),
        (JobStatus::Settled(NodeState::Built), "✓", "built", Tone::Good),
        (JobStatus::Settled(NodeState::Realized), "✓", "realized", Tone::Good),
        (JobStatus::Settled(NodeState::Failed), "✕", "failed", Tone::Bad),
        (JobStatus::Settled(NodeState::Skipped), "—", "skipped", Tone::Stopped),
        (JobStatus::Settled(NodeState::Cancelled), "!", "cancelled", Tone::Stopped),
    ];
    for (status, symbol, words, tone) in cases {
        assert_eq!(status_symbol(status, "⠋"), symbol);
        assert_eq!(status_name(status), words);
        assert_eq!(status_style(status), tone);
    }
}

#[test]
fn outcomes_have_labels() {
    assert_eq!(outcome_label(None), ("RUNNING", Tone::Active));
    assert_eq!(outcome_label(Some(ManifestOutcome::Success)), ("SUCCESS", Tone::Good));
    assert_eq!(outcome_label(Some(ManifestOutcome::Failed)), ("FAILED", Tone::Bad));
    assert_eq!(outcome_label(Some(ManifestOutcome::Cancelled)), ("CANCELLED", Tone::Stopped));
}

#[test]
fn the_spinner_turns_every_120_milliseconds() {
    assert_eq!(spinner_frame(0), "⠋");
    assert_eq!(spinner_frame(119_999_999), "⠋");
    assert_eq!(spinner_frame(120_000_000), "⠙");
    assert_eq!(spinner_frame(7 * 120_000_000), "⠧");
    assert_eq!(spinner_frame(8 * 120_000_000), "⠋");
}

#[test]
fn long_times_are_minutes_and_seconds() {
    assert_eq!(minutes(59), None);
    assert_eq!(minutes(60), Some("1m00s".to_owned()));
    assert_eq!(minutes(605), Some("10m05s".to_owned()));
    assert_eq!(minutes(3_659), Some("60m59s".to_owned()));
}

#[test]
fn shares_are_whole_percents() {
    assert_eq!(percent(512, 2048), 25);
    assert_eq!(percent(1, 3), 33);
    assert_eq!(percent(5, 0), 0);
    assert_eq!(percent(3, 2), 100);
}

#[test]
fn labels_leave_unknown_positions_out() {
    let mut model = Model::fixed("build");
    model.apply(ProgressEvent::GraphDiscovered(vec![node("a", &[]), node("b", &[])]));
    assert_eq!(labels(model.jobs(), &vec![1, 7, 0]), "b, a");
    assert_eq!(or_none(&labels(model.jobs(), &Vec::new())), "none");
    assert_eq!(or_none("a"), "a");
}

#[test]
fn the_help_stands_in_the_middle_of_the_screen() {
    assert_eq!(
        help_area(Area { x: 0, y: 0, width: 100, height: 30 }),
        Area { x: 21, y: 9, width: 58, height: 12 }
    );
    assert_eq!(
        help_area(Area { x: 2, y: 3, width: 20, height: 10 }),
        Area { x: 6, y: 5, width: 12, height: 6 }
    );
    assert_eq!(
        help_area(Area { x: 0, y: 0, width: 5, height: 3 }),
        Area { x: 2, y: 1, width: 0, height: 0 }
    );
}

#[test]
fn log_windows_end_where_the_scroll_says() {
    assert_eq!(log_window(20, 0, 8), (12, 20));
    assert_eq!(log_window(20, 10, 8), (2, 10));
    assert_eq!(log_window(3, 0, 8), (0, 3));
    assert_eq!(log_window(3, 9, 8), (0, 0));
}

#[test]
fn details_say_everything_of_a_job() {
    let mut model = Model::fixed("build");
    model.apply(ProgressEvent::GraphDiscovered(vec![node(CORE, &[]), node(CLI, &[CORE])]));
    assert_eq!(
        detail(model.jobs(), 1, "—", "", ""),
        format!("cli\n\nstatus: queued\nelapsed: —\ndepends on: core\nrequired by: none\n\n{CLI}")
    );
}
