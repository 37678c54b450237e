//! The activity stream of a realization.

use std::sync::mpsc;

use nix_tools::activity::{strip_prefix, Field, LogLine, RealizationObserver};
use nix_tools::excerpt::BoundedLog;
use nix_tools::graph::DependencyGraph;
use nix_tools::model::{DerivationNode, NodeState, ProgressEvent};
use nix_tools::ordered::{StringMap, StringSet};
use nix_tools::process::Cancellation;
use nix_tools::redaction::Redactor;
use nix_tools::results::{BuildReport, BuiltOutput};
use serde_json::Value;

const DRV: &str = "/nix/store/00000000000000000000000000000000-a.drv";
const OUT: &str = "/nix/store/aaaaaaaaaaaaaaaaaaaaaaaaaaaaaaaa-a";
const OTHER_DRV: &str = "/nix/store/11111111111111111111111111111111-b.drv";
const OTHER_OUT: &str = "/nix/store/bbbbbbbbbbbbbbbbbbbbbbbbbbbbbbbb-b";

fn graph() -> DependencyGraph {
    graph_with(Some(OUT.to_owned()))
}

fn graph_with(path: Option<String>) -> DependencyGraph {
    let mut outputs = StringMap::new();
    outputs.insert("out".to_owned(), path);
    let mut nodes = StringMap::new();
    nodes.insert(
        DRV.to_owned(),
        DerivationNode { drv_path: DRV.to_owned(), dependencies: StringMap::new(), outputs },
    );
    let mut roots = StringSet::new();
    roots.insert(DRV.to_owned());
    DependencyGraph::new(nodes, &roots, 16).expect("graph")
}

fn number(record: &Value, key: &str) -> Option<u64> {
    match record.get(key) {
        None => Some(0),
        Some(value) => value.as_u64(),
    }
}

fn text(record: &Value, key: &str) -> Option<String> {
    match record.get(key) {
        None => Some(String::new()),
        Some(value) => value.as_str().map(str::to_owned),
    }
}

fn report(payload: &Value) -> Option<BuildReport> {
    let outputs = match payload.get("builtOutputs") {
        None => Vec::new(),
        Some(built) => built
            .as_object()?
            .iter()
            .map(|(name, output)| {
                let path = output.get("outPath")?.as_str()?.to_owned();
                Some(BuiltOutput { name: name.clone(), path })
            })
            .collect::<Option<Vec<BuiltOutput>>>()?,
    };
    let path = payload.get("path")?;
    let requested = match path.get("outputs") {
        None => Vec::new(),
        Some(names) => names
            .as_array()?
            .iter()
            .map(|name| name.as_str().map(str::to_owned))
            .collect::<Option<Vec<String>>>()?,
    };
    Some(BuildReport {
        success: payload.get("success")?.as_bool()?,
        status: payload.get("status")?.as_str()?.to_owned(),
        drv_path: path.get("drvPath")?.as_str()?.to_owned(),
        requested,
        outputs,
    })
}

/// Decodes one line of the stream.
fn decode(line: &[u8]) -> Option<LogLine> {
    let record: Value = serde_json::from_slice(strip_prefix(line)?).ok()?;
    record.as_object()?;
    let kind = number(&record, "type")?;
    let values = match record.get("fields") {
        None => Vec::new(),
        Some(fields) => fields.as_array()?.clone(),
    };
    let payload = match record.get("payload") {
        Some(payload) => Some(payload.clone()),
        None => values
            .first()
            .and_then(Value::as_str)
            .filter(|_| kind == 110)
            .and_then(|tunneled| serde_json::from_str(tunneled).ok()),
    };
    let fields = values
        .iter()
        .map(|value| match (value.as_str(), value.as_u64()) {
            (Some(text), _) => Field::Text(text.to_owned()),
            (None, Some(number)) => Field::Number(number),
            (None, None) => Field::Other,
        })
        .collect();
    Some(LogLine {
        action: text(&record, "action")?,
        id: number(&record, "id")?,
        kind,
        parent: number(&record, "parent")?,
        fields,
        msg: text(&record, "msg")?,
        report: payload.as_ref().and_then(report),
    })
}

struct Stream {
    observer: RealizationObserver,
    events: Vec<ProgressEvent>,
}

impl Stream {
    fn with_limit(limit: usize) -> Self {
        Self::with_redactor(limit, Redactor::new())
    }

    fn with_redactor(limit: usize, redactor: Redactor) -> Self {
        Self::over(&graph(), limit, redactor)
    }

    fn over(graph: &DependencyGraph, limit: usize, redactor: Redactor) -> Self {
        Self {
            observer: RealizationObserver::new(graph, vec![DRV.to_owned()], limit, redactor),
            events: Vec::new(),
        }
    }

    fn result(&mut self, payload: &str) {
        self.line(&format!(r#"@nix {{"action":"result","type":110,"payload":{payload}}}"#));
    }

    fn line(&mut self, line: &str) {
        if let Some(parsed) = decode(format!("{line}\n").as_bytes()) {
            self.events.extend(self.observer.line(&parsed));
        }
    }

    fn log(&mut self) -> (String, bool) {
        let (log, truncated) = self.observer.take_log();
        (String::from_utf8(log).expect("UTF-8 log"), truncated)
    }
}

fn observe(lines: &[&str]) -> (Vec<ProgressEvent>, String) {
    let mut stream = Stream::with_limit(4096);
    stream.observer.allow_unknown_results(16, 4096);
    for line in lines {
        stream.line(line);
    }
    let (log, _) = stream.log();
    (stream.events, log)
}

fn started(path: &str) -> ProgressEvent {
    ProgressEvent::NodeStarted { drv_path: path.to_owned() }
}

fn stopped(path: &str) -> ProgressEvent {
    ProgressEvent::NodeActivityStopped { drv_path: path.to_owned() }
}

fn provisional(path: &str, state: NodeState) -> ProgressEvent {
    ProgressEvent::NodeProvisionalFinished { drv_path: path.to_owned(), state }
}

fn finished(path: &str, state: NodeState) -> ProgressEvent {
    ProgressEvent::NodeFinished { drv_path: path.to_owned(), state }
}

fn logged(path: &str, line: &str) -> ProgressEvent {
    ProgressEvent::NodeLogLine { drv_path: path.to_owned(), line: line.to_owned() }
}

/// A report of a built derivation with one output.
fn payload(success: bool, status: &str, drv_path: &str, out: &str) -> String {
    format!(
        r#"{{"success":{success},"status":"{status}","path":{{"drvPath":"{drv_path}"}},"builtOutputs":{{"out":{{"outPath":"{out}"}}}}}}"#
    )
}

#[test]
fn confirmed_results_validate_identity_and_survive_cancelled_delivery() {
    for (status, expected) in [
        ("Built", NodeState::Built),
        ("Substituted", NodeState::Substituted),
        ("AlreadyValid", NodeState::Cached),
        ("ResolvesToAlreadyValid", NodeState::Realized),
    ] {
        let (sender, receiver) = mpsc::sync_channel(1);
        let cancellation = Cancellation::default();
        let mut stream = Stream::with_limit(4096);
        cancellation.request(2);
        stream.result(&payload(true, status, DRV, OUT));
        if cancellation.signal().is_none() {
            for event in stream.events.drain(..) {
                sender.send(event).expect("receiver");
            }
        }
        let confirmed = stream.observer.take_confirmed();
        let result = confirmed.get(DRV).expect("confirmed");
        assert_eq!(result.state, expected);
        assert_eq!(result.outputs.len(), 1);
        assert_eq!(result.outputs.get("out"), Some(&OUT.to_owned()));
        assert!(receiver.try_recv().is_err());
    }
}

#[test]
fn confirmed_results_reject_untrusted_or_conflicting_payloads() {
    let valid = payload(true, "Built", DRV, OUT);
    let mut invalid: Vec<String> =
        [OTHER_OUT, "/tmp/output", "/nix/store/not-a-store-path", "/nix/store/../output"]
            .iter()
            .map(|path| payload(true, "Built", DRV, path))
            .collect();
    invalid.push(format!(
        r#"{{"success":true,"status":"Built","path":{{"drvPath":"{DRV}"}},"builtOutputs":{{"out":{{"outPath":"{OUT}"}},"unknown":{{"outPath":"{OUT}"}}}}}}"#
    ));
    for payload in invalid {
        let mut stream = Stream::with_limit(4096);
        for payload in [&valid, &payload, &valid] {
            stream.result(payload);
        }
        assert!(
            stream.observer.take_confirmed().is_empty(),
            "conflicting identity must stay rejected"
        );
    }
    for payload in [
        payload(true, "Unsupported", DRV, OUT),
        payload(false, "Built", DRV, OUT),
        payload(true, "Built", OTHER_DRV, OUT),
    ] {
        let mut stream = Stream::with_limit(4096);
        stream.result(&payload);
        stream.line(&format!(r#"@nix {{"action":"start","id":1,"type":105,"fields":["{DRV}"]}}"#));
        stream.line(r#"@nix {"action":"stop","id":1}"#);
        assert!(stream.observer.take_confirmed().is_empty());
    }
}

#[test]
fn confirmed_ca_results_allow_identical_repeats_but_reject_changed_paths_or_states() {
    for (path, status, retained) in [
        (OUT, "Built", true),
        (OTHER_OUT, "Built", false),
        (OUT, "AlreadyValid", false),
    ] {
        let mut stream = Stream::over(&graph_with(None), 4096, Redactor::new());
        for (path, status) in [(OUT, "Built"), (path, status), (OUT, "Built")] {
            stream.result(&payload(true, status, DRV, path));
        }
        assert_eq!(!stream.observer.take_confirmed().is_empty(), retained);
    }
}

#[test]
fn confirmed_output_name_limit_excludes_hash_prefix() {
    for (length, retained) in [(211, true), (212, false)] {
        let output =
            format!("/nix/store/aaaaaaaaaaaaaaaaaaaaaaaaaaaaaaaa-{}", "a".repeat(length));
        let mut stream =
            Stream::over(&graph_with(Some(output.clone())), 4096, Redactor::new());
        stream.result(&payload(true, "Built", DRV, &output));
        assert_eq!(!stream.observer.take_confirmed().is_empty(), retained);
    }
}

#[test]
fn unknown_confirmed_results_require_explicit_complete_outputs_and_fit_budgets() {
    for (requested, bytes, retained) in [
        (r#"["out"]"#, 4096, true),
        (r#"["*"]"#, 4096, true),
        ("[]", 4096, false),
        (r#"["out","dev"]"#, 4096, false),
        (r#"["out"]"#, 1, false),
    ] {
        let mut stream = Stream::with_limit(4096);
        stream.observer.allow_unknown_results(1, bytes);
        for drv in [OTHER_DRV, "/nix/store/22222222222222222222222222222222-c.drv"] {
            stream.result(&format!(
                r#"{{"success":true,"status":"Built","path":{{"drvPath":"{drv}","outputs":{requested}}},"builtOutputs":{{"out":{{"outPath":"{OTHER_OUT}"}},"extra":{{"outPath":"{OUT}"}}}}}}"#
            ));
        }
        let confirmed = stream.observer.take_confirmed();
        assert_eq!(confirmed.len(), usize::from(retained));
        assert_eq!(confirmed.contains_key(OTHER_DRV), retained);
    }
}

#[test]
fn stopped_candidates_are_bounded_and_not_confirmed() {
    for (bytes, count) in [(4096, 1), (1, 0)] {
        let mut stream = Stream::with_limit(4096);
        stream.observer.allow_unknown_results(1, bytes);
        for drv in [DRV, OTHER_DRV, DRV] {
            stream.line(&format!(
                r#"@nix {{"action":"start","id":1,"type":105,"fields":["{drv}"]}}"#
            ));
            stream.line(r#"@nix {"action":"stop","id":1}"#);
        }
        assert_eq!(stream.observer.take_stopped().len(), count);
        assert!(stream.observer.take_confirmed().is_empty());
    }
}

#[test]
fn budgets_are_spent_to_the_byte() {
    let size = OTHER_DRV.len() + "out".len() + OTHER_OUT.len();
    for (bytes, retained) in [(size, true), (size - 1, false)] {
        let mut stream = Stream::with_limit(4096);
        stream.observer.allow_unknown_results(1, bytes);
        stream.result(&format!(
            r#"{{"success":true,"status":"Built","path":{{"drvPath":"{OTHER_DRV}","outputs":["out"]}},"builtOutputs":{{"out":{{"outPath":"{OTHER_OUT}"}}}}}}"#
        ));
        assert_eq!(stream.observer.take_confirmed().contains_key(OTHER_DRV), retained);
        assert!(stream.observer.take_confirmed().is_empty());
    }
}

#[test]
fn decoded_logs_normalize_controls_and_redact_registered_secrets() {
    let mut redactor = Redactor::new();
    redactor.register("private-value");
    let mut stream = Stream::with_redactor(4096, redactor);
    stream.line(&format!(r#"@nix {{"action":"start","id":7,"type":105,"fields":["{DRV}"]}}"#));
    stream.line(r#"@nix {"action":"result","id":7,"type":101,"fields":["\u001b[31mprivate-\u001b[0mvalue\u001b]52;c;clipboard\u0007"]}"#);
    assert!(stream.events.contains(&logged(DRV, "[REDACTED]")));
    assert_eq!(stream.log(), ("a> [REDACTED]\n".to_owned(), false));
}

#[test]
fn the_longest_secret_is_replaced_and_other_text_stays() {
    let mut redactor = Redactor::new();
    redactor.register("");
    redactor.register("key");
    redactor.register("key-ring");
    assert_eq!(redactor.clean("a key-ring, a key\tand k\r\n"), "a [REDACTED], a [REDACTED]\tand k\n");
    assert_eq!(redactor.clean("\u{1b}]0;title\nkept \u{1b}]8;;x\u{1b}\\link \u{1b}(B\u{7f}"), "\nkept link B");
    assert_eq!(redactor.clean("plain text"), "plain text");
    assert_eq!(redactor.clean("end\u{1b}"), "end");
}

#[test]
fn shared_context_survives_before_activity_and_stays_out_of_node_excerpts() {
    let mut stream = Stream::with_limit(4096);
    stream.line(r#"@nix {"action":"msg","msg":"early Nix warning"}"#);
    stream.line(&format!(r#"@nix {{"action":"start","id":7,"type":105,"fields":["{DRV}"]}}"#));
    stream.line(r#"@nix {"action":"msg","msg":"global build failure"}"#);
    assert_eq!(stream.observer.take_node_log(DRV), Some((Vec::new(), false)));
    assert_eq!(
        stream.observer.take_context(),
        (b"early Nix warning\nglobal build failure\n".to_vec(), false)
    );
    assert_eq!(stream.observer.take_node_log(OTHER_DRV), None);
}

#[test]
fn live_and_recorded_build_logs_share_the_same_sanitized_text() {
    let mut redactor = Redactor::new();
    redactor.register("RED");
    let mut stream = Stream::with_redactor(4096, redactor);
    stream.line(&format!(r#"@nix {{"action":"start","id":7,"type":105,"fields":["{DRV}"]}}"#));
    stream.line(r#"@nix {"action":"result","id":7,"type":101,"fields":["RED"]}"#);
    let live = stream
        .events
        .iter()
        .find_map(|event| match event {
            ProgressEvent::NodeLogLine { line, .. } => Some(line.clone()),
            _ => None,
        })
        .unwrap();
    let expected = format!("a> {live}\n").into_bytes();
    assert_eq!(stream.observer.take_log(), (expected.clone(), false));
    assert_eq!(stream.observer.take_node_log(DRV), Some((expected, false)));
}

#[test]
fn a_build_activity_starts_its_derivation_exactly_once() {
    let (events, _) = observe(&[
        &format!(
            r#"@nix {{"action":"start","id":7,"level":3,"parent":0,"text":"building","type":105,"fields":["{DRV}","x86_64-linux","",1]}}"#
        ),
        &format!(
            r#"@nix {{"action":"start","id":8,"level":3,"parent":0,"text":"building","type":105,"fields":["{DRV}","x86_64-linux","",1]}}"#
        ),
    ]);

    assert_eq!(events, vec![started(DRV)]);
}

#[test]
fn transitive_dependency_activity_and_logs_are_discovered_from_the_activity_tree() {
    let (events, _) = observe(&[
        &format!(
            r#"@nix {{"action":"start","id":7,"parent":0,"type":105,"fields":["{OTHER_DRV}"]}}"#
        ),
        &format!(
            r#"@nix {{"action":"start","id":8,"parent":7,"type":100,"fields":["{OTHER_OUT}","https://cache.example","local"]}}"#
        ),
        r#"@nix {"action":"result","id":8,"type":105,"fields":[512,2048,1,0]}"#,
        r#"@nix {"action":"result","id":7,"type":101,"fields":["compiling shared crate"]}"#,
        r#"@nix {"action":"stop","id":8}"#,
        r#"@nix {"action":"stop","id":7}"#,
    ]);

    assert_eq!(
        events,
        vec![
            started(OTHER_DRV),
            ProgressEvent::NodeProgress {
                drv_path: OTHER_DRV.to_owned(),
                done: 512,
                expected: 2048,
            },
            logged(OTHER_DRV, "compiling shared crate"),
            stopped(OTHER_DRV),
            provisional(OTHER_DRV, NodeState::Built),
        ]
    );
}

#[test]
fn determinate_build_results_settle_transitive_jobs_definitively() {
    let (events, _) = observe(&[
        &format!(r#"@nix {{"action":"start","id":7,"type":105,"fields":["{OTHER_DRV}"]}}"#),
        r#"@nix {"action":"stop","id":7}"#,
        r#"@nix {"action":"result","id":0,"type":110,"payload":{"builtOutputs":{"out":{"outPath":"bbbbbbbbbbbbbbbbbbbbbbbbbbbbbbbb-b","signatures":[]}},"path":{"drvPath":"11111111111111111111111111111111-b.drv","outputs":["out"]},"startTime":30,"status":"Built","stopTime":50,"success":true,"timesBuilt":1}}"#,
    ]);

    assert_eq!(
        events,
        vec![
            started(OTHER_DRV),
            stopped(OTHER_DRV),
            provisional(OTHER_DRV, NodeState::Built),
            finished(OTHER_DRV, NodeState::Built),
        ]
    );
}

#[test]
fn determinate_build_failures_settle_dependency_failures_as_skipped() {
    let (events, _) = observe(&[
        r#"@nix {"action":"result","id":0,"type":110,"payload":{"errorMsg":"dependency failed","isNonDeterministic":false,"path":{"drvPath":"11111111111111111111111111111111-b.drv","outputs":["out"]},"startTime":30,"status":"DependencyFailed","stopTime":50,"success":false,"timesBuilt":0}}"#,
    ]);

    assert_eq!(events, vec![finished(OTHER_DRV, NodeState::Skipped)]);
}

#[test]
fn determinate_success_dispositions_map_to_exact_node_states() {
    for (status, state) in [
        ("Substituted", NodeState::Substituted),
        ("AlreadyValid", NodeState::Cached),
        ("ResolvesToAlreadyValid", NodeState::Realized),
    ] {
        let line = format!(
            r#"@nix {{"action":"result","id":0,"type":110,"payload":{{"builtOutputs":{{}},"path":{{"drvPath":"00000000000000000000000000000000-a.drv","outputs":["out"]}},"status":"{status}","success":true,"timesBuilt":0}}}}"#
        );
        let (events, _) = observe(&[&line]);
        assert_eq!(events, vec![finished(DRV, state)]);
    }
}

#[test]
fn determinate_ca_outputs_attribute_later_transfer_activity() {
    let (events, _) = observe(&[
        r#"@nix {"action":"result","id":0,"type":110,"payload":{"builtOutputs":{"out":{"outPath":"bbbbbbbbbbbbbbbbbbbbbbbbbbbbbbbb-b","signatures":[]}},"path":{"drvPath":"11111111111111111111111111111111-b.drv","outputs":["out"]},"status":"Built","success":true,"timesBuilt":1}}"#,
        &format!(r#"@nix {{"action":"start","id":8,"type":108,"fields":["{OTHER_OUT}"]}}"#),
    ]);

    assert_eq!(events, vec![finished(OTHER_DRV, NodeState::Built), started(OTHER_DRV)]);
}

#[test]
fn malformed_or_unknown_determinate_results_are_ignored() {
    let (events, _) = observe(&[
        r#"@nix {"action":"result","id":0,"type":110,"payload":{"path":{"drvPath":"11111111111111111111111111111111-b.drv"},"status":"FutureStatus","success":true}}"#,
        r#"@nix {"action":"result","id":0,"type":110,"payload":{"status":"Built","success":true}}"#,
        r#"@nix {"action":"result","id":0,"type":110,"payload":{"builtOutputs":{},"path":{"drvPath":"../11111111111111111111111111111111-b.drv"},"status":"Built","success":true}}"#,
    ]);

    assert!(events.is_empty());
}

#[test]
fn tunneled_determinate_build_result_fields_are_supported() {
    let payload = r#"{"builtOutputs": {}, "path": {"drvPath": "11111111111111111111111111111111-b.drv", "outputs": ["out"]}, "status": "Built", "success": true, "timesBuilt": 1}"#;
    let tunneled = Value::String(payload.to_owned());
    let line =
        format!(r#"@nix {{"action":"result","id":0,"type":110,"fields":[{tunneled}]}}"#);
    let (events, _) = observe(&[&line]);

    assert_eq!(events, vec![finished(OTHER_DRV, NodeState::Built)]);
}

#[test]
fn a_substitution_is_attributed_through_its_output_path() {
    let (events, _) = observe(&[&format!(
        r#"@nix {{"action":"start","id":3,"level":3,"parent":0,"text":"copying","type":100,"fields":["{OUT}","https://cache.example","local"]}}"#
    )]);

    assert_eq!(events, vec![started(DRV)]);
}

#[test]
fn progress_records_report_bytes_for_a_started_activity() {
    let (events, _) = observe(&[
        &format!(
            r#"@nix {{"action":"start","id":3,"type":100,"fields":["{OUT}","https://cache.example","local"]}}"#
        ),
        r#"@nix {"action":"result","id":3,"type":105,"fields":[512,2048,1,0]}"#,
        r#"@nix {"action":"result","id":3,"type":105,"fields":[512,0,1,0]}"#,
        r#"@nix {"action":"stop","id":3}"#,
        r#"@nix {"action":"result","id":3,"type":105,"fields":[1024,2048,1,0]}"#,
    ]);

    assert_eq!(
        events,
        vec![
            started(DRV),
            ProgressEvent::NodeProgress { drv_path: DRV.to_owned(), done: 512, expected: 2048 },
            stopped(DRV),
        ]
    );
}

#[test]
fn unattributable_and_malformed_lines_are_dropped_without_error() {
    let (events, log) = observe(&[
        "warning: ignoring untrusted substituter",
        "@nix not json at all",
        r#"@nix {"action":"start","id":1,"type":101,"fields":["https://cache.example/nar/x"]}"#,
        r#"@nix {"action":"start","id":2,"type":105,"fields":["/nix/store/not-a-derivation"]}"#,
        r#"@nix {"action":"start","id":4,"type":105,"fields":[]}"#,
        r#"@nix {"action":"result","id":9,"type":105,"fields":[1,2,0,0]}"#,
        "",
    ]);

    assert!(events.is_empty());
    assert!(log.is_empty());
}

#[test]
fn messages_and_build_log_lines_rebuild_a_readable_log() {
    let (_, log) = observe(&[
        r#"@nix {"action":"msg","level":0,"msg":"error: builder for a failed"}"#,
        r#"@nix {"action":"result","id":7,"type":101,"fields":["make: *** [all] Error 1"]}"#,
        r#"@nix {"action":"result","id":7,"type":107,"fields":["post-build hook failed"]}"#,
    ]);

    assert_eq!(
        log,
        "error: builder for a failed\nmake: *** [all] Error 1\npost-build hook failed\n"
    );
}

#[test]
fn the_rebuilt_log_stays_within_its_limit() {
    let mut stream = Stream::with_limit(8);
    stream.line(r#"@nix {"action":"msg","level":0,"msg":"0123456789"}"#);
    stream.line(r#"@nix {"action":"msg","level":0,"msg":"more"}"#);

    let (log, truncated) = stream.log();
    assert!(log.len() <= 8);
    assert!(truncated);
    assert!(stream.events.is_empty());
}

#[test]
fn build_log_lines_name_the_derivation_that_printed_them() {
    let (_, log) = observe(&[
        &format!(
            r#"@nix {{"action":"start","id":7,"type":105,"fields":["{DRV}","x86_64-linux","",1]}}"#
        ),
        r#"@nix {"action":"result","id":7,"type":101,"fields":["make: *** [all] Error 1"]}"#,
        r#"@nix {"action":"result","id":9,"type":101,"fields":["unattributed line"]}"#,
        r#"@nix {"action":"msg","level":0,"msg":"error: builder for a failed"}"#,
    ]);

    assert_eq!(
        log,
        "a> make: *** [all] Error 1\nunattributed line\nerror: builder for a failed\n"
    );
}

#[test]
fn the_error_that_ended_a_build_survives_a_log_past_the_limit() {
    let mut stream = Stream::with_limit(512);
    for index in 0..200 {
        stream.line(&format!(r#"@nix {{"action":"msg","level":0,"msg":"chatter {index}"}}"#));
    }
    stream.line(r#"@nix {"action":"msg","level":0,"msg":"error: builder failed"}"#);

    let (log, truncated) = stream.log();
    assert!(truncated);
    assert!(log.len() <= 512, "log stayed bounded: {}", log.len());
    assert!(log.ends_with("error: builder failed\n"), "the terminating error must survive: {log}");
    assert!(log.starts_with("chatter 0\n"), "the opening survives: {log}");
    assert!(
        log.lines().all(|line| !line.is_empty()),
        "head and tail must not join into a partial line: {log}"
    );
}

#[test]
fn copying_a_realized_output_to_a_remote_builder_is_not_this_derivation_running() {
    let (events, _) = observe(&[&format!(
        r#"@nix {{"action":"start","id":4,"type":100,"fields":["{OUT}","local","ssh://builder"]}}"#
    )]);

    assert!(events.is_empty());
}

#[test]
fn a_post_build_line_keeps_its_derivation_after_the_activity_stopped() {
    let (_, log) = observe(&[
        &format!(
            r#"@nix {{"action":"start","id":7,"type":105,"fields":["{DRV}","x86_64-linux","",1]}}"#
        ),
        r#"@nix {"action":"stop","id":7}"#,
        r#"@nix {"action":"result","id":7,"type":107,"fields":["post-build hook failed"]}"#,
    ]);

    assert_eq!(log, "a> post-build hook failed\n");
}

#[test]
fn only_transfers_report_progress_a_caller_can_read_as_bytes() {
    let (events, _) = observe(&[
        &format!(
            r#"@nix {{"action":"start","id":7,"type":105,"fields":["{DRV}","x86_64-linux","",1]}}"#
        ),
        r#"@nix {"action":"result","id":7,"type":105,"fields":[3,8,1,0]}"#,
    ]);

    assert_eq!(events, vec![started(DRV)]);
}

#[test]
fn an_over_long_log_marks_where_it_dropped_lines() {
    let mut stream = Stream::with_limit(256);
    for index in 0..100 {
        stream.line(&format!(r#"@nix {{"action":"msg","level":0,"msg":"chatter {index}"}}"#));
    }

    let (log, truncated) = stream.log();
    assert!(truncated);
    assert!(log.len() <= 256, "excerpt stayed bounded: {}", log.len());
    assert!(
        log.contains("[log truncated]\n"),
        "a reader must see where lines went missing: {log}"
    );
}

#[test]
fn an_unrecognised_copy_destination_is_treated_as_this_machine() {
    let (events, _) = observe(&[&format!(
        r#"@nix {{"action":"start","id":4,"type":100,"fields":["{OUT}","https://cache.example","local-overlay"]}}"#
    )]);

    assert_eq!(
        events,
        vec![started(DRV)],
        "an unknown store URI must cost a spurious start, never a substitution that never reports"
    );
}

#[test]
fn a_line_longer_than_the_excerpt_keeps_its_ending() {
    let mut stream = Stream::with_limit(256);
    let message = format!("{} TERMINAL ERROR", "x".repeat(400));
    stream.line(&format!(r#"@nix {{"action":"msg","level":0,"msg":"{message}"}}"#));

    let (log, truncated) = stream.log();
    assert!(truncated);
    assert!(log.len() <= 256, "excerpt stayed bounded: {}", log.len());
    assert!(
        log.ends_with(" TERMINAL ERROR\n"),
        "one long error line must not be dropped whole: {log}"
    );
}

#[test]
fn a_log_within_the_excerpt_limit_is_preserved_in_full() {
    let mut stream = Stream::with_limit(256);
    let message = format!("error: {}", "x".repeat(180));
    stream.line(&format!(r#"@nix {{"action":"msg","msg":"{message}"}}"#));
    stream.line(r#"@nix {"action":"msg","msg":"last line"}"#);

    let (log, truncated) = stream.log();
    assert_eq!(log, format!("{message}\nlast line\n"));
    assert!(!truncated);
}

#[test]
fn a_tiny_excerpt_retains_text_without_a_truncation_marker() {
    let mut stream = Stream::with_limit(8);
    stream.line(r#"@nix {"action":"msg","msg":"error: failed"}"#);

    let (log, truncated) = stream.log();
    assert_eq!(log, " failed\n");
    assert!(truncated);
}

#[test]
fn overlapping_activities_stop_only_when_the_last_one_stops_and_can_restart() {
    let (events, _) = observe(&[
        &format!(r#"@nix {{"action":"start","id":1,"type":108,"fields":["{OUT}"]}}"#),
        &format!(
            r#"@nix {{"action":"start","id":2,"type":100,"fields":["{OUT}","cache","local"]}}"#
        ),
        r#"@nix {"action":"stop","id":2}"#,
        r#"@nix {"action":"stop","id":2}"#,
        r#"@nix {"action":"stop","id":1}"#,
        &format!(r#"@nix {{"action":"start","id":3,"type":105,"fields":["{DRV}"]}}"#),
        r#"@nix {"action":"stop","id":3}"#,
    ]);
    assert_eq!(
        events,
        vec![
            started(DRV),
            stopped(DRV),
            started(DRV),
            stopped(DRV),
            provisional(DRV, NodeState::Built),
        ]
    );
}

#[test]
fn build_logs_stream_with_attribution_and_stop_is_provisional() {
    let (events, _) = observe(&[
        &format!(r#"@nix {{"action":"start","id":7,"type":105,"fields":["{DRV}"]}}"#),
        r#"@nix {"action":"result","id":7,"type":101,"fields":["hello"]}"#,
        r#"@nix {"action":"stop","id":7}"#,
        r#"@nix {"action":"result","id":7,"type":107,"fields":["after"]}"#,
    ]);
    assert!(events.contains(&logged(DRV, "hello")));
    assert!(events.contains(&logged(DRV, "after")));
    assert!(events.contains(&provisional(DRV, NodeState::Built)));
}

#[test]
fn completed_build_is_provisional_after_overlapping_transfer_stops() {
    let (events, _) = observe(&[
        &format!(r#"@nix {{"action":"start","id":7,"type":105,"fields":["{DRV}"]}}"#),
        &format!(r#"@nix {{"action":"start","id":8,"type":108,"fields":["{OUT}"]}}"#),
        r#"@nix {"action":"stop","id":7}"#,
        r#"@nix {"action":"stop","id":8}"#,
    ]);
    assert!(matches!(
        events.last(),
        Some(ProgressEvent::NodeProvisionalFinished { state: NodeState::Built, .. })
    ));
}

#[test]
fn a_live_log_flood_preserves_the_final_lines_through_a_bounded_queue() {
    let mut stream = Stream::with_limit(4096);
    stream.line(&format!(r#"@nix {{"action":"start","id":7,"type":105,"fields":["{DRV}"]}}"#));
    let text = Value::String(format!(
        "{}final compiler line",
        "compiler output\n".repeat(1_000)
    ));
    stream.line(&format!(r#"@nix {{"action":"result","id":7,"type":101,"fields":[{text}]}}"#));
    let lines: Vec<&String> = stream
        .events
        .iter()
        .filter_map(|event| match event {
            ProgressEvent::NodeLogLine { line, .. } => Some(line),
            _ => None,
        })
        .collect();
    assert_eq!(lines.len(), 1_001);
    assert_eq!(lines[1_000], "final compiler line");
}

#[test]
fn records_stand_behind_the_prefix_and_white_space() {
    assert_eq!(strip_prefix(b" \t@nix {}\n"), Some(b"{}\n".as_slice()));
    assert_eq!(strip_prefix(b"@nix"), None);
    assert_eq!(strip_prefix(b"warning: @nix {}"), None);
    assert_eq!(strip_prefix(b""), None);
}

#[test]
fn excerpts_start_anew_once_taken() {
    let mut log = BoundedLog::new(64);
    log.push(b"first line\n");
    assert_eq!(log.take(), (b"first line\n".to_vec(), false));
    assert_eq!(log.take(), (Vec::new(), false));
    for _ in 0..20 {
        log.push(b"0123456789\n");
    }
    let (text, truncated) = log.take();
    assert!(truncated);
    assert!(text.len() <= 64);
    assert!(text.starts_with(b"0123456789\n"));
    assert!(text.ends_with(b"0123456789\n"));
}

#[test]
fn secrets_are_gone_from_told_and_recorded_text() {
    let mut redactor = Redactor::new();
    redactor.register("hunter2");
    redactor.register("unter");
    redactor.register("x y");
    let mut stream = Stream::with_redactor(4096, redactor);
    stream.line(&format!(r#"@nix {{"action":"start","id":7,"type":105,"fields":["{DRV}"]}}"#));
    stream.line(
        r#"@nix {"action":"result","id":7,"type":101,"fields":["hunhunter2ter2\nhunterx yx y"]}"#,
    );
    stream.line(r#"@nix {"action":"msg","msg":"x\u001b[0m y"}"#);
    assert!(stream.events.contains(&logged(DRV, "hun[REDACTED]ter2")));
    assert!(stream.events.contains(&logged(DRV, "h[REDACTED][REDACTED][REDACTED]")));
    let (log, _) = stream.log();
    assert!(log.ends_with("[REDACTED]\n"));
    for secret in ["hunter2", "unter", "x y"] {
        assert!(!log.contains(secret));
    }
}
