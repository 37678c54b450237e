//! Incremental reader for the `nix build --log-format internal-json` activity stream.

use std::collections::{BTreeMap, BTreeSet};
use std::sync::Arc;

use vstd::prelude::*;

use crate::excerpt::LogModel;
use crate::graph::DependencyGraph;
use crate::model::{DerivationNode, NodeModel, NodeState, ProgressEvent};
use crate::ordered::{StringMap, StringSet};
use crate::redaction;
use crate::redaction::Redactor;
use crate::results;
use crate::results::{
    report_state, BuildReport, BuildResults, BuiltOutput, Budget, ConfirmedResult, ResultsModel,
};
use crate::store;
use crate::text;
use crate::transcript::{Transcript, TranscriptModel};

verus! {

/// An activity that copies a store path.
pub const ACTIVITY_COPY_PATH: u64 = 100;

/// An activity that builds a derivation.
pub const ACTIVITY_BUILD: u64 = 105;

/// An activity that substitutes a store path.
pub const ACTIVITY_SUBSTITUTE: u64 = 108;

/// A result that carries a line of a build log.
pub const RESULT_BUILD_LOG_LINE: u64 = 101;

/// A result that carries progress.
pub const RESULT_PROGRESS: u64 = 105;

/// A result that carries a line of a post-build log.
pub const RESULT_POST_BUILD_LOG_LINE: u64 = 107;

/// A result that carries how a build ended.
pub const RESULT_BUILD_REPORT: u64 = 110;

/// A byte of ASCII white space.
pub open spec fn is_space(byte: u8) -> bool {
    byte == 32 || byte == 9 || byte == 10 || byte == 12 || byte == 13
}

/// The line without the white space in front.
pub open spec fn unindented(line: Seq<u8>) -> Seq<u8>
    decreases line.len(),
{
    if line.len() > 0 && is_space(line[0]) {
        unindented(line.drop_first())
    } else {
        line
    }
}

/// What stands behind the `@nix ` in front of an activity record.
pub open spec fn record_of(line: Seq<u8>) -> Option<Seq<u8>> {
    let start = unindented(line);
    if start.len() >= 5 && start.take(5) == seq![64u8, 110u8, 105u8, 120u8, 32u8] {
        Some(start.skip(5))
    } else {
        None
    }
}

/// Returns what stands behind the `@nix ` in front of an activity record.
pub fn strip_prefix(line: &[u8]) -> (result: Option<&[u8]>)
    ensures
        match (result, record_of(line@)) {
            (Some(record), Some(expected)) => record@ == expected,
            (None, None) => true,
            _ => false,
        },
{
    let size = line.len();
    let mut i: usize = 0;
    assert(line@.skip(0) =~= line@);
    while i < size && (line[i] == 32 || line[i] == 9 || line[i] == 10 || line[i] == 12 || line[i]
        == 13)
        invariant
            size == line@.len(),
            i <= size,
            unindented(line@.skip(i as int)) == unindented(line@),
        decreases size - i,
    {
        assert(line@.skip(i as int).drop_first() =~= line@.skip(i + 1));
        i = i + 1;
    }
    let ghost start = line@.skip(i as int);
    assert(start == unindented(line@));
    if size - i < 5 {
        return None;
    }
    if line[i] == 64 && line[i + 1] == 110 && line[i + 2] == 105 && line[i + 3] == 120 && line[i
        + 4] == 32 {
        assert(start.take(5) =~= seq![64u8, 110u8, 105u8, 120u8, 32u8]);
        assert(start.skip(5) =~= line@.subrange(i + 5, size as int));
        Some(vstd::slice::slice_subrange(line, i + 5, size))
    } else {
        proof {
            let head = start.take(5);
            let prefix = seq![64u8, 110u8, 105u8, 120u8, 32u8];
            assert(head[0] == line@[i as int]);
            assert(head[1] == line@[i + 1]);
            assert(head[2] == line@[i + 2]);
            assert(head[3] == line@[i + 3]);
            assert(head[4] == line@[i + 4]);
            assert(head != prefix) by {
                if head == prefix {
                    assert(head[0] == prefix[0]);
                    assert(head[1] == prefix[1]);
                    assert(head[2] == prefix[2]);
                    assert(head[3] == prefix[3]);
                    assert(head[4] == prefix[4]);
                }
            }
        }
        None
    }
}

/// One field of an activity record.
#[derive(Debug, PartialEq, Eq)]
pub enum Field {
    /// A string.
    Text(String),
    /// An unsigned number.
    Number(u64),
    /// Anything else.
    Other,
}

/// One decoded activity record. Fields absent from a given action stay at their defaults because
/// the stream is a diagnostic channel rather than a stable contract.
#[derive(Debug, PartialEq, Eq)]
pub struct LogLine {
    /// What the record says: `start`, `stop`, `result` or `msg`.
    pub action: String,
    /// The activity it speaks of.
    pub id: u64,
    /// The kind of activity, or of result.
    pub kind: u64,
    /// The activity that caused a started one.
    pub parent: u64,
    /// Details that depend on the kind.
    pub fields: Vec<Field>,
    /// Text of a message.
    pub msg: String,
    /// How a build ended, where the record says it.
    pub report: Option<BuildReport>,
}

impl LogLine {
    /// The string at a position of the fields.
    pub open spec fn text_at(&self, index: int) -> Option<Seq<char>> {
        if 0 <= index < self.fields@.len() {
            match self.fields@[index] {
                Field::Text(text) => Some(text@),
                _ => None,
            }
        } else {
            None
        }
    }

    /// The number at a position of the fields.
    pub open spec fn number_at(&self, index: int) -> Option<u64> {
        if 0 <= index < self.fields@.len() {
            match self.fields@[index] {
                Field::Number(number) => Some(number),
                _ => None,
            }
        } else {
            None
        }
    }

    fn field_str(&self, index: usize) -> (result: Option<&str>)
        ensures
            match (result, self.text_at(index as int)) {
                (Some(text), Some(expected)) => text@ == expected,
                (None, None) => true,
                _ => false,
            },
    {
        if index < self.fields.len() {
            match &self.fields[index] {
                Field::Text(text) => Some(text.as_str()),
                _ => None,
            }
        } else {
            None
        }
    }

    fn field_u64(&self, index: usize) -> (result: Option<u64>)
        ensures
            result == self.number_at(index as int),
    {
        if index < self.fields.len() {
            match &self.fields[index] {
                Field::Number(number) => Some(*number),
                _ => None,
            }
        } else {
            None
        }
    }
}

/// One activity that was attributed to a derivation.
pub struct ActivityModel {
    /// The derivation.
    pub drv_path: Seq<char>,
    /// Whether the activity moves bytes, which is the only progress that can be read as such.
    pub transfer: bool,
    /// Whether the activity has not stopped.
    pub running: bool,
}

/// Everything an observer knows.
#[verifier::ext_equal]
pub struct ObserverModel {
    /// The derivations that the caller asked for.
    pub derivations: Set<Seq<char>>,
    /// The derivation that each known output path belongs to.
    pub outputs: Map<Seq<char>, Seq<char>>,
    /// The attributed activities; one that stopped stays, for log lines that come late.
    pub activities: Map<u64, ActivityModel>,
    /// The derivations of which a build activity stopped.
    pub built: Set<Seq<char>>,
    /// What is known of builds.
    pub results: ResultsModel,
    /// The plain-text logs.
    pub transcript: TranscriptModel,
    /// What is replaced in what is logged.
    pub secrets: Seq<Seq<char>>,
}

/// What an observer tells its caller.
pub enum Notice {
    /// Activity for a derivation began.
    Started { drv_path: Seq<char> },
    /// The last running activity for a derivation stopped.
    Stopped { drv_path: Seq<char> },
    /// A derivation seems to have settled.
    Provisional { drv_path: Seq<char>, state: NodeState },
    /// A derivation wrote a log line.
    Line { drv_path: Seq<char>, line: Seq<char> },
    /// A derivation's outputs are being transferred.
    Progress { drv_path: Seq<char>, done: u64, expected: u64 },
    /// A derivation settled.
    Finished { drv_path: Seq<char>, state: NodeState },
    /// Anything else.
    Other,
}

/// The notice that an event gives.
pub open spec fn notice_of(event: ProgressEvent) -> Notice {
    match event {
        ProgressEvent::NodeStarted { drv_path } => Notice::Started { drv_path: drv_path@ },
        ProgressEvent::NodeActivityStopped { drv_path } => Notice::Stopped {
            drv_path: drv_path@,
        },
        ProgressEvent::NodeProvisionalFinished { drv_path, state } => Notice::Provisional {
            drv_path: drv_path@,
            state,
        },
        ProgressEvent::NodeLogLine { drv_path, line } => Notice::Line {
            drv_path: drv_path@,
            line: line@,
        },
        ProgressEvent::NodeProgress { drv_path, done, expected } => Notice::Progress {
            drv_path: drv_path@,
            done,
            expected,
        },
        ProgressEvent::NodeFinished { drv_path, state } => Notice::Finished {
            drv_path: drv_path@,
            state,
        },
        _ => Notice::Other,
    }
}

/// The notices that events give.
pub open spec fn notices(events: Seq<ProgressEvent>) -> Seq<Notice> {
    Seq::new(events.len(), |i: int| notice_of(events[i]))
}

/// A store on another machine. An unknown scheme counts as this machine: that costs a spurious
/// start at worst, never a substitution that does not report itself.
pub open spec fn is_remote(uri: Seq<char>) -> bool {
    ||| text::starts(uri, "ssh://"@)
    ||| text::starts(uri, "ssh-ng://"@)
    ||| text::starts(uri, "s3://"@)
    ||| text::starts(uri, "http://"@)
    ||| text::starts(uri, "https://"@)
    ||| text::starts(uri, "gs://"@)
    ||| text::starts(uri, "file://"@)
}

/// Reports whether a copy destination is another machine's store.
pub fn is_remote_store(uri: &str) -> (result: bool)
    ensures
        result == is_remote(uri@),
{
    text::starts_with(uri, "ssh://") || text::starts_with(uri, "ssh-ng://") || text::starts_with(
        uri,
        "s3://",
    ) || text::starts_with(uri, "http://") || text::starts_with(uri, "https://")
        || text::starts_with(uri, "gs://") || text::starts_with(uri, "file://")
}

/// The output map with the outputs of a report.
pub open spec fn with_outputs(
    outputs: Map<Seq<char>, Seq<char>>,
    built: Seq<BuiltOutput>,
    drv_path: Seq<char>,
) -> Map<Seq<char>, Seq<char>>
    decreases built.len(),
{
    if built.len() == 0 {
        outputs
    } else {
        with_outputs(outputs, built.drop_last(), drv_path).insert(
            store::output_path(built.last().path@),
            drv_path,
        )
    }
}

impl ObserverModel {
    /// A derivation that activities can be attributed to.
    pub open spec fn known(self, drv_path: Seq<char>) -> bool {
        self.derivations.contains(drv_path) || store::is_store_derivation(drv_path)
    }

    /// An activity of the derivation is running.
    pub open spec fn is_running(self, drv_path: Seq<char>) -> bool {
        exists|id: u64| #[trigger]
            self.activities.dom().contains(id) && self.activities[id].drv_path == drv_path
                && self.activities[id].running
    }

    /// The derivation that a started activity belongs to: the one it builds, the one whose output
    /// it moves, or the one of the activity that caused it. Sending an output to another machine
    /// belongs to none.
    pub open spec fn attributed(self, line: LogLine) -> Option<Seq<char>> {
        match line.text_at(0) {
            None => None,
            Some(subject) => if line.kind == ACTIVITY_BUILD {
                if self.known(subject) {
                    Some(subject)
                } else {
                    None
                }
            } else if line.kind == ACTIVITY_COPY_PATH && (line.text_at(2) matches Some(uri)
                && is_remote(uri)) {
                None
            } else if line.kind == ACTIVITY_COPY_PATH || line.kind == ACTIVITY_SUBSTITUTE {
                if self.outputs.dom().contains(subject) {
                    Some(self.outputs[subject])
                } else if self.activities.dom().contains(line.parent) {
                    Some(self.activities[line.parent].drv_path)
                } else {
                    None
                }
            } else {
                None
            },
        }
    }

    /// An activity started.
    pub open spec fn start(self, line: LogLine) -> (ObserverModel, Seq<Notice>) {
        match self.attributed(line) {
            None => (self, Seq::empty()),
            Some(drv_path) => {
                let activity = ActivityModel {
                    drv_path,
                    transfer: line.kind != ACTIVITY_BUILD,
                    running: true,
                };
                (
                    ObserverModel {
                        activities: self.activities.insert(line.id, activity),
                        transcript: self.transcript.opened(drv_path),
                        ..self
                    },
                    if self.is_running(drv_path) {
                        Seq::empty()
                    } else {
                        seq![Notice::Started { drv_path }]
                    },
                )
            },
        }
    }

    /// An activity stopped.
    pub open spec fn stop(self, id: u64) -> (ObserverModel, Seq<Notice>) {
        if self.activities.dom().contains(id) && self.activities[id].running {
            let activity = self.activities[id];
            let drv_path = activity.drv_path;
            let after = ObserverModel {
                activities: self.activities.insert(
                    id,
                    ActivityModel { running: false, ..activity },
                ),
                built: if activity.transfer {
                    self.built
                } else {
                    self.built.insert(drv_path)
                },
                results: if activity.transfer {
                    self.results
                } else {
                    self.results.stop(drv_path)
                },
                ..self
            };
            (
                after,
                if after.is_running(drv_path) {
                    Seq::empty()
                } else if after.built.contains(drv_path) {
                    seq![
                        Notice::Stopped { drv_path },
                        Notice::Provisional { drv_path, state: NodeState::Built },
                    ]
                } else {
                    seq![Notice::Stopped { drv_path }]
                },
            )
        } else {
            (self, Seq::empty())
        }
    }

    /// The observer with one more log text.
    pub open spec fn recorded(self, source: Option<Seq<char>>, line: Seq<char>) -> ObserverModel {
        ObserverModel { transcript: self.transcript.recorded(source, line), ..self }
    }

    /// A build wrote to its log. What is told and what is recorded is the same readable text.
    pub open spec fn log_text(self, id: u64, written: Seq<char>) -> (ObserverModel, Seq<Notice>) {
        let line = redaction::clean(self.secrets, written);
        if self.activities.dom().contains(id) {
            let drv_path = self.activities[id].drv_path;
            let lines = text::lines_from(line, 0);
            (
                self.recorded(Some(drv_path), line),
                Seq::new(lines.len(), |i: int| Notice::Line { drv_path, line: lines[i] }),
            )
        } else {
            (self.recorded(None, line), Seq::empty())
        }
    }

    /// An activity reported progress.
    pub open spec fn progress(self, line: LogLine) -> Seq<Notice> {
        if self.activities.dom().contains(line.id) && self.activities[line.id].running
            && self.activities[line.id].transfer {
            match (line.number_at(0), line.number_at(1)) {
                (Some(done), Some(expected)) => if expected > 0 {
                    seq![
                        Notice::Progress {
                            drv_path: self.activities[line.id].drv_path,
                            done,
                            expected,
                        },
                    ]
                } else {
                    Seq::empty()
                },
                _ => Seq::empty(),
            }
        } else {
            Seq::empty()
        }
    }

    /// Nix reported how a build ended.
    pub open spec fn settle(self, report: BuildReport) -> (ObserverModel, Seq<Notice>) {
        let drv_path = store::derivation_path(report.drv_path@);
        let judged = ObserverModel { results: self.results.reported(report), ..self };
        match results::reported_state(report) {
            Some(state) => if self.known(drv_path) {
                (
                    ObserverModel {
                        outputs: with_outputs(self.outputs, report.outputs@, drv_path),
                        ..judged
                    },
                    seq![Notice::Finished { drv_path, state }],
                )
            } else {
                (judged, Seq::empty())
            },
            None => (judged, Seq::empty()),
        }
    }

    /// What one record makes of an observer, and what the observer tells.
    pub open spec fn step(self, line: LogLine) -> (ObserverModel, Seq<Notice>) {
        if line.action@ == "start"@ {
            self.start(line)
        } else if line.action@ == "stop"@ {
            self.stop(line.id)
        } else if line.action@ == "result"@ {
            if line.kind == RESULT_BUILD_LOG_LINE || line.kind == RESULT_POST_BUILD_LOG_LINE {
                match line.text_at(0) {
                    Some(text) => self.log_text(line.id, text),
                    None => (self, Seq::empty()),
                }
            } else if line.kind == RESULT_PROGRESS {
                (self, self.progress(line))
            } else if line.kind == RESULT_BUILD_REPORT {
                match line.report {
                    Some(report) => self.settle(report),
                    None => (self, Seq::empty()),
                }
            } else {
                (self, Seq::empty())
            }
        } else if line.action@ == "msg"@ {
            (self.recorded(None, redaction::clean(self.secrets, line.msg@)), Seq::empty())
        } else {
            (self, Seq::empty())
        }
    }
}

/// `drv_path` is a requested derivation that has `output` among its output paths.
pub open spec fn owns(
    nodes: Map<Seq<char>, NodeModel>,
    derivations: Set<Seq<char>>,
    drv_path: Seq<char>,
    output: Seq<char>,
) -> bool {
    &&& derivations.contains(drv_path)
    &&& nodes.dom().contains(drv_path)
    &&& exists|name: Seq<char>| #[trigger]
        nodes[drv_path].outputs.dom().contains(name) && nodes[drv_path].outputs[name] == Some(
            output,
        )
}

/// `outputs` attributes every output path of a requested derivation to it, and to the last one in
/// path order where several have it.
pub open spec fn attributes(
    nodes: Map<Seq<char>, NodeModel>,
    derivations: Set<Seq<char>>,
    outputs: Map<Seq<char>, Seq<char>>,
) -> bool {
    &&& forall|output: Seq<char>| #[trigger]
        outputs.dom().contains(output) <==> exists|drv_path: Seq<char>|
            owns(nodes, derivations, drv_path, output)
    &&& forall|output: Seq<char>| #[trigger]
        outputs.dom().contains(output) ==> owns(nodes, derivations, outputs[output], output)
    &&& forall|output: Seq<char>, other: Seq<char>| #[trigger]
        owns(nodes, derivations, other, output) ==> other == outputs[output] || text::precedes(
            other,
            outputs[output],
        )
}

/// One activity that was attributed to a derivation.
#[derive(Debug, PartialEq, Eq)]
struct Activity {
    drv_path: String,
    transfer: bool,
    running: bool,
}

impl Activity {
    spec fn model(&self) -> ActivityModel {
        ActivityModel {
            drv_path: self.drv_path@,
            transfer: self.transfer,
            running: self.running,
        }
    }
}

/// Turns the activity stream of one realization process into per-derivation progress.
///
/// The observer also rebuilds a readable log from the message and build-log records, because
/// selecting the JSON log format removes the plain text a diagnostic would otherwise carry.
#[derive(Debug, PartialEq, Eq)]
pub struct RealizationObserver {
    derivations: StringSet,
    outputs: StringMap<String>,
    activities: BTreeMap<u64, Activity>,
    running: StringMap<BTreeSet<u64>>,
    built: StringSet,
    results: BuildResults,
    transcript: Transcript,
    redactor: Redactor,
}

/// What activities say.
spec fn activity_models(activities: Map<u64, Activity>) -> Map<u64, ActivityModel> {
    Map::new(|id: u64| activities.dom().contains(id), |id: u64| activities[id].model())
}

/// `id` is filed under `drv_path`.
spec fn filed(running: StringMap<BTreeSet<u64>>, drv_path: Seq<char>, id: u64) -> bool {
    running@.dom().contains(drv_path) && running@[drv_path]@.contains(id)
}

/// The running activities are filed under their derivations.
spec fn files(running: StringMap<BTreeSet<u64>>, activities: Map<u64, ActivityModel>) -> bool {
    &&& running.wf()
    &&& forall|drv_path: Seq<char>, id: u64| #[trigger]
        filed(running, drv_path, id) <==> activities.dom().contains(id)
            && activities[id].drv_path == drv_path && activities[id].running
}

/// Files an activity under a derivation.
fn file(running: &mut StringMap<BTreeSet<u64>>, drv_path: &str, id: u64)
    requires
        old(running).wf(),
    ensures
        final(running).wf(),
        forall|p: Seq<char>, i: u64| #[trigger]
            filed(*final(running), p, i) <==> filed(*old(running), p, i) || (p == drv_path@ && i
                == id),
{
    let ghost before = *running;
    match running.position(drv_path) {
        Some(at) => {
            let ids = running.value_at_mut(at);
            ids.insert(id);
        },
        None => {
            let mut ids: BTreeSet<u64> = BTreeSet::new();
            ids.insert(id);
            running.insert(drv_path.to_owned(), ids);
        },
    }
}

/// Takes an activity from a derivation.
fn unfile(running: &mut StringMap<BTreeSet<u64>>, drv_path: &str, id: u64)
    requires
        old(running).wf(),
    ensures
        final(running).wf(),
        forall|p: Seq<char>, i: u64| #[trigger]
            filed(*final(running), p, i) <==> filed(*old(running), p, i) && !(p == drv_path@ && i
                == id),
{
    let ghost before = *running;
    match running.position(drv_path) {
        Some(at) => {
            let ids = running.value_at_mut(at);
            ids.remove(&id);
        },
        None => {},
    }
}

/// Reports whether any activity is filed under a derivation.
fn any_filed(running: &StringMap<BTreeSet<u64>>, drv_path: &str) -> (result: bool)
    requires
        running.wf(),
    ensures
        result == exists|id: u64| filed(*running, drv_path@, id),
{
    match running.position(drv_path) {
        Some(at) => {
            let empty = running.value_at(at).is_empty();
            proof {
                let ids = running@[drv_path@]@;
                if empty {
                    assert forall|id: u64| !filed(*running, drv_path@, id) by {
                        assert(!ids.contains(id));
                    }
                } else {
                    let id = choose|id: u64| ids.contains(id);
                    assert(ids.contains(id)) by {
                        if forall|i: u64| !ids.contains(i) {
                            assert(ids =~= Set::<u64>::empty());
                        }
                    }
                    assert(filed(*running, drv_path@, id));
                }
            }
            !empty
        },
        None => false,
    }
}

impl RealizationObserver {
    /// Everything the observer knows.
    pub closed spec fn model(&self) -> ObserverModel {
        ObserverModel {
            derivations: self.derivations@,
            outputs: self.outputs.deep_view(),
            activities: activity_models(self.activities@),
            built: self.built@,
            results: self.results.model(),
            transcript: self.transcript.model(),
            secrets: self.redactor.secrets(),
        }
    }

    /// What the observer keeps is well-formed, and its logs are within their limits.
    pub closed spec fn wf(&self) -> bool {
        &&& self.derivations.wf()
        &&& self.outputs.wf()
        &&& self.built.wf()
        &&& files(self.running, activity_models(self.activities@))
        &&& self.results.wf()
        &&& self.transcript.wf()
    }

    fn known(&self, drv_path: &str) -> (result: bool)
        requires
            self.wf(),
        ensures
            result == self.model().known(drv_path@),
    {
        self.derivations.contains(drv_path) || store::store_derivation(drv_path)
    }

    /// Returns the derivation that a started activity belongs to.
    fn attribute(&self, parsed: &LogLine) -> (result: Option<String>)
        requires
            self.wf(),
        ensures
            match (result, self.model().attributed(*parsed)) {
                (Some(drv_path), Some(expected)) => drv_path@ == expected,
                (None, None) => true,
                _ => false,
            },
    {
        let subject = match parsed.field_str(0) {
            Some(subject) => subject,
            None => {
                return None;
            },
        };
        if parsed.kind == ACTIVITY_BUILD {
            if self.known(subject) {
                return Some(subject.to_owned());
            }
            return None;
        }
        if parsed.kind == ACTIVITY_COPY_PATH {
            if let Some(uri) = parsed.field_str(2) {
                if is_remote_store(uri) {
                    return None;
                }
            }
        }
        if parsed.kind == ACTIVITY_COPY_PATH || parsed.kind == ACTIVITY_SUBSTITUTE {
            if let Some(drv_path) = self.outputs.get(subject) {
                return Some(drv_path.clone());
            }
            if let Some(activity) = self.activities.get(&parsed.parent) {
                return Some(activity.drv_path.clone());
            }
        }
        None
    }

    fn start(&mut self, parsed: &LogLine) -> (result: Vec<ProgressEvent>)
        requires
            old(self).wf(),
        ensures
            final(self).wf(),
            (final(self).model(), notices(result@)) == old(self).model().start(*parsed),
    {
        let mut events: Vec<ProgressEvent> = Vec::new();
        assert(notices(events@) =~= Seq::empty());
        let drv_path = match self.attribute(parsed) {
            Some(drv_path) => drv_path,
            None => {
                return events;
            },
        };
        let ghost model = self.model();
        let ghost before = self.activities@;
        let running = any_filed(&self.running, drv_path.as_str());
        proof {
            lemma_running(self.running, model, drv_path@);
        }
        if let Some(previous) = self.activities.get(&parsed.id) {
            if previous.running {
                unfile(&mut self.running, previous.drv_path.as_str(), parsed.id);
            }
        }
        file(&mut self.running, drv_path.as_str(), parsed.id);
        let activity = Activity {
            drv_path: drv_path.clone(),
            transfer: parsed.kind != ACTIVITY_BUILD,
            running: true,
        };
        self.activities.insert(parsed.id, activity);
        self.transcript.open(drv_path.as_str());
        proof {
            assert(activity_models(self.activities@) =~= activity_models(before).insert(
                parsed.id,
                activity.model(),
            ));
        }
        if !running {
            events.push(ProgressEvent::NodeStarted { drv_path });
        }
        assert(notices(events@) =~= model.start(*parsed).1);
        events
    }

    fn stop(&mut self, id: u64) -> (result: Vec<ProgressEvent>)
        requires
            old(self).wf(),
        ensures
            final(self).wf(),
            (final(self).model(), notices(result@)) == old(self).model().stop(id),
    {
        let mut events: Vec<ProgressEvent> = Vec::new();
        assert(notices(events@) =~= Seq::empty());
        let ghost model = self.model();
        let ghost before = self.activities@;
        let (drv_path, transfer) = match self.activities.get(&id) {
            Some(activity) => {
                if !activity.running {
                    return events;
                }
                (activity.drv_path.clone(), activity.transfer)
            },
            None => {
                return events;
            },
        };
        unfile(&mut self.running, drv_path.as_str(), id);
        let activity = Activity { drv_path: drv_path.clone(), transfer, running: false };
        self.activities.insert(id, activity);
        proof {
            assert(activity_models(self.activities@) =~= activity_models(before).insert(
                id,
                activity.model(),
            ));
        }
        if !transfer {
            self.built.insert(drv_path.clone());
            self.results.stop(drv_path.as_str());
        }
        let running = any_filed(&self.running, drv_path.as_str());
        proof {
            lemma_running(self.running, self.model(), drv_path@);
        }
        if !running {
            events.push(ProgressEvent::NodeActivityStopped { drv_path: drv_path.clone() });
            if self.built.contains(drv_path.as_str()) {
                events.push(
                    ProgressEvent::NodeProvisionalFinished { drv_path, state: NodeState::Built },
                );
            }
        }
        assert(notices(events@) =~= model.stop(id).1);
        events
    }

    fn log_text(&mut self, id: u64, written: &str) -> (result: Vec<ProgressEvent>)
        requires
            old(self).wf(),
        ensures
            final(self).wf(),
            (final(self).model(), notices(result@)) == old(self).model().log_text(id, written@),
    {
        let ghost model = self.model();
        let line = self.redactor.clean(written);
        let mut events: Vec<ProgressEvent> = Vec::new();
        let drv_path = match self.activities.get(&id) {
            Some(activity) => activity.drv_path.clone(),
            None => {
                self.transcript.record(None, line.as_str());
                assert(notices(events@) =~= Seq::empty());
                return events;
            },
        };
        self.transcript.record(Some(drv_path.as_str()), line.as_str());
        let lines = text::lines(line.as_str());
        let mut i: usize = 0;
        while i < lines.len()
            invariant
                i <= lines@.len(),
                events@.len() == i,
                forall|k: int|
                    0 <= k < i ==> notice_of(#[trigger] events@[k]) == (Notice::Line {
                        drv_path: drv_path@,
                        line: lines@[k]@,
                    }),
            decreases lines@.len() - i,
        {
            events.push(
                ProgressEvent::NodeLogLine { drv_path: drv_path.clone(), line: lines[i].clone() },
            );
            i = i + 1;
        }
        assert(notices(events@) =~= model.log_text(id, written@).1);
        events
    }

    fn progress(&self, parsed: &LogLine) -> (result: Vec<ProgressEvent>)
        requires
            self.wf(),
        ensures
            notices(result@) == self.model().progress(*parsed),
    {
        let mut events: Vec<ProgressEvent> = Vec::new();
        if let Some(activity) = self.activities.get(&parsed.id) {
            if activity.running && activity.transfer {
                if let (Some(done), Some(expected)) = (parsed.field_u64(0), parsed.field_u64(1)) {
                    if expected > 0 {
                        events.push(
                            ProgressEvent::NodeProgress {
                                drv_path: activity.drv_path.clone(),
                                done,
                                expected,
                            },
                        );
                    }
                }
            }
        }
        assert(notices(events@) =~= self.model().progress(*parsed));
        events
    }

    fn settle(&mut self, report: &BuildReport) -> (result: Vec<ProgressEvent>)
        requires
            old(self).wf(),
        ensures
            final(self).wf(),
            (final(self).model(), notices(result@)) == old(self).model().settle(*report),
    {
        let mut events: Vec<ProgressEvent> = Vec::new();
        assert(notices(events@) =~= Seq::empty());
        let ghost start = self.model();
        self.results.report(report);
        let ghost model = self.model();
        let state = match report_state(report) {
            Some(state) => state,
            None => {
                return events;
            },
        };
        let drv_path = store::normalize_derivation_path(report.drv_path.clone());
        if !self.known(drv_path.as_str()) {
            return events;
        }
        let mut i: usize = 0;
        assert(report.outputs@.take(0) =~= Seq::<BuiltOutput>::empty());
        while i < report.outputs.len()
            invariant
                i <= report.outputs@.len(),
                self.wf(),
                self.model() == (ObserverModel {
                    outputs: with_outputs(
                        model.outputs,
                        report.outputs@.take(i as int),
                        drv_path@,
                    ),
                    ..model
                }),
            decreases report.outputs@.len() - i,
        {
            let ghost before = self.outputs;
            proof {
                assert(report.outputs@.take(i + 1).drop_last() =~= report.outputs@.take(i as int));
            }
            let output = store::normalize_output_path(report.outputs[i].path.clone());
            let ghost name = output@;
            self.outputs.insert(output, drv_path.clone());
            assert(self.outputs.deep_view() =~= before.deep_view().insert(name, drv_path@));
            i = i + 1;
        }
        assert(report.outputs@.take(i as int) =~= report.outputs@);
        events.push(ProgressEvent::NodeFinished { drv_path, state });
        assert(notices(events@) =~= start.settle(*report).1);
        events
    }

    /// Takes one activity record, and returns what it means for the derivations.
    pub fn line(&mut self, parsed: &LogLine) -> (result: Vec<ProgressEvent>)
        requires
            old(self).wf(),
        ensures
            final(self).wf(),
            (final(self).model(), notices(result@)) == old(self).model().step(*parsed),
    {
        let action = parsed.action.as_str();
        let none: Vec<ProgressEvent> = Vec::new();
        assert(notices(none@) =~= Seq::empty());
        if text::same(action, "start") {
            self.start(parsed)
        } else if text::same(action, "stop") {
            self.stop(parsed.id)
        } else if text::same(action, "result") {
            if parsed.kind == RESULT_BUILD_LOG_LINE || parsed.kind == RESULT_POST_BUILD_LOG_LINE {
                match parsed.field_str(0) {
                    Some(line) => self.log_text(parsed.id, line),
                    None => none,
                }
            } else if parsed.kind == RESULT_PROGRESS {
                self.progress(parsed)
            } else if parsed.kind == RESULT_BUILD_REPORT {
                match &parsed.report {
                    Some(report) => self.settle(report),
                    None => none,
                }
            } else {
                none
            }
        } else if text::same(action, "msg") {
            let line = self.redactor.clean(parsed.msg.as_str());
            self.transcript.record(None, line.as_str());
            none
        } else {
            none
        }
    }

    /// Allows up to `entries` results of derivations that the caller did not ask for to be kept, and
    /// as many stopped builds, of up to `bytes` bytes each way.
    pub fn allow_unknown_results(&mut self, entries: usize, bytes: usize)
        requires
            old(self).wf(),
        ensures
            final(self).wf(),
            final(self).model() == (ObserverModel {
                results: ResultsModel {
                    results_left: Budget { entries, bytes },
                    stops_left: Budget { entries, bytes },
                    ..old(self).model().results
                },
                ..old(self).model()
            }),
    {
        self.results.allow(Budget { entries, bytes });
    }

    /// Takes the confirmed builds by derivation path.
    pub fn take_confirmed(&mut self) -> (result: StringMap<ConfirmedResult>)
        requires
            old(self).wf(),
        ensures
            final(self).wf(),
            results::results_wf(result),
            result.deep_view() == old(self).model().results.confirmed,
            final(self).model() == (ObserverModel {
                results: ResultsModel { confirmed: Map::empty(), ..old(self).model().results },
                ..old(self).model()
            }),
    {
        self.results.take_confirmed()
    }

    /// Takes the derivations of which a build stopped, whether or not it succeeded.
    pub fn take_stopped(&mut self) -> (result: StringSet)
        requires
            old(self).wf(),
        ensures
            final(self).wf(),
            result.wf(),
            result@ == old(self).model().results.stopped,
            final(self).model() == (ObserverModel {
                results: ResultsModel { stopped: Set::empty(), ..old(self).model().results },
                ..old(self).model()
            }),
    {
        self.results.take_stopped()
    }

    /// Returns the reconstructed plain-text log and whether it omitted any of it.
    pub fn take_log(&mut self) -> (result: (Vec<u8>, bool))
        requires
            old(self).wf(),
        ensures
            final(self).wf(),
            result.0@ == old(self).model().transcript.whole.text(),
            result.1 == old(self).model().transcript.whole.truncated,
            result.0@.len() <= old(self).model().transcript.limit,
            final(self).model() == (ObserverModel {
                transcript: TranscriptModel {
                    whole: LogModel::new(old(self).model().transcript.limit),
                    ..old(self).model().transcript
                },
                ..old(self).model()
            }),
    {
        self.transcript.take()
    }

    /// Returns the log of what no derivation wrote and whether it omitted any of it.
    pub fn take_context(&mut self) -> (result: (Vec<u8>, bool))
        requires
            old(self).wf(),
        ensures
            final(self).wf(),
            result.0@ == old(self).model().transcript.context.text(),
            result.1 == old(self).model().transcript.context.truncated,
            result.0@.len() <= old(self).model().transcript.limit,
            final(self).model() == (ObserverModel {
                transcript: TranscriptModel {
                    context: LogModel::new(old(self).model().transcript.limit),
                    ..old(self).model().transcript
                },
                ..old(self).model()
            }),
    {
        self.transcript.take_context()
    }

    /// Returns the log of what a derivation wrote and whether it omitted any of it. A derivation
    /// that was never active has none.
    pub fn take_node_log(&mut self, drv_path: &str) -> (result: Option<(Vec<u8>, bool)>)
        requires
            old(self).wf(),
        ensures
            final(self).wf(),
            match result {
                Some((text, truncated)) => {
                    let transcript = old(self).model().transcript;
                    &&& transcript.nodes.dom().contains(drv_path@)
                    &&& text@ == transcript.nodes[drv_path@].text()
                    &&& truncated == transcript.nodes[drv_path@].truncated
                    &&& text@.len() <= transcript.limit
                    &&& final(self).model() == (ObserverModel {
                        transcript: TranscriptModel {
                            nodes: transcript.nodes.insert(
                                drv_path@,
                                LogModel::new(transcript.limit),
                            ),
                            ..transcript
                        },
                        ..old(self).model()
                    })
                },
                None => {
                    &&& !old(self).model().transcript.nodes.dom().contains(drv_path@)
                    &&& final(self).model() == old(self).model()
                },
            },
    {
        self.transcript.take_node(drv_path)
    }
}

/// Something is filed under a derivation exactly when one of its activities is running.
proof fn lemma_running(
    running: StringMap<BTreeSet<u64>>,
    model: ObserverModel,
    drv_path: Seq<char>,
)
    requires
        files(running, model.activities),
    ensures
        (exists|id: u64| filed(running, drv_path, id)) == model.is_running(drv_path),
{
    if model.is_running(drv_path) {
        let id = choose|id: u64| #[trigger]
            model.activities.dom().contains(id) && model.activities[id].drv_path == drv_path
                && model.activities[id].running;
        assert(filed(running, drv_path, id));
    }
    if exists|id: u64| filed(running, drv_path, id) {
        let id = choose|id: u64| filed(running, drv_path, id);
        assert(model.activities.dom().contains(id));
    }
}

/// `output` is among a node's output paths.
spec fn has_output(node: NodeModel, output: Seq<char>) -> bool {
    exists|name: Seq<char>| #[trigger]
        node.outputs.dom().contains(name) && node.outputs[name] == Some(output)
}

/// Attributes a node's output paths to it.
fn add_outputs(outputs: &mut StringMap<String>, node: &DerivationNode)
    requires
        old(outputs).wf(),
        node.wf(),
    ensures
        final(outputs).wf(),
        forall|o: Seq<char>| #[trigger]
            final(outputs).deep_view().dom().contains(o) <==> old(
                outputs,
            ).deep_view().dom().contains(o) || has_output(node.deep_view(), o),
        forall|o: Seq<char>| #[trigger]
            final(outputs).deep_view().dom().contains(o) ==> final(outputs).deep_view()[o]
                == if has_output(node.deep_view(), o) {
                node.drv_path@
            } else {
                old(outputs).deep_view()[o]
            },
{
    let ghost before = outputs.deep_view();
    let names = &node.outputs;
    let ghost keys = names.keys();
    let count = names.len();
    let mut k: usize = 0;
    while k < count
        invariant
            *names == node.outputs,
            node.wf(),
            keys == names.keys(),
            count == keys.len(),
            k <= count,
            outputs.wf(),
            forall|o: Seq<char>| #[trigger]
                outputs.deep_view().dom().contains(o) <==> before.dom().contains(o)
                    || listed_before(*names, k as int, o),
            forall|o: Seq<char>| #[trigger]
                outputs.deep_view().dom().contains(o) ==> outputs.deep_view()[o]
                    == if listed_before(*names, k as int, o) {
                    node.drv_path@
                } else {
                    before[o]
                },
        decreases count - k,
    {
        let ghost known = *outputs;
        if let Some(path) = names.value_at(k) {
            outputs.insert(path.clone(), node.drv_path.clone());
            assert(outputs.deep_view() =~= known.deep_view().insert(path@, node.drv_path@));
        }
        proof {
            assert forall|o: Seq<char>| #[trigger]
                outputs.deep_view().dom().contains(o) <==> before.dom().contains(o)
                    || listed_before(*names, k + 1, o) by {
                assert(known.deep_view().dom().contains(o) <==> before.dom().contains(o)
                    || listed_before(*names, k as int, o));
            }
            assert forall|o: Seq<char>| #[trigger]
                outputs.deep_view().dom().contains(o) implies outputs.deep_view()[o]
                == if listed_before(*names, k + 1, o) {
                node.drv_path@
            } else {
                before[o]
            } by {
                assert(known.deep_view().dom().contains(o) <==> before.dom().contains(o)
                    || listed_before(*names, k as int, o));
            }
        }
        k = k + 1;
    }
    proof {
        assert forall|o: Seq<char>|
            #[trigger] listed_before(*names, count as int, o) == has_output(
                node.deep_view(),
                o,
            ) by {
            lemma_listed(*names, count as int, o);
            if listed_before(*names, count as int, o) {
                let j = choose|j: int| 0 <= j < count && #[trigger] listed_at(*names, j, o);
                crate::ordered::lemma_map_at(*names, j);
                assert(node.deep_view().outputs.dom().contains(keys[j]));
            }
            if has_output(node.deep_view(), o) {
                let name = choose|name: Seq<char>| #[trigger]
                    node.deep_view().outputs.dom().contains(name)
                        && node.deep_view().outputs[name] == Some(o);
                let j = crate::ordered::lemma_map_position(*names, name);
                assert(listed_at(*names, j, o));
            }
        }
    }
}

/// The value at a position is the output path `output`.
spec fn listed_at(names: StringMap<Option<String>>, j: int, output: Seq<char>) -> bool {
    names.values()[j] matches Some(path) && path@ == output
}

/// One of the first values is the output path `output`.
spec fn listed_before(names: StringMap<Option<String>>, bound: int, output: Seq<char>) -> bool
    decreases bound,
{
    bound > 0 && (listed_at(names, bound - 1, output) || listed_before(
        names,
        bound - 1,
        output,
    ))
}

proof fn lemma_listed(names: StringMap<Option<String>>, bound: int, output: Seq<char>)
    ensures
        listed_before(names, bound, output) <==> exists|j: int|
            0 <= j < bound && #[trigger] listed_at(names, j, output),
    decreases bound,
{
    if bound > 0 {
        lemma_listed(names, bound - 1, output);
    }
}

/// The set of a list's first members.
spec fn first_members(list: Seq<Seq<char>>, count: int) -> Set<Seq<char>> {
    Set::new(|path: Seq<char>| list.take(count).contains(path))
}

proof fn lemma_one_more_member(list: Seq<Seq<char>>, i: int)
    requires
        0 <= i < list.len(),
    ensures
        forall|p: Seq<char>| #[trigger]
            first_members(list, i + 1).contains(p) <==> first_members(list, i).contains(p) || p
                == list[i],
{
    let a = list.take(i);
    let b = list.take(i + 1);
    assert forall|p: Seq<char>| #[trigger]
        first_members(list, i + 1).contains(p) <==> first_members(list, i).contains(p) || p
            == list[i] by {
        if a.contains(p) {
            assert(b[a.index_of(p)] == p);
        }
        if p == list[i] {
            assert(b[i] == p);
        }
        if b.contains(p) {
            let k = b.index_of(p);
            if k < i {
                assert(a[k] == p);
            }
        }
    }
}

/// The nodes of one more requested derivation.
proof fn lemma_declared(nodes: Map<Seq<char>, NodeModel>, list: Seq<Seq<char>>, i: int)
    requires
        0 <= i < list.len(),
    ensures
        nodes.restrict(first_members(list, i + 1)) == if nodes.dom().contains(list[i]) {
            nodes.restrict(first_members(list, i)).insert(list[i], nodes[list[i]])
        } else {
            nodes.restrict(first_members(list, i))
        },
{
    lemma_one_more_member(list, i);
    assert(nodes.restrict(first_members(list, i + 1)) =~= if nodes.dom().contains(list[i]) {
        nodes.restrict(first_members(list, i)).insert(list[i], nodes[list[i]])
    } else {
        nodes.restrict(first_members(list, i))
    });
}

/// Attributing the outputs of the next derivation keeps the attribution right.
proof fn lemma_attributed(
    nodes: Map<Seq<char>, NodeModel>,
    list: Seq<Seq<char>>,
    i: int,
    before: Map<Seq<char>, Seq<char>>,
    after: Map<Seq<char>, Seq<char>>,
)
    requires
        crate::ordered::ascending(list),
        0 <= i < list.len(),
        attributes(nodes, first_members(list, i), before),
        if nodes.dom().contains(list[i]) {
            &&& forall|o: Seq<char>| #[trigger]
                after.dom().contains(o) <==> before.dom().contains(o) || has_output(
                    nodes[list[i]],
                    o,
                )
            &&& forall|o: Seq<char>| #[trigger]
                after.dom().contains(o) ==> after[o] == if has_output(nodes[list[i]], o) {
                    list[i]
                } else {
                    before[o]
                }
        } else {
            after == before
        },
    ensures
        attributes(nodes, first_members(list, i + 1), after),
{
    let path = list[i];
    let done = first_members(list, i);
    let now = first_members(list, i + 1);
    lemma_one_more_member(list, i);
    assert forall|p: Seq<char>| #[trigger] done.contains(p) implies text::precedes(p, path) by {
        let k = list.take(i).index_of(p);
        assert(list[k] == p);
    }
    text::lemma_precedes_irreflexive(path);
    assert forall|d: Seq<char>, o: Seq<char>| #[trigger]
        owns(nodes, now, d, o) <==> owns(nodes, done, d, o) || (d == path && nodes.dom().contains(
            path,
        ) && has_output(nodes[path], o)) by {}
    assert forall|o: Seq<char>| #[trigger] after.dom().contains(o) <==> exists|d: Seq<char>|
        owns(nodes, now, d, o) by {
        if before.dom().contains(o) {
            let d = choose|d: Seq<char>| owns(nodes, done, d, o);
            assert(owns(nodes, now, d, o));
        }
        if nodes.dom().contains(path) && has_output(nodes[path], o) {
            assert(owns(nodes, now, path, o));
        }
        if exists|d: Seq<char>| owns(nodes, now, d, o) {
            let d = choose|d: Seq<char>| owns(nodes, now, d, o);
            if d != path {
                assert(owns(nodes, done, d, o));
            }
            assert(owns(nodes, done, d, o) ==> before.dom().contains(o));
        }
    }
    assert forall|o: Seq<char>| #[trigger] after.dom().contains(o) implies owns(
        nodes,
        now,
        after[o],
        o,
    ) by {
        if nodes.dom().contains(path) && has_output(nodes[path], o) {
        } else {
            assert(before.dom().contains(o));
            assert(owns(nodes, done, before[o], o));
        }
    }
    assert forall|o: Seq<char>, other: Seq<char>| #[trigger] owns(
        nodes,
        now,
        other,
        o,
    ) implies other == after[o] || text::precedes(other, after[o]) by {
        assert(after.dom().contains(o));
        if nodes.dom().contains(path) && has_output(nodes[path], o) {
            if other != path {
                assert(done.contains(other));
            }
        } else {
            assert(owns(nodes, done, other, o));
        }
    }
}

impl RealizationObserver {
    /// Creates an observer for the requested derivations of a graph, whose plain-text logs hold at
    /// most `log_limit` bytes each. In what is logged, the redactor's secrets are replaced.
    pub fn new(
        graph: &DependencyGraph,
        derivations: Vec<String>,
        log_limit: usize,
        redactor: Redactor,
    ) -> (result: Self)
        requires
            graph.wf(),
        ensures
            result.wf(),
            forall|path: Seq<char>| #[trigger]
                result.model().derivations.contains(path) <==> derivations.deep_view().contains(
                    path,
                ),
            attributes(graph.model(), result.model().derivations, result.model().outputs),
            result.model().activities == Map::<u64, ActivityModel>::empty(),
            result.model().built == Set::<Seq<char>>::empty(),
            result.model().results == (ResultsModel {
                declared: graph.model().restrict(result.model().derivations),
                ..ResultsModel::new()
            }),
            result.model().transcript == TranscriptModel::new(log_limit as nat),
            result.model().secrets == redactor.secrets(),
    {
        let ghost nodes = graph.model();
        let ghost given = derivations.deep_view();
        let mut requested = StringSet::new();
        let mut i: usize = 0;
        while i < derivations.len()
            invariant
                given == derivations.deep_view(),
                i <= derivations@.len(),
                requested.wf(),
                forall|path: Seq<char>| #[trigger]
                    requested@.contains(path) <==> given.take(i as int).contains(path),
            decreases derivations@.len() - i,
        {
            let ghost before = requested@;
            let ghost done = given.take(i as int);
            requested.insert(derivations[i].clone());
            proof {
                let after = given.take(i + 1);
                assert(after =~= done.push(given[i as int]));
                assert forall|path: Seq<char>| #[trigger]
                    requested@.contains(path) <==> after.contains(path) by {
                    assert(before.contains(path) <==> done.contains(path));
                    if done.contains(path) {
                        assert(after[done.index_of(path)] == path);
                    }
                    if path == given[i as int] {
                        assert(after[i as int] == path);
                    }
                    if after.contains(path) && path != given[i as int] {
                        assert(done[after.index_of(path)] == path);
                    }
                }
            }
            i = i + 1;
        }
        assert(given.take(i as int) =~= given);
        let ghost list = requested.members();
        let mut outputs: StringMap<String> = StringMap::new();
        let mut results = BuildResults::new();
        let count = requested.len();
        let mut i: usize = 0;
        proof {
            requested.lemma_members();
            assert(outputs.deep_view() =~= Map::<Seq<char>, Seq<char>>::empty());
            assert forall|o: Seq<char>, d: Seq<char>| !#[trigger] owns(
                nodes,
                first_members(list, 0),
                d,
                o,
            ) by {
                assert(!list.take(0).contains(d));
            }
        }
        while i < count
            invariant
                graph.wf(),
                nodes == graph.model(),
                list == requested.members(),
                crate::ordered::ascending(list),
                count == list.len(),
                i <= count,
                outputs.wf(),
                attributes(nodes, first_members(list, i as int), outputs.deep_view()),
                results.wf(),
                results.model() == (ResultsModel {
                    declared: nodes.restrict(first_members(list, i as int)),
                    ..ResultsModel::new()
                }),
            decreases count - i,
        {
            let ghost before = outputs.deep_view();
            let drv_path = requested.at(i);
            if let Some(at) = graph.nodes().position(drv_path.as_str()) {
                let node: &Arc<DerivationNode> = graph.nodes().value_at(at);
                proof {
                    assert(nodes.dom().contains(drv_path@));
                    assert(node.wf());
                    assert(node.drv_path@ == drv_path@) by {
                        if node.drv_path@ != drv_path@ {
                            assert(crate::graph::misplaced(nodes)(drv_path@));
                        }
                    }
                }
                add_outputs(&mut outputs, node);
                results.declare(node.clone());
            }
            proof {
                lemma_declared(nodes, list, i as int);
                lemma_attributed(nodes, list, i as int, before, outputs.deep_view());
            }
            i = i + 1;
        }
        let result = RealizationObserver {
            derivations: requested,
            outputs,
            activities: BTreeMap::new(),
            running: StringMap::new(),
            built: StringSet::new(),
            results,
            transcript: Transcript::new(log_limit),
            redactor,
        };
        proof {
            assert(list.take(count as int) =~= list);
            assert(first_members(list, count as int) =~= requested@);
            assert(result.model().activities =~= Map::<u64, ActivityModel>::empty());
        }
        result
    }
}

/// A derivation is said to start exactly when its first running activity starts, and to stop
/// exactly when its last one stops, as long as the number of a running activity is not taken for
/// an activity of another derivation.
pub proof fn law_starts_and_stops_frame_activity(
    model: ObserverModel,
    line: LogLine,
    drv_path: Seq<char>,
)
    requires
        line.action@ == "start"@ && model.activities.dom().contains(line.id)
            && model.activities[line.id].running && model.attributed(line) is Some
            ==> model.attributed(line) == Some(model.activities[line.id].drv_path),
    ensures
        ({
            let (after, told) = model.step(line);
            &&& told.contains(Notice::Started { drv_path }) <==> !model.is_running(drv_path)
                && after.is_running(drv_path)
            &&& told.contains(Notice::Stopped { drv_path }) <==> model.is_running(drv_path)
                && !after.is_running(drv_path)
        }),
{
    reveal_strlit("start");
    reveal_strlit("stop");
    reveal_strlit("result");
    reveal_strlit("msg");
    let (after, told) = model.step(line);
    if line.action@ == "start"@ {
        match model.attributed(line) {
            None => {
                assert(told =~= Seq::empty());
            },
            Some(path) => {
                assert(after.activities.dom() =~= model.activities.dom().insert(line.id));
                lemma_others_run_on(model, after, line.id, drv_path, path);
                if model.is_running(path) {
                    assert(told =~= Seq::empty());
                } else {
                    assert(told =~= seq![Notice::Started { drv_path: path }]);
                    assert(told[0] == Notice::Started { drv_path: path });
                }
            },
        }
    } else if line.action@ == "stop"@ {
        if model.activities.dom().contains(line.id) && model.activities[line.id].running {
            let path = model.activities[line.id].drv_path;
            assert(model.is_running(path));
            assert(after.activities.dom() =~= model.activities.dom().insert(line.id));
            lemma_others_run_on(model, after, line.id, drv_path, path);
            if after.is_running(path) {
                assert(told =~= Seq::empty());
            } else {
                assert(told[0] == Notice::Stopped { drv_path: path });
            }
        } else {
            assert(told =~= Seq::empty());
        }
    } else {
        assert(after.activities =~= model.activities);
        assert(model.is_running(drv_path) == after.is_running(drv_path)) by {
            lemma_same_activities(model, after, drv_path);
            lemma_same_activities(after, model, drv_path);
        }
    }
}

proof fn lemma_same_activities(a: ObserverModel, b: ObserverModel, drv_path: Seq<char>)
    requires
        a.activities == b.activities,
    ensures
        a.is_running(drv_path) ==> b.is_running(drv_path),
{
    if a.is_running(drv_path) {
        let id = choose|id: u64| #[trigger]
            a.activities.dom().contains(id) && a.activities[id].drv_path == drv_path
                && a.activities[id].running;
        assert(b.activities.dom().contains(id));
    }
}

/// An activity that changes for one derivation leaves the others running as they were.
proof fn lemma_others_run_on(
    before: ObserverModel,
    after: ObserverModel,
    id: u64,
    drv_path: Seq<char>,
    changed: Seq<char>,
)
    requires
        after.activities.dom() == before.activities.dom().insert(id),
        forall|other: u64|
            other != id && #[trigger] before.activities.dom().contains(other)
                ==> after.activities[other] == before.activities[other],
        after.activities[id].drv_path == changed,
        before.activities.dom().contains(id) && before.activities[id].running
            ==> before.activities[id].drv_path == changed,
    ensures
        drv_path != changed ==> before.is_running(drv_path) == after.is_running(drv_path),
        after.activities[id].running ==> after.is_running(changed),
{
    if drv_path != changed {
        if before.is_running(drv_path) {
            let k = choose|k: u64| #[trigger]
                before.activities.dom().contains(k) && before.activities[k].drv_path == drv_path
                    && before.activities[k].running;
            assert(after.activities.dom().contains(k));
        }
        if after.is_running(drv_path) {
            let k = choose|k: u64| #[trigger]
                after.activities.dom().contains(k) && after.activities[k].drv_path == drv_path
                    && after.activities[k].running;
            assert(before.activities.dom().contains(k));
        }
    }
    if after.activities[id].running {
        assert(after.activities.dom().contains(id));
    }
}

/// Stopping an activity that has stopped says and changes nothing.
pub proof fn law_an_activity_stops_once(model: ObserverModel, id: u64)
    ensures
        model.stop(id).0.stop(id) == (model.stop(id).0, Seq::<Notice>::empty()),
{
}

/// Progress is said only of a derivation with a running activity, and only with a total.
pub proof fn law_progress_belongs_to_running_transfers(
    model: ObserverModel,
    line: LogLine,
    drv_path: Seq<char>,
    done: u64,
    expected: u64,
)
    requires
        model.progress(line).contains(Notice::Progress { drv_path, done, expected }),
    ensures
        model.is_running(drv_path),
        expected > 0,
{
    let told = model.progress(line);
    let i = told.index_of(Notice::Progress { drv_path, done, expected });
    assert(told[i] == Notice::Progress { drv_path, done, expected });
}

/// Whatever Nix reports, confirmed builds stay sound.
pub proof fn law_records_keep_results_sound(model: ObserverModel, line: LogLine)
    requires
        model.results.sound(),
    ensures
        model.step(line).0.results.sound(),
{
    if let Some(report) = line.report {
        results::law_reports_keep_results_sound(model.results, report);
    }
}

/// A derivation that stopped is not confirmed by that: only a report confirms.
pub proof fn law_only_reports_confirm(model: ObserverModel, line: LogLine)
    requires
        line.report is None,
    ensures
        model.step(line).0.results.confirmed == model.results.confirmed,
        model.step(line).0.results.rejected == model.results.rejected,
{
}

/// The log lines that are told of a build are the lines of the text that is recorded of it.
pub proof fn law_told_and_recorded_text_agree(model: ObserverModel, id: u64, written: Seq<char>)
    requires
        model.activities.dom().contains(id),
    ensures
        ({
            let (after, told) = model.log_text(id, written);
            let drv_path = model.activities[id].drv_path;
            let line = redaction::clean(model.secrets, written);
            &&& after.transcript == model.transcript.recorded(Some(drv_path), line)
            &&& told.len() == text::lines_from(line, 0).len()
            &&& forall|i: int|
                0 <= i < told.len() ==> #[trigger] told[i] == (Notice::Line {
                    drv_path,
                    line: text::lines_from(line, 0)[i],
                })
        }),
{
}

/// No log line that is told of a build shows a registered secret that shares no character with the
/// stand-in.
pub proof fn law_told_lines_show_no_secret(
    model: ObserverModel,
    id: u64,
    written: Seq<char>,
    k: int,
    i: int,
)
    requires
        0 <= k < model.secrets.len(),
        model.secrets[k].len() > 0,
        forall|j: int|
            0 <= j < model.secrets[k].len() ==> !redaction::stand_in().contains(
                #[trigger] model.secrets[k][j],
            ),
        0 <= i < model.log_text(id, written).1.len(),
    ensures
        model.log_text(id, written).1[i] matches Notice::Line { line, .. } && !text::occurs(
            line,
            model.secrets[k],
        ),
{
    let secret = model.secrets[k];
    let clean = redaction::clean(model.secrets, written);
    let line = text::lines_from(clean, 0)[i];
    redaction::law_clean_text_shows_no_secret(model.secrets, written, k);
    let at = text::lemma_line_within(clean, 0, i);
    if text::occurs(line, secret) {
        text::lemma_occurs_in_part(clean, at, line, secret);
    }
}

/// A progress record of a running transfer that gives two numbers, the second of which is not zero,
/// tells exactly those two numbers of the transfer's derivation, and changes nothing.
pub proof fn law_progress_is_told_as_reported(
    model: ObserverModel,
    line: LogLine,
    done: u64,
    expected: u64,
)
    requires
        line.action@ == "result"@,
        line.kind == RESULT_PROGRESS,
        line.number_at(0) == Some(done),
        line.number_at(1) == Some(expected),
        expected > 0,
        model.activities.dom().contains(line.id),
        model.activities[line.id].running,
        model.activities[line.id].transfer,
    ensures
        model.step(line).0 == model,
        model.step(line).1.len() == 1,
        model.step(line).1[0] == (Notice::Progress {
            drv_path: model.activities[line.id].drv_path,
            done,
            expected,
        }),
{
    reveal_strlit("start");
    reveal_strlit("stop");
    reveal_strlit("result");
    assert("result"@.len() == 6 && "start"@.len() == 5 && "stop"@.len() == 4);
}

/// A build that starts for a derivation that activities can be attributed to runs from then on, under
/// its number and beside all others; that it starts is told where the derivation was idle.
pub proof fn law_builds_start(model: ObserverModel, line: LogLine, drv_path: Seq<char>)
    requires
        line.action@ == "start"@,
        line.kind == ACTIVITY_BUILD,
        line.text_at(0) == Some(drv_path),
        model.known(drv_path),
    ensures
        ({
            let (after, told) = model.step(line);
            &&& after.is_running(drv_path)
            &&& after.activities.dom() == model.activities.dom().insert(line.id)
            &&& after.activities[line.id].drv_path == drv_path
            &&& !after.activities[line.id].transfer
            &&& forall|id: u64|
                id != line.id && #[trigger] model.activities.dom().contains(id)
                    ==> after.activities[id] == model.activities[id]
            &&& told.len() == if model.is_running(drv_path) {
                0nat
            } else {
                1nat
            }
            &&& !model.is_running(drv_path) ==> told[0] == (Notice::Started { drv_path })
            &&& after.results == model.results
            &&& after.outputs == model.outputs
        }),
{
    let (after, told) = model.step(line);
    assert(after.activities.dom().contains(line.id));
    assert(after.activities.dom() =~= model.activities.dom().insert(line.id));
}

/// A transfer of an output path belongs to the derivation that has the output, unless it goes to
/// another machine, which leaves everything as it is.
pub proof fn law_transfers_belong_to_the_derivation_of_their_output(
    model: ObserverModel,
    line: LogLine,
    output: Seq<char>,
)
    requires
        line.action@ == "start"@,
        line.kind == ACTIVITY_COPY_PATH || line.kind == ACTIVITY_SUBSTITUTE,
        line.text_at(0) == Some(output),
        model.outputs.dom().contains(output),
    ensures
        ({
            let (after, told) = model.step(line);
            let abroad = line.kind == ACTIVITY_COPY_PATH && (line.text_at(2) matches Some(uri)
                && is_remote(uri));
            if abroad {
                after == model && told.len() == 0
            } else {
                &&& after.is_running(model.outputs[output])
                &&& after.activities[line.id].drv_path == model.outputs[output]
                &&& after.activities[line.id].transfer
            }
        }),
{
    let (after, told) = model.step(line);
    if after != model {
        assert(after.activities.dom().contains(line.id));
    }
}

/// Stores are remote by their scheme, whatever follows it.
pub proof fn law_remote_stores_have_a_remote_scheme(rest: Seq<char>)
    ensures
        is_remote("ssh://"@ + rest),
        is_remote("ssh-ng://"@ + rest),
        is_remote("s3://"@ + rest),
        is_remote("http://"@ + rest),
        is_remote("https://"@ + rest),
        is_remote("gs://"@ + rest),
        is_remote("file://"@ + rest),
        !is_remote("local"@ + rest),
        !is_remote("daemon"@ + rest),
        !is_remote("/"@ + rest),
{
    text::lemma_starts_itself("ssh://"@, rest);
    text::lemma_starts_itself("ssh-ng://"@, rest);
    text::lemma_starts_itself("s3://"@, rest);
    text::lemma_starts_itself("http://"@, rest);
    text::lemma_starts_itself("https://"@, rest);
    text::lemma_starts_itself("gs://"@, rest);
    text::lemma_starts_itself("file://"@, rest);
    lemma_remote_initial("local"@ + rest);
    lemma_remote_initial("daemon"@ + rest);
    lemma_remote_initial("/"@ + rest);
    reveal_strlit("local");
    reveal_strlit("daemon");
    reveal_strlit("/");
}

/// Every remote scheme starts with one of four letters.
proof fn lemma_remote_initial(uri: Seq<char>)
    ensures
        is_remote(uri) ==> uri.len() > 0 && (uri[0] == 's' || uri[0] == 'h' || uri[0] == 'g'
            || uri[0] == 'f'),
{
    reveal_strlit("ssh://");
    reveal_strlit("ssh-ng://");
    reveal_strlit("s3://");
    reveal_strlit("http://");
    reveal_strlit("https://");
    reveal_strlit("gs://");
    reveal_strlit("file://");
    assert forall|prefix: Seq<char>| prefix.len() > 0 && #[trigger] text::starts(uri, prefix) implies
        uri.len() > 0 && uri[0] == prefix[0] by {
        assert(uri.take(prefix.len() as int)[0] == uri[0]);
    }
}

/// Every output that a report names belongs to the reported derivation from then on, and no other
/// output changes hands.
pub proof fn law_reported_outputs_belong_to_their_derivation(
    outputs: Map<Seq<char>, Seq<char>>,
    built: Seq<BuiltOutput>,
    drv_path: Seq<char>,
)
    ensures
        forall|i: int|
            0 <= i < built.len() ==> {
                let path = store::output_path((#[trigger] built[i]).path@);
                with_outputs(outputs, built, drv_path).dom().contains(path) && with_outputs(
                    outputs,
                    built,
                    drv_path,
                )[path] == drv_path
            },
        forall|path: Seq<char>|
            (forall|i: int| 0 <= i < built.len() ==> store::output_path(built[i].path@) != path)
                ==> (#[trigger] with_outputs(outputs, built, drv_path).dom().contains(path)
                == outputs.dom().contains(path)) && with_outputs(outputs, built, drv_path)[path]
                == outputs[path],
    decreases built.len(),
{
    if built.len() > 0 {
        let front = built.drop_last();
        law_reported_outputs_belong_to_their_derivation(outputs, front, drv_path);
        let after = with_outputs(outputs, built, drv_path);
        assert forall|i: int| 0 <= i < built.len() implies after.dom().contains(
            store::output_path((#[trigger] built[i]).path@),
        ) && after[store::output_path(built[i].path@)] == drv_path by {
            if i < front.len() {
                assert(front[i] == built[i]);
            }
        }
        assert forall|path: Seq<char>|
            (forall|i: int| 0 <= i < built.len() ==> store::output_path(built[i].path@) != path)
            implies (#[trigger] after.dom().contains(path) == outputs.dom().contains(path))
            && after[path] == outputs[path] by {
            assert(store::output_path(built[built.len() - 1].path@) != path);
            assert forall|i: int| 0 <= i < front.len() implies store::output_path(front[i].path@)
                != path by {
                assert(front[i] == built[i]);
            }
            assert(with_outputs(outputs, front, drv_path).dom().contains(path)
                == outputs.dom().contains(path));
        }
    }
}

/// A report of a build that was attributed says once how the derivation settled: a success as Nix
/// calls it, a failure only where a dependency failed.
pub proof fn law_reports_settle_their_derivation(model: ObserverModel, line: LogLine, report: BuildReport)
    requires
        line.action@ == "result"@,
        line.kind == RESULT_BUILD_REPORT,
        line.report == Some(report),
        model.known(store::derivation_path(report.drv_path@)),
    ensures
        ({
            let told = model.step(line).1;
            let drv_path = store::derivation_path(report.drv_path@);
            let status = report.status@;
            &&& told.len() <= 1
            &&& told.len() == 1 ==> (told[0] matches Notice::Finished { drv_path: path, .. }
                && path == drv_path)
            &&& report.success && status == "Built"@ ==> told.contains(
                Notice::Finished { drv_path, state: NodeState::Built },
            )
            &&& report.success && status == "Substituted"@ ==> told.contains(
                Notice::Finished { drv_path, state: NodeState::Substituted },
            )
            &&& report.success && status == "AlreadyValid"@ ==> told.contains(
                Notice::Finished { drv_path, state: NodeState::Cached },
            )
            &&& report.success && status == "ResolvesToAlreadyValid"@ ==> told.contains(
                Notice::Finished { drv_path, state: NodeState::Realized },
            )
            &&& !report.success && status == "DependencyFailed"@ ==> told.contains(
                Notice::Finished { drv_path, state: NodeState::Skipped },
            )
            &&& !report.success && status != "DependencyFailed"@ ==> told.len() == 0
        }),
{
    reveal_strlit("start");
    reveal_strlit("stop");
    reveal_strlit("result");
    reveal_strlit("Built");
    reveal_strlit("Substituted");
    reveal_strlit("AlreadyValid");
    reveal_strlit("ResolvesToAlreadyValid");
    assert("result"@.len() == 6 && "start"@.len() == 5 && "stop"@.len() == 4);
    assert("Built"@.len() == 5 && "Substituted"@.len() == 11 && "AlreadyValid"@.len() == 12
        && "ResolvesToAlreadyValid"@.len() == 22);
    let told = model.step(line).1;
    if told.len() > 0 {
        assert(told.contains(told[0]));
    }
}

/// A log text of an attributed build that holds nothing to replace stands, behind the derivation's
/// name, at the end of the log, as long as the log is not over-long.
pub proof fn law_log_texts_are_recorded_as_written(
    model: ObserverModel,
    line: LogLine,
    written: Seq<char>,
)
    requires
        line.action@ == "result"@,
        line.kind == RESULT_BUILD_LOG_LINE || line.kind == RESULT_POST_BUILD_LOG_LINE,
        line.text_at(0) == Some(written),
        written.len() > 0,
        redaction::clean(model.secrets, written) == written,
        model.activities.dom().contains(line.id),
        model.transcript.whole.bounded(),
        !model.transcript.whole.truncated,
        model.transcript.whole.text().len() + text::byte_count(
            store::build_label(model.activities[line.id].drv_path) + "> "@ + written + "\n"@,
        ) <= model.transcript.whole.limit,
    ensures
        model.step(line).0.transcript.whole.text() == model.transcript.whole.text()
            + vstd::utf8::encode_utf8(
            store::build_label(model.activities[line.id].drv_path) + "> "@ + written + "\n"@,
        ),
{
    reveal_strlit("start");
    reveal_strlit("stop");
    reveal_strlit("result");
    assert("result"@.len() == 6 && "start"@.len() == 5 && "stop"@.len() == 4);
    let drv_path = model.activities[line.id].drv_path;
    let bytes = crate::transcript::log_bytes(Some(drv_path), written);
    crate::excerpt::law_short_logs_are_kept_whole(model.transcript.whole, bytes);
}

proof fn lemma_unindented(indent: Seq<u8>, rest: Seq<u8>)
    requires
        forall|i: int| 0 <= i < indent.len() ==> is_space(#[trigger] indent[i]),
        rest.len() > 0 ==> !is_space(rest[0]),
    ensures
        unindented(indent + rest) == rest,
    decreases indent.len(),
{
    if indent.len() == 0 {
        assert(indent + rest =~= rest);
    } else {
        assert((indent + rest)[0] == indent[0]);
        assert((indent + rest).drop_first() =~= indent.drop_first() + rest);
        assert forall|i: int| 0 <= i < indent.drop_first().len() implies is_space(
            #[trigger] indent.drop_first()[i],
        ) by {
            assert(is_space(indent[i + 1]));
        }
        lemma_unindented(indent.drop_first(), rest);
    }
}

/// A record is what stands behind its mark, however far the mark is indented; a line that does not
/// begin with the mark behind its indentation is no record.
pub proof fn law_records_stand_behind_their_mark(indent: Seq<u8>, rest: Seq<u8>)
    requires
        forall|i: int|
            0 <= i < indent.len() ==> #[trigger] indent[i] == 32 || indent[i] == 9 || indent[i]
                == 10 || indent[i] == 12 || indent[i] == 13,
    ensures
        record_of(indent + seq![64u8, 110u8, 105u8, 120u8, 32u8] + rest) == Some(rest),
        rest.len() > 0 && !is_space(rest[0]) && !(rest.len() >= 5 && rest.take(5) == seq![
            64u8,
            110u8,
            105u8,
            120u8,
            32u8,
        ]) ==> record_of(indent + rest) is None,
        record_of(indent) is None,
{
    let mark = seq![64u8, 110u8, 105u8, 120u8, 32u8];
    assert forall|i: int| 0 <= i < indent.len() implies is_space(#[trigger] indent[i]) by {}
    lemma_unindented(indent, mark + rest);
    assert(indent + mark + rest =~= indent + (mark + rest));
    assert((mark + rest).take(5) =~= mark);
    assert((mark + rest).skip(5) =~= rest);
    if rest.len() > 0 && !is_space(rest[0]) {
        lemma_unindented(indent, rest);
    }
    lemma_unindented(indent, Seq::empty());
    assert(indent + Seq::<u8>::empty() =~= indent);
}

/// A field is read as what it is, at its position.
pub proof fn law_fields_are_read_by_position(line: LogLine, index: int)
    ensures
        0 <= index < line.fields@.len() ==> match line.fields@[index] {
            Field::Text(text) => line.text_at(index) == Some(text@) && line.number_at(index) is None,
            Field::Number(number) => line.number_at(index) == Some(number) && line.text_at(
                index,
            ) is None,
            Field::Other => line.text_at(index) is None && line.number_at(index) is None,
        },
        index >= line.fields@.len() ==> line.text_at(index) is None && line.number_at(index)
            is None,
{
}

/// What is told of a derivation is what the event for it says.
pub proof fn law_notices_say_what_events_say(
    events: Seq<ProgressEvent>,
    i: int,
    drv_path: String,
    line: String,
    done: u64,
    expected: u64,
    state: NodeState,
)
    requires
        0 <= i < events.len(),
    ensures
        notices(events).len() == events.len(),
        events[i] == (ProgressEvent::NodeProgress { drv_path, done, expected }) ==> notices(
            events,
        )[i] == (Notice::Progress { drv_path: drv_path@, done, expected }),
        events[i] == (ProgressEvent::NodeLogLine { drv_path, line }) ==> notices(events)[i] == (
        Notice::Line { drv_path: drv_path@, line: line@ }),
        events[i] == (ProgressEvent::NodeFinished { drv_path, state }) ==> notices(events)[i] == (
        Notice::Finished { drv_path: drv_path@, state }),
        events[i] == (ProgressEvent::NodeProvisionalFinished { drv_path, state }) ==> notices(
            events,
        )[i] == (Notice::Provisional { drv_path: drv_path@, state }),
        events[i] == (ProgressEvent::NodeStarted { drv_path }) ==> notices(events)[i] == (
        Notice::Started { drv_path: drv_path@ }),
        events[i] == (ProgressEvent::NodeActivityStopped { drv_path }) ==> notices(events)[i] == (
        Notice::Stopped { drv_path: drv_path@ }),
{
}

/// The same notice comes of no two different events on a derivation.
pub proof fn law_events_are_told_apart(a: ProgressEvent, b: ProgressEvent)
    requires
        notice_of(a) == notice_of(b),
        !(notice_of(a) is Other),
    ensures
        match (a, b) {
            (
                ProgressEvent::NodeStarted { drv_path: x },
                ProgressEvent::NodeStarted { drv_path: y },
            ) => x@ == y@,
            (
                ProgressEvent::NodeActivityStopped { drv_path: x },
                ProgressEvent::NodeActivityStopped { drv_path: y },
            ) => x@ == y@,
            (
                ProgressEvent::NodeProvisionalFinished { drv_path: x, state: s },
                ProgressEvent::NodeProvisionalFinished { drv_path: y, state: t },
            ) => x@ == y@ && s == t,
            (
                ProgressEvent::NodeLogLine { drv_path: x, line: s },
                ProgressEvent::NodeLogLine { drv_path: y, line: t },
            ) => x@ == y@ && s@ == t@,
            (
                ProgressEvent::NodeProgress { drv_path: x, done: d, expected: e },
                ProgressEvent::NodeProgress { drv_path: y, done: f, expected: g },
            ) => x@ == y@ && d == f && e == g,
            (
                ProgressEvent::NodeFinished { drv_path: x, state: s },
                ProgressEvent::NodeFinished { drv_path: y, state: t },
            ) => x@ == y@ && s == t,
            _ => false,
        },
{
}

/// Activities can be attributed to the derivations that were asked for and to any derivation in the
/// store; a build of anything else leaves everything as it is.
pub proof fn law_unknown_builds_are_ignored(
    model: ObserverModel,
    line: LogLine,
    subject: Seq<char>,
)
    requires
        line.action@ == "start"@,
        line.kind == ACTIVITY_BUILD,
        line.text_at(0) == Some(subject),
    ensures
        model.step(line).0 != model || model.step(line).1.len() > 0 ==> model.derivations.contains(
            subject,
        ) || store::is_store_derivation(subject),
        model.derivations.contains(subject) ==> model.known(subject),
        store::is_store_derivation(subject) ==> model.known(subject),
{
}

/// A transfer of a path that belongs to no derivation belongs to that of the activity that caused
/// it, stopped or not, and to none where nothing is known of that one.
pub proof fn law_transfers_belong_to_their_cause(
    model: ObserverModel,
    line: LogLine,
    subject: Seq<char>,
)
    requires
        line.action@ == "start"@,
        line.kind == ACTIVITY_SUBSTITUTE || (line.kind == ACTIVITY_COPY_PATH && line.text_at(2)
            is None),
        line.text_at(0) == Some(subject),
        !model.outputs.dom().contains(subject),
    ensures
        ({
            let (after, told) = model.step(line);
            if model.activities.dom().contains(line.parent) {
                let cause = model.activities[line.parent].drv_path;
                &&& after.activities.dom().contains(line.id)
                &&& after.activities[line.id].drv_path == cause
                &&& after.activities[line.id].transfer
                &&& after.activities[line.id].running
            } else {
                after == model && told.len() == 0
            }
        }),
{
}

/// Only an activity that runs can stop. A build that stops is noted as one, a transfer is not, and
/// that the derivation stopped, and that it seems built once a build of it stopped, is told with its
/// last activity.
pub proof fn law_stops_are_told_with_the_last_activity(model: ObserverModel, line: LogLine)
    requires
        line.action@ == "stop"@,
    ensures
        ({
            let (after, told) = model.step(line);
            let runs = model.activities.dom().contains(line.id)
                && model.activities[line.id].running;
            &&& !runs ==> after == model && told.len() == 0
            &&& runs ==> {
                let activity = model.activities[line.id];
                let path = activity.drv_path;
                &&& !after.activities[line.id].running
                &&& after.activities[line.id].drv_path == path
                &&& after.activities[line.id].transfer == activity.transfer
                &&& forall|id: u64|
                    id != line.id && #[trigger] model.activities.dom().contains(id)
                        ==> after.activities[id] == model.activities[id]
                &&& after.built.contains(path) <==> model.built.contains(path)
                    || !activity.transfer
                &&& activity.transfer ==> after.results == model.results
                &&& !activity.transfer ==> after.results == model.results.stop(path)
                &&& after.is_running(path) ==> told.len() == 0
                &&& !after.is_running(path) ==> told.len() == if after.built.contains(path) {
                    2nat
                } else {
                    1nat
                } && told[0] == (Notice::Stopped { drv_path: path }) && (after.built.contains(path)
                    ==> told[1] == (Notice::Provisional {
                    drv_path: path,
                    state: NodeState::Built,
                }))
            }
            &&& after.transcript == model.transcript
            &&& after.outputs == model.outputs
        }),
{
    reveal_strlit("start");
    reveal_strlit("stop");
    assert("start"@.len() == 5 && "stop"@.len() == 4);
}

/// A message is recorded as what no derivation wrote, without noise and secrets, and nothing is told
/// of it; so is a log text of an activity that belongs to none.
#[verifier::rlimit(40)]
pub proof fn law_messages_belong_to_no_derivation(
    model: ObserverModel,
    line: LogLine,
    written: Seq<char>,
)
    requires
        (line.action@ == "msg"@ && line.msg@ == written) || (line.action@ == "result"@ && (
        line.kind == RESULT_BUILD_LOG_LINE || line.kind == RESULT_POST_BUILD_LOG_LINE)
            && line.text_at(0) == Some(written) && !model.activities.dom().contains(line.id)),
    ensures
        ({
            let (after, told) = model.step(line);
            &&& told.len() == 0
            &&& after == (ObserverModel {
                transcript: model.transcript.recorded(
                    None,
                    redaction::clean(model.secrets, written),
                ),
                ..model
            })
            &&& after.transcript.nodes == model.transcript.nodes
        }),
{
    reveal_strlit("start");
    reveal_strlit("stop");
    reveal_strlit("result");
    reveal_strlit("msg");
    assert("result"@.len() == 6 && "start"@.len() == 5 && "stop"@.len() == 4 && "msg"@.len() == 3);
}

/// A record of any other action says nothing.
pub proof fn law_other_records_say_nothing(model: ObserverModel, line: LogLine)
    requires
        line.action@ != "start"@ && line.action@ != "stop"@ && line.action@ != "result"@
            && line.action@ != "msg"@,
    ensures
        model.step(line).0 == model,
        model.step(line).1.len() == 0,
{
}

/// An output path that one of the derivations asked for has, and no other, belongs to that one; one
/// that none has belongs to none.
pub proof fn law_outputs_belong_to_those_who_have_them(
    nodes: Map<Seq<char>, NodeModel>,
    derivations: Set<Seq<char>>,
    outputs: Map<Seq<char>, Seq<char>>,
    drv_path: Seq<char>,
    name: Seq<char>,
    output: Seq<char>,
)
    requires
        attributes(nodes, derivations, outputs),
    ensures
        derivations.contains(drv_path) && nodes.dom().contains(drv_path)
            && nodes[drv_path].outputs.dom().contains(name) && nodes[drv_path].outputs[name]
            == Some(output) ==> outputs.dom().contains(output) && (outputs[output] == drv_path
            || text::precedes(drv_path, outputs[output])),
        outputs.dom().contains(output) ==> derivations.contains(outputs[output])
            && nodes.dom().contains(outputs[output]) && exists|held: Seq<char>| #[trigger]
            nodes[outputs[output]].outputs.dom().contains(held)
                && nodes[outputs[output]].outputs[held] == Some(output),
{
    if derivations.contains(drv_path) && nodes.dom().contains(drv_path)
        && nodes[drv_path].outputs.dom().contains(name) && nodes[drv_path].outputs[name] == Some(
        output,
    ) {
        assert(owns(nodes, derivations, drv_path, output));
        assert(outputs.dom().contains(output));
    }
    if outputs.dom().contains(output) {
        assert(owns(nodes, derivations, outputs[output], output));
    }
}

} // verus!
