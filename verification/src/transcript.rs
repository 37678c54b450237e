//! The plain-text logs of one realization: all of it, what derivations wrote, and the rest.

use vstd::prelude::*;

use crate::excerpt::{BoundedLog, LogModel};
use crate::ordered::StringMap;
use crate::store;
use crate::text;

verus! {

/// The bytes that one log text adds to a plain-text log. Text that a derivation wrote is prefixed
/// with its name, the way plain build output prefixes interleaved lines.
pub open spec fn log_bytes(source: Option<Seq<char>>, line: Seq<char>) -> Seq<u8> {
    vstd::utf8::encode_utf8(
        match source {
            Some(drv_path) => store::build_label(drv_path) + "> "@ + line + "\n"@,
            None => line + "\n"@,
        },
    )
}

/// Everything a transcript holds.
#[verifier::ext_equal]
pub struct TranscriptModel {
    /// The number of bytes that each log may hold.
    pub limit: nat,
    /// Everything that was recorded.
    pub whole: LogModel,
    /// What no derivation wrote.
    pub context: LogModel,
    /// What each derivation wrote that was ever active.
    pub nodes: Map<Seq<char>, LogModel>,
}

impl TranscriptModel {
    /// The transcript before anything was recorded.
    pub open spec fn new(limit: nat) -> TranscriptModel {
        TranscriptModel {
            limit,
            whole: LogModel::new(limit),
            context: LogModel::new(limit),
            nodes: Map::empty(),
        }
    }

    /// The transcript with a log for a derivation.
    pub open spec fn opened(self, drv_path: Seq<char>) -> TranscriptModel {
        if self.nodes.dom().contains(drv_path) {
            self
        } else {
            TranscriptModel {
                nodes: self.nodes.insert(drv_path, LogModel::new(self.limit)),
                ..self
            }
        }
    }

    /// The transcript with one more text, which goes either to its derivation or to the context.
    pub open spec fn recorded(self, source: Option<Seq<char>>, line: Seq<char>) -> TranscriptModel {
        let bytes = log_bytes(source, line);
        if line.len() == 0 {
            self
        } else {
            match source {
                None => TranscriptModel {
                    whole: self.whole.pushed(bytes),
                    context: self.context.pushed(bytes),
                    ..self
                },
                Some(drv_path) => {
                    let opened = self.opened(drv_path);
                    TranscriptModel {
                        whole: self.whole.pushed(bytes),
                        nodes: opened.nodes.insert(drv_path, opened.nodes[drv_path].pushed(bytes)),
                        ..self
                    }
                },
            }
        }
    }

    /// Every log is within its limit.
    pub open spec fn bounded(self) -> bool {
        &&& self.whole.bounded()
        &&& self.whole.limit == self.limit
        &&& self.context.bounded()
        &&& self.context.limit == self.limit
        &&& forall|drv_path: Seq<char>| #[trigger]
            self.nodes.dom().contains(drv_path) ==> self.nodes[drv_path].bounded()
                && self.nodes[drv_path].limit == self.limit
    }
}

/// What logs say.
spec fn log_models(logs: Map<Seq<char>, BoundedLog>) -> Map<Seq<char>, LogModel> {
    Map::new(|path: Seq<char>| logs.dom().contains(path), |path: Seq<char>| logs[path].model())
}

/// The plain-text logs of one realization.
#[derive(Debug, PartialEq, Eq)]
pub struct Transcript {
    limit: usize,
    whole: BoundedLog,
    context: BoundedLog,
    nodes: StringMap<BoundedLog>,
}

impl Transcript {
    /// Everything the transcript holds.
    pub closed spec fn model(&self) -> TranscriptModel {
        TranscriptModel {
            limit: self.limit as nat,
            whole: self.whole.model(),
            context: self.context.model(),
            nodes: log_models(self.nodes@),
        }
    }

    /// The logs are filed in order, and each is within its limit.
    pub closed spec fn wf(&self) -> bool {
        &&& self.nodes.wf()
        &&& self.model().bounded()
    }

    /// Creates a transcript whose logs hold at most `limit` bytes each.
    pub fn new(limit: usize) -> (result: Self)
        ensures
            result.wf(),
            result.model() == TranscriptModel::new(limit as nat),
    {
        let result = Transcript {
            limit,
            whole: BoundedLog::new(limit),
            context: BoundedLog::new(limit),
            nodes: StringMap::new(),
        };
        assert(result.model().nodes =~= Map::<Seq<char>, LogModel>::empty());
        result
    }

    /// Gives a derivation a log.
    pub fn open(&mut self, drv_path: &str)
        requires
            old(self).wf(),
        ensures
            final(self).wf(),
            final(self).model() == old(self).model().opened(drv_path@),
    {
        let ghost model = self.model();
        if !self.nodes.contains_key(drv_path) {
            let ghost before = self.nodes@;
            let log = BoundedLog::new(self.limit);
            self.nodes.insert(drv_path.to_owned(), log);
            assert(log_models(self.nodes@) =~= log_models(before).insert(drv_path@, log.model()));
            proof {
                lemma_opened(model, drv_path@);
            }
        }
    }

    /// Records one log text, which goes either to its derivation or to the context.
    pub fn record(&mut self, source: Option<&str>, line: &str)
        requires
            old(self).wf(),
        ensures
            final(self).wf(),
            final(self).model() == old(self).model().recorded(
                match source {
                    Some(drv_path) => Some(drv_path@),
                    None => None,
                },
                line@,
            ),
    {
        if line.is_empty() {
            return;
        }
        let ghost model = self.model();
        match source {
            None => {
                let entry = text::cat2(line, "\n");
                let bytes = entry.as_str().as_bytes();
                self.whole.push(bytes);
                self.context.push(bytes);
                assert(self.model() =~= model.recorded(None, line@));
                proof {
                    law_transcripts_stay_bounded(model, None, line@);
                }
            },
            Some(drv_path) => {
                let label = store::derivation_build_label(drv_path);
                let entry = text::cat4(label.as_str(), "> ", line, "\n");
                let bytes = entry.as_str().as_bytes();
                self.open(drv_path);
                let ghost opened = self.model();
                self.whole.push(bytes);
                if let Some(at) = self.nodes.position(drv_path) {
                    let ghost before = self.nodes@;
                    assert(opened.nodes.dom().contains(drv_path@));
                    let log = self.nodes.value_at_mut(at);
                    log.push(bytes);
                    proof {
                        assert(log_models(self.nodes@) =~= log_models(before).insert(
                            drv_path@,
                            log_models(before)[drv_path@].pushed(bytes@),
                        ));
                    }
                }
                assert(self.model() =~= model.recorded(Some(drv_path@), line@));
                proof {
                    law_transcripts_stay_bounded(model, Some(drv_path@), line@);
                }
            },
        }
    }

    /// Empties the log of everything, and returns it and whether anything was dropped from it.
    pub fn take(&mut self) -> (result: (Vec<u8>, bool))
        requires
            old(self).wf(),
        ensures
            final(self).wf(),
            result.0@ == old(self).model().whole.text(),
            result.1 == old(self).model().whole.truncated,
            result.0@.len() <= old(self).model().limit,
            final(self).model() == (TranscriptModel {
                whole: LogModel::new(old(self).model().limit),
                ..old(self).model()
            }),
    {
        self.whole.take()
    }

    /// Empties the log of what no derivation wrote, and returns it and whether anything was dropped
    /// from it.
    pub fn take_context(&mut self) -> (result: (Vec<u8>, bool))
        requires
            old(self).wf(),
        ensures
            final(self).wf(),
            result.0@ == old(self).model().context.text(),
            result.1 == old(self).model().context.truncated,
            result.0@.len() <= old(self).model().limit,
            final(self).model() == (TranscriptModel {
                context: LogModel::new(old(self).model().limit),
                ..old(self).model()
            }),
    {
        self.context.take()
    }

    /// Empties the log of a derivation, and returns it and whether anything was dropped from it. A
    /// derivation that was never active has none.
    pub fn take_node(&mut self, drv_path: &str) -> (result: Option<(Vec<u8>, bool)>)
        requires
            old(self).wf(),
        ensures
            final(self).wf(),
            match result {
                Some((text, truncated)) => {
                    &&& old(self).model().nodes.dom().contains(drv_path@)
                    &&& text@ == old(self).model().nodes[drv_path@].text()
                    &&& truncated == old(self).model().nodes[drv_path@].truncated
                    &&& text@.len() <= old(self).model().limit
                    &&& final(self).model() == (TranscriptModel {
                        nodes: old(self).model().nodes.insert(
                            drv_path@,
                            LogModel::new(old(self).model().limit),
                        ),
                        ..old(self).model()
                    })
                },
                None => {
                    &&& !old(self).model().nodes.dom().contains(drv_path@)
                    &&& final(self).model() == old(self).model()
                },
            },
    {
        match self.nodes.position(drv_path) {
            None => None,
            Some(at) => {
                let ghost before = self.nodes@;
                let ghost model = self.model();
                assert(model.nodes.dom().contains(drv_path@));
                let log = self.nodes.value_at_mut(at);
                let taken = log.take();
                proof {
                    assert(log_models(self.nodes@) =~= log_models(before).insert(
                        drv_path@,
                        LogModel::new(model.limit),
                    ));
                }
                Some(taken)
            },
        }
    }
}

/// A new log is within its limit.
proof fn lemma_opened(transcript: TranscriptModel, drv_path: Seq<char>)
    requires
        transcript.bounded(),
    ensures
        transcript.opened(drv_path).bounded(),
{
    let opened = transcript.opened(drv_path);
    assert forall|path: Seq<char>| #[trigger] opened.nodes.dom().contains(path) implies
        opened.nodes[path].bounded() && opened.nodes[path].limit == opened.limit by {
        if path != drv_path {
            assert(transcript.nodes.dom().contains(path));
        }
    }
}

/// Recording keeps every log within its limit.
pub proof fn law_transcripts_stay_bounded(
    transcript: TranscriptModel,
    source: Option<Seq<char>>,
    line: Seq<char>,
)
    requires
        transcript.bounded(),
    ensures
        transcript.recorded(source, line).bounded(),
{
    let bytes = log_bytes(source, line);
    crate::excerpt::law_logs_stay_bounded(transcript.whole, bytes);
    crate::excerpt::law_logs_stay_bounded(transcript.context, bytes);
    crate::excerpt::law_logs_stay_bounded(LogModel::new(transcript.limit), bytes);
    if let Some(drv_path) = source {
        let opened = transcript.opened(drv_path);
        assert(opened.nodes.dom().contains(drv_path));
        crate::excerpt::law_logs_stay_bounded(opened.nodes[drv_path], bytes);
        assert forall|path: Seq<char>| #[trigger]
            transcript.recorded(source, line).nodes.dom().contains(path) implies
            transcript.recorded(source, line).nodes[path].bounded()
            && transcript.recorded(source, line).nodes[path].limit == transcript.limit by {
            if path != drv_path && line.len() > 0 {
                assert(transcript.nodes.dom().contains(path));
            }
        }
    }
}

/// What a derivation writes stays out of the context and of the logs of other derivations, and what
/// none writes stays out of all of theirs.
pub proof fn law_texts_go_to_their_source(
    transcript: TranscriptModel,
    source: Option<Seq<char>>,
    line: Seq<char>,
    other: Seq<char>,
)
    requires
        source != Some(other),
    ensures
        source is Some ==> transcript.recorded(source, line).context == transcript.context,
        transcript.recorded(source, line).nodes.dom().contains(other)
            == transcript.nodes.dom().contains(other),
        transcript.nodes.dom().contains(other) ==> transcript.recorded(source, line).nodes[other]
            == transcript.nodes[other],
{
}

/// What is recorded is the text itself with a line end behind it, and in front of it the name of
/// the derivation that wrote it, where one did.
pub proof fn law_texts_are_recorded_in_full(source: Option<Seq<char>>, line: Seq<char>)
    ensures
        match source {
            None => log_bytes(source, line) == vstd::utf8::encode_utf8(line)
                + vstd::utf8::encode_utf8("\n"@),
            Some(drv_path) => log_bytes(source, line) == vstd::utf8::encode_utf8(
                store::build_label(drv_path),
            ) + vstd::utf8::encode_utf8("> "@) + vstd::utf8::encode_utf8(line)
                + vstd::utf8::encode_utf8("\n"@),
        },
{
    text::lemma_encoding_adds(line, "\n"@);
    if let Some(drv_path) = source {
        let label = store::build_label(drv_path);
        text::lemma_encoding_adds(label, "> "@);
        text::lemma_encoding_adds(label + "> "@, line);
        text::lemma_encoding_adds(label + "> "@ + line, "\n"@);
    }
}

/// While a log has room, a text that is recorded stands behind what it held before: in the log of
/// everything, and in that of its derivation, or in the context where none wrote it. An empty text
/// is not recorded.
pub proof fn law_recorded_texts_are_kept(
    transcript: TranscriptModel,
    source: Option<Seq<char>>,
    line: Seq<char>,
)
    requires
        transcript.bounded(),
    ensures
        ({
            let after = transcript.recorded(source, line);
            let bytes = log_bytes(source, line);
            &&& line.len() == 0 ==> after == transcript
            &&& line.len() > 0 && !transcript.whole.truncated && transcript.whole.text().len()
                + bytes.len() <= transcript.limit ==> after.whole.text() == transcript.whole.text()
                + bytes
            &&& line.len() > 0 && source is None && !transcript.context.truncated
                && transcript.context.text().len() + bytes.len() <= transcript.limit
                ==> after.context.text() == transcript.context.text() + bytes
            &&& source matches Some(drv_path) ==> {
                &&& line.len() > 0 ==> after.nodes.dom().contains(drv_path)
                &&& line.len() > 0 && transcript.nodes.dom().contains(drv_path)
                    && !transcript.nodes[drv_path].truncated
                    && transcript.nodes[drv_path].text().len() + bytes.len() <= transcript.limit
                    ==> after.nodes[drv_path].text() == transcript.nodes[drv_path].text() + bytes
                &&& line.len() > 0 && !transcript.nodes.dom().contains(drv_path) && bytes.len()
                    <= transcript.limit ==> after.nodes[drv_path].text() == bytes
            }
        }),
{
    let bytes = log_bytes(source, line);
    if !transcript.whole.truncated && transcript.whole.text().len() + bytes.len()
        <= transcript.limit {
        crate::excerpt::law_short_logs_are_kept_whole(transcript.whole, bytes);
    }
    if !transcript.context.truncated && transcript.context.text().len() + bytes.len()
        <= transcript.limit {
        crate::excerpt::law_short_logs_are_kept_whole(transcript.context, bytes);
    }
    if let Some(drv_path) = source {
        let empty = LogModel::new(transcript.limit);
        assert(empty.head + empty.tail =~= Seq::<u8>::empty());
        if transcript.nodes.dom().contains(drv_path) {
            let log = transcript.nodes[drv_path];
            if !log.truncated && log.text().len() + bytes.len() <= transcript.limit {
                crate::excerpt::law_short_logs_are_kept_whole(log, bytes);
            }
        } else if bytes.len() <= transcript.limit {
            crate::excerpt::law_short_logs_are_kept_whole(empty, bytes);
            assert(empty.text() + bytes =~= bytes);
        }
    }
}

} // verus!
