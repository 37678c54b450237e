//! What Nix reports of builds, and which of it can be relied on.

use std::sync::Arc;

use vstd::prelude::*;

use crate::model::{DerivationNode, NodeModel, NodeState};
use crate::ordered::{StringMap, StringSet};
use crate::store;
use crate::text;

verus! {

/// One output that a build produced.
#[derive(Debug, PartialEq, Eq)]
pub struct BuiltOutput {
    /// Output name.
    pub name: String,
    /// Output path, in full or store-relative.
    pub path: String,
}

/// How one build ended, as far as Nix reports it.
#[derive(Debug, PartialEq, Eq)]
pub struct BuildReport {
    /// Whether the build succeeded.
    pub success: bool,
    /// What Nix calls the outcome.
    pub status: String,
    /// Derivation path, in full or store-relative.
    pub drv_path: String,
    /// Names of the outputs that were asked for; `*` asks for all.
    pub requested: Vec<String>,
    /// The outputs that were produced.
    pub outputs: Vec<BuiltOutput>,
}

/// The settled state that a report says, where it says one.
pub open spec fn reported_state(report: BuildReport) -> Option<NodeState> {
    if report.success {
        if report.status@ == "Built"@ {
            Some(NodeState::Built)
        } else if report.status@ == "Substituted"@ {
            Some(NodeState::Substituted)
        } else if report.status@ == "AlreadyValid"@ {
            Some(NodeState::Cached)
        } else if report.status@ == "ResolvesToAlreadyValid"@ {
            Some(NodeState::Realized)
        } else {
            None
        }
    } else if report.status@ == "DependencyFailed"@ {
        Some(NodeState::Skipped)
    } else {
        None
    }
}

/// Returns the settled state that a report says, where it says one.
pub fn report_state(report: &BuildReport) -> (result: Option<NodeState>)
    ensures
        result == reported_state(*report),
{
    let status = report.status.as_str();
    if report.success {
        if text::same(status, "Built") {
            Some(NodeState::Built)
        } else if text::same(status, "Substituted") {
            Some(NodeState::Substituted)
        } else if text::same(status, "AlreadyValid") {
            Some(NodeState::Cached)
        } else if text::same(status, "ResolvesToAlreadyValid") {
            Some(NodeState::Realized)
        } else {
            None
        }
    } else if text::same(status, "DependencyFailed") {
        Some(NodeState::Skipped)
    } else {
        None
    }
}

/// The paths of produced outputs by name.
pub open spec fn built(outputs: Seq<BuiltOutput>) -> Map<Seq<char>, Seq<char>>
    decreases outputs.len(),
{
    if outputs.len() == 0 {
        Map::empty()
    } else {
        built(outputs.drop_last()).insert(
            outputs.last().name@,
            store::output_path(outputs.last().path@),
        )
    }
}

/// The bytes that produced outputs take, by name and path.
pub open spec fn output_bytes(outputs: Seq<BuiltOutput>) -> nat
    decreases outputs.len(),
{
    if outputs.len() == 0 {
        0
    } else {
        output_bytes(outputs.drop_last()) + text::byte_count(outputs.last().name@)
            + text::byte_count(store::output_path(outputs.last().path@))
    }
}

/// Every output is in the store.
pub open spec fn trusted(outputs: Map<Seq<char>, Seq<char>>) -> bool {
    forall|name: Seq<char>| #[trigger]
        outputs.dom().contains(name) ==> store::is_store_output(outputs[name])
}

/// The derivation has every output, at the path where that is known beforehand.
pub open spec fn agrees(node: NodeModel, outputs: Map<Seq<char>, Seq<char>>) -> bool {
    forall|name: Seq<char>| #[trigger]
        outputs.dom().contains(name) ==> node.outputs.dom().contains(name) && (
        node.outputs[name] matches Some(path) ==> path == outputs[name])
}

/// Outputs were asked for, and every one of them was produced.
pub open spec fn complete(requested: Seq<String>, outputs: Map<Seq<char>, Seq<char>>) -> bool {
    &&& requested.len() > 0
    &&& forall|i: int|
        0 <= i < requested.len() ==> (#[trigger] requested[i])@ == "*"@ || outputs.dom().contains(
            requested[i]@,
        )
}

/// How much may still be kept of what the caller did not ask for.
#[derive(Clone, Copy, Debug, PartialEq, Eq, Structural)]
pub struct Budget {
    /// Number of entries.
    pub entries: usize,
    /// Bytes of all entries together.
    pub bytes: usize,
}

impl Budget {
    /// One more entry of `size` bytes may be kept.
    pub open spec fn admits(self, size: nat) -> bool {
        self.entries > 0 && size <= self.bytes
    }

    /// What is left after an entry of `size` bytes.
    pub open spec fn charged(self, size: nat) -> Budget {
        Budget {
            entries: (self.entries - 1) as usize,
            bytes: (self.bytes - size) as usize,
        }
    }
}

/// What a confirmed build came to.
#[verifier::ext_equal]
pub struct ResultModel {
    /// Settled state.
    pub state: NodeState,
    /// Output paths by name.
    pub outputs: Map<Seq<char>, Seq<char>>,
}

/// A build that Nix confirmed.
#[derive(Debug, PartialEq, Eq)]
pub struct ConfirmedResult {
    /// Settled state.
    pub state: NodeState,
    /// Output paths by name.
    pub outputs: StringMap<String>,
}

impl DeepView for ConfirmedResult {
    type V = ResultModel;

    open spec fn deep_view(&self) -> ResultModel {
        ResultModel { state: self.state, outputs: self.outputs.deep_view() }
    }
}

/// What is known of builds.
#[verifier::ext_equal]
pub struct ResultsModel {
    /// The derivations whose outputs are declared.
    pub declared: Map<Seq<char>, NodeModel>,
    /// The confirmed builds.
    pub confirmed: Map<Seq<char>, ResultModel>,
    /// The derivations of which contradictory or untrusted results were reported.
    pub rejected: Set<Seq<char>>,
    /// The derivations of which a build stopped.
    pub stopped: Set<Seq<char>>,
    /// What may still be kept of undeclared derivations.
    pub results_left: Budget,
    /// What may still be kept of stopped builds.
    pub stops_left: Budget,
}

impl ResultsModel {
    /// What is known before anything was reported.
    pub open spec fn new() -> ResultsModel {
        ResultsModel {
            declared: Map::empty(),
            confirmed: Map::empty(),
            rejected: Set::empty(),
            stopped: Set::empty(),
            results_left: Budget { entries: 0, bytes: 0 },
            stops_left: Budget { entries: 0, bytes: 0 },
        }
    }

    /// A result was reported of a derivation. A result that repeats is kept; one that contradicts
    /// an earlier one, or that is not acceptable, rejects the derivation for good.
    pub open spec fn judged(
        self,
        drv_path: Seq<char>,
        result: ResultModel,
        acceptable: bool,
    ) -> ResultsModel {
        if self.rejected.contains(drv_path) {
            self
        } else if acceptable && (self.confirmed.dom().contains(drv_path)
            ==> self.confirmed[drv_path] == result) {
            ResultsModel { confirmed: self.confirmed.insert(drv_path, result), ..self }
        } else {
            ResultsModel {
                confirmed: self.confirmed.remove(drv_path),
                rejected: self.rejected.insert(drv_path),
                ..self
            }
        }
    }

    /// Nix reported how a build ended. Only a success that names outputs says anything. A declared
    /// derivation must have produced what it declares. An undeclared one must have produced
    /// everything it was asked for, and is kept only within the budget.
    pub open spec fn reported(self, report: BuildReport) -> ResultsModel {
        let drv_path = store::derivation_path(report.drv_path@);
        let outputs = built(report.outputs@);
        let size = text::byte_count(drv_path) + output_bytes(report.outputs@);
        match reported_state(report) {
            None => self,
            Some(state) => {
                let result = ResultModel { state, outputs };
                if !report.success || report.outputs@.len() == 0 {
                    self
                } else if self.declared.dom().contains(drv_path) {
                    self.judged(
                        drv_path,
                        result,
                        trusted(outputs) && agrees(self.declared[drv_path], outputs),
                    )
                } else if !store::is_store_derivation(drv_path) || !complete(
                    report.requested@,
                    outputs,
                ) {
                    self
                } else if self.confirmed.dom().contains(drv_path) || self.rejected.contains(
                    drv_path,
                ) {
                    self.judged(drv_path, result, trusted(outputs))
                } else if trusted(outputs) && self.results_left.admits(size) {
                    ResultsModel {
                        confirmed: self.confirmed.insert(drv_path, result),
                        results_left: self.results_left.charged(size),
                        ..self
                    }
                } else {
                    self
                }
            },
        }
    }

    /// A build stopped, which may or may not have succeeded.
    pub open spec fn stop(self, drv_path: Seq<char>) -> ResultsModel {
        if self.stopped.contains(drv_path) || !self.stops_left.admits(text::byte_count(drv_path)) {
            self
        } else {
            ResultsModel {
                stopped: self.stopped.insert(drv_path),
                stops_left: self.stops_left.charged(text::byte_count(drv_path)),
                ..self
            }
        }
    }

    /// Confirmed builds are not rejected, their outputs are in the store, and those of declared
    /// derivations are the declared ones.
    pub open spec fn sound(self) -> bool {
        forall|drv_path: Seq<char>| #[trigger]
            self.confirmed.dom().contains(drv_path) ==> {
                &&& !self.rejected.contains(drv_path)
                &&& trusted(self.confirmed[drv_path].outputs)
                &&& self.declared.dom().contains(drv_path) ==> agrees(
                    self.declared[drv_path],
                    self.confirmed[drv_path].outputs,
                )
            }
    }
}

/// Reports whether two output maps say the same.
fn same_outputs(a: &StringMap<String>, b: &StringMap<String>) -> (result: bool)
    requires
        a.wf(),
        b.wf(),
    ensures
        result == (a.deep_view() == b.deep_view()),
{
    proof {
        crate::ordered::lemma_keys(*a);
        crate::ordered::lemma_keys(*b);
        assert(a.deep_view().dom() =~= a@.dom());
        assert(b.deep_view().dom() =~= b@.dom());
        crate::ordered::lemma_listing(a.keys(), a@.dom());
        crate::ordered::lemma_listing(b.keys(), b@.dom());
    }
    let count = a.len();
    if count != b.len() {
        return false;
    }
    let mut i: usize = 0;
    while i < count
        invariant
            a.wf(),
            b.wf(),
            a.deep_view().dom() == a@.dom(),
            b.deep_view().dom() == b@.dom(),
            count == a.keys().len(),
            count == b.keys().len(),
            i <= count,
            a@.dom() == b@.dom() ==> a.keys() == b.keys(),
            forall|j: int|
                0 <= j < i ==> (#[trigger] a.keys()[j]) == b.keys()[j] && a.values()[j]@
                    == b.values()[j]@,
        decreases count - i,
    {
        proof {
            crate::ordered::lemma_map_at(*a, i as int);
            crate::ordered::lemma_map_at(*b, i as int);
        }
        if !text::same(a.key_at(i).as_str(), b.key_at(i).as_str()) {
            return false;
        }
        if !text::same(a.value_at(i).as_str(), b.value_at(i).as_str()) {
            proof {
                let key = a.keys()[i as int];
                assert(a.deep_view()[key] != b.deep_view()[key]);
            }
            return false;
        }
        assert(a.keys()[i as int] == b.keys()[i as int]);
        assert(a.values()[i as int]@ == b.values()[i as int]@);
        assert forall|j: int| 0 <= j < i + 1 implies (#[trigger] a.keys()[j]) == b.keys()[j]
            && a.values()[j]@ == b.values()[j]@ by {
            if j < i {
                assert(a.keys()[j] == b.keys()[j]);
            }
        }
        i = i + 1;
    }
    proof {
        assert(a.keys() =~= b.keys());
        assert forall|key: Seq<char>| #[trigger] a@.dom().contains(key) implies a.deep_view()[key]
            == b.deep_view()[key] by {
            let j = crate::ordered::lemma_map_position(*a, key);
            crate::ordered::lemma_map_at(*b, j);
        }
        assert(a.deep_view() =~= b.deep_view());
    }
    true
}

/// Returns the paths of produced outputs by name.
fn built_outputs(outputs: &Vec<BuiltOutput>) -> (result: StringMap<String>)
    ensures
        result.wf(),
        result.deep_view() == built(outputs@),
{
    let mut result: StringMap<String> = StringMap::new();
    let mut i: usize = 0;
    proof {
        assert(outputs@.take(0) =~= Seq::<BuiltOutput>::empty());
        assert(result.deep_view() =~= Map::<Seq<char>, Seq<char>>::empty());
    }
    while i < outputs.len()
        invariant
            i <= outputs@.len(),
            result.wf(),
            result.deep_view() == built(outputs@.take(i as int)),
        decreases outputs@.len() - i,
    {
        let ghost before = result;
        proof {
            assert(outputs@.take(i + 1).drop_last() =~= outputs@.take(i as int));
        }
        let path = store::normalize_output_path(outputs[i].path.clone());
        let ghost at = path@;
        result.insert(outputs[i].name.clone(), path);
        assert(result.deep_view() =~= before.deep_view().insert(outputs@[i as int].name@, at));
        i = i + 1;
    }
    assert(outputs@.take(i as int) =~= outputs@);
    result
}

/// Returns what is left of `bytes` once the outputs took theirs, where that is not less than
/// nothing.
fn bytes_after(bytes: usize, outputs: &Vec<BuiltOutput>) -> (result: Option<usize>)
    ensures
        match result {
            Some(left) => left == bytes - output_bytes(outputs@),
            None => output_bytes(outputs@) > bytes,
        },
{
    let mut left: usize = bytes;
    let mut i: usize = 0;
    assert(outputs@.take(0) =~= Seq::<BuiltOutput>::empty());
    while i < outputs.len()
        invariant
            i <= outputs@.len(),
            left == bytes - output_bytes(outputs@.take(i as int)),
        decreases outputs@.len() - i,
    {
        proof {
            assert(outputs@.take(i + 1).drop_last() =~= outputs@.take(i as int));
            lemma_output_bytes(outputs@, i + 1);
        }
        let path = store::normalize_output_path(outputs[i].path.clone());
        let name_bytes = text::byte_len(outputs[i].name.as_str());
        let path_bytes = text::byte_len(path.as_str());
        if name_bytes > left || path_bytes > left - name_bytes {
            return None;
        }
        left = left - name_bytes - path_bytes;
        i = i + 1;
    }
    assert(outputs@.take(i as int) =~= outputs@);
    Some(left)
}

/// Fewer outputs take no more bytes.
proof fn lemma_output_bytes(outputs: Seq<BuiltOutput>, count: int)
    requires
        0 <= count <= outputs.len(),
    ensures
        output_bytes(outputs.take(count)) <= output_bytes(outputs),
    decreases outputs.len(),
{
    if count < outputs.len() {
        assert(outputs.drop_last().take(count) =~= outputs.take(count));
        lemma_output_bytes(outputs.drop_last(), count);
    } else {
        assert(outputs.take(count) =~= outputs);
    }
}

/// Reports whether every output is in the store.
fn all_trusted(outputs: &StringMap<String>) -> (result: bool)
    requires
        outputs.wf(),
    ensures
        result == trusted(outputs.deep_view()),
{
    let count = outputs.len();
    let mut i: usize = 0;
    while i < count
        invariant
            outputs.wf(),
            count == outputs.keys().len(),
            i <= count,
            forall|j: int|
                0 <= j < i ==> store::is_store_output((#[trigger] outputs.values()[j])@),
        decreases count - i,
    {
        proof {
            crate::ordered::lemma_map_at(*outputs, i as int);
        }
        if !store::store_output(outputs.value_at(i).as_str()) {
            assert(outputs.deep_view().dom().contains(outputs.keys()[i as int]));
            return false;
        }
        i = i + 1;
    }
    proof {
        assert forall|name: Seq<char>| #[trigger]
            outputs.deep_view().dom().contains(name) implies store::is_store_output(
            outputs.deep_view()[name],
        ) by {
            let j = crate::ordered::lemma_map_position(*outputs, name);
            assert(store::is_store_output(outputs.values()[j]@));
        }
    }
    true
}

/// Reports whether a derivation has every output, at the path where that is known beforehand.
fn all_declared(node: &DerivationNode, outputs: &StringMap<String>) -> (result: bool)
    requires
        node.wf(),
        outputs.wf(),
    ensures
        result == agrees(node.deep_view(), outputs.deep_view()),
{
    let count = outputs.len();
    let ghost declared = node.deep_view().outputs;
    let ghost given = outputs.deep_view();
    let mut i: usize = 0;
    while i < count
        invariant
            node.wf(),
            outputs.wf(),
            declared == node.outputs.deep_view(),
            given == outputs.deep_view(),
            count == outputs.keys().len(),
            i <= count,
            forall|j: int|
                0 <= j < i ==> declared.dom().contains(#[trigger] outputs.keys()[j]) && (
                declared[outputs.keys()[j]] matches Some(path) ==> path
                    == given[outputs.keys()[j]]),
        decreases count - i,
    {
        proof {
            crate::ordered::lemma_map_at(*outputs, i as int);
            assert(given.dom().contains(outputs.keys()[i as int]));
        }
        match node.outputs.get(outputs.key_at(i).as_str()) {
            None => {
                return false;
            },
            Some(None) => {},
            Some(Some(path)) => {
                if !text::same(path.as_str(), outputs.value_at(i).as_str()) {
                    return false;
                }
            },
        }
        i = i + 1;
    }
    proof {
        assert forall|name: Seq<char>| #[trigger] given.dom().contains(name) implies
            declared.dom().contains(name) && (declared[name] matches Some(path) ==> path
            == given[name]) by {
            let j = crate::ordered::lemma_map_position(*outputs, name);
            assert(outputs.keys()[j] == name);
        }
    }
    true
}

/// Reports whether outputs were asked for, and every one of them was produced.
fn all_requested(requested: &Vec<String>, outputs: &StringMap<String>) -> (result: bool)
    requires
        outputs.wf(),
    ensures
        result == complete(requested@, outputs.deep_view()),
{
    if requested.len() == 0 {
        return false;
    }
    let mut i: usize = 0;
    while i < requested.len()
        invariant
            outputs.wf(),
            i <= requested@.len(),
            forall|j: int|
                0 <= j < i ==> (#[trigger] requested@[j])@ == "*"@
                    || outputs.deep_view().dom().contains(requested@[j]@),
        decreases requested@.len() - i,
    {
        let name = requested[i].as_str();
        if !text::same(name, "*") && !outputs.contains_key(name) {
            assert(!outputs.deep_view().dom().contains(requested@[i as int]@));
            return false;
        }
        i = i + 1;
    }
    true
}

/// What is known of builds.
#[derive(Debug, PartialEq, Eq)]
pub struct BuildResults {
    declared: StringMap<Arc<DerivationNode>>,
    confirmed: StringMap<ConfirmedResult>,
    rejected: StringSet,
    stopped: StringSet,
    results_left: Budget,
    stops_left: Budget,
}

impl BuildResults {
    /// What is known of builds.
    pub closed spec fn model(&self) -> ResultsModel {
        ResultsModel {
            declared: self.declared.deep_view(),
            confirmed: self.confirmed.deep_view(),
            rejected: self.rejected@,
            stopped: self.stopped@,
            results_left: self.results_left,
            stops_left: self.stops_left,
        }
    }

    /// What is kept is well-formed.
    pub closed spec fn wf(&self) -> bool {
        &&& self.declared.wf()
        &&& forall|path: Seq<char>| #[trigger]
            self.declared@.dom().contains(path) ==> self.declared@[path].wf()
        &&& results_wf(self.confirmed)
        &&& self.rejected.wf()
        &&& self.stopped.wf()
    }

    /// Creates what is known before anything was reported. Nothing is kept of undeclared
    /// derivations.
    pub fn new() -> (result: Self)
        ensures
            result.wf(),
            result.model() == ResultsModel::new(),
    {
        let result = BuildResults {
            declared: StringMap::new(),
            confirmed: StringMap::new(),
            rejected: StringSet::new(),
            stopped: StringSet::new(),
            results_left: Budget { entries: 0, bytes: 0 },
            stops_left: Budget { entries: 0, bytes: 0 },
        };
        assert(result.model() =~= ResultsModel::new());
        result
    }

    /// Declares the outputs of a derivation.
    pub fn declare(&mut self, node: Arc<DerivationNode>)
        requires
            old(self).wf(),
            node.wf(),
        ensures
            final(self).wf(),
            final(self).model() == (ResultsModel {
                declared: old(self).model().declared.insert(node.drv_path@, node.deep_view()),
                ..old(self).model()
            }),
    {
        let ghost before = self.declared;
        self.declared.insert(node.drv_path.clone(), node);
        assert(self.declared.deep_view() =~= before.deep_view().insert(
            node.drv_path@,
            node.deep_view(),
        ));
    }

    /// Allows results of undeclared derivations and stopped builds to be kept, as many entries of
    /// either and as many bytes.
    pub fn allow(&mut self, budget: Budget)
        requires
            old(self).wf(),
        ensures
            final(self).wf(),
            final(self).model() == (ResultsModel {
                results_left: budget,
                stops_left: budget,
                ..old(self).model()
            }),
    {
        self.results_left = budget;
        self.stops_left = budget;
    }

    /// Takes up a result of a derivation.
    fn judge(&mut self, drv_path: String, result: ConfirmedResult, acceptable: bool)
        requires
            old(self).wf(),
            result.outputs.wf(),
        ensures
            final(self).wf(),
            final(self).model() == old(self).model().judged(
                drv_path@,
                result.deep_view(),
                acceptable,
            ),
    {
        if self.rejected.contains(drv_path.as_str()) {
            return;
        }
        let ghost model = self.model();
        let ghost before = self.confirmed;
        let ghost path = drv_path@;
        let keep = acceptable && match self.confirmed.get(drv_path.as_str()) {
            Some(known) => known.state == result.state && same_outputs(
                &known.outputs,
                &result.outputs,
            ),
            None => true,
        };
        assert(keep == (acceptable && (model.confirmed.dom().contains(path)
            ==> model.confirmed[path] == result.deep_view())));
        if keep {
            self.confirmed.insert(drv_path, result);
            assert(self.confirmed.deep_view() =~= before.deep_view().insert(
                path,
                result.deep_view(),
            ));
        } else {
            self.confirmed.remove(drv_path.as_str());
            assert(self.confirmed.deep_view() =~= before.deep_view().remove(path));
            self.rejected.insert(drv_path);
        }
    }

    /// Takes up how a build ended.
    pub fn report(&mut self, report: &BuildReport)
        requires
            old(self).wf(),
        ensures
            final(self).wf(),
            final(self).model() == old(self).model().reported(*report),
    {
        let state = match report_state(report) {
            Some(state) => state,
            None => {
                return;
            },
        };
        if !report.success || report.outputs.len() == 0 {
            return;
        }
        let drv_path = store::normalize_derivation_path(report.drv_path.clone());
        let outputs = built_outputs(&report.outputs);
        let in_store = all_trusted(&outputs);
        if let Some(node) = self.declared.get(drv_path.as_str()) {
            let acceptable = in_store && all_declared(node, &outputs);
            self.judge(drv_path, ConfirmedResult { state, outputs }, acceptable);
            return;
        }
        if !store::store_derivation(drv_path.as_str()) || !all_requested(
            &report.requested,
            &outputs,
        ) {
            return;
        }
        if self.confirmed.contains_key(drv_path.as_str()) || self.rejected.contains(
            drv_path.as_str(),
        ) {
            self.judge(drv_path, ConfirmedResult { state, outputs }, in_store);
            return;
        }
        let size = text::byte_len(drv_path.as_str());
        if !in_store || self.results_left.entries == 0 || size > self.results_left.bytes {
            return;
        }
        match bytes_after(self.results_left.bytes - size, &report.outputs) {
            None => {},
            Some(left) => {
                let ghost before = self.confirmed;
                let ghost path = drv_path@;
                let result = ConfirmedResult { state, outputs };
                self.confirmed.insert(drv_path, result);
                assert(self.confirmed.deep_view() =~= before.deep_view().insert(
                    path,
                    result.deep_view(),
                ));
                self.results_left = Budget { entries: self.results_left.entries - 1, bytes: left };
            },
        }
    }

    /// Takes up that a build stopped.
    pub fn stop(&mut self, drv_path: &str)
        requires
            old(self).wf(),
        ensures
            final(self).wf(),
            final(self).model() == old(self).model().stop(drv_path@),
    {
        let size = text::byte_len(drv_path);
        if self.stopped.contains(drv_path) || self.stops_left.entries == 0 || size
            > self.stops_left.bytes {
            return;
        }
        self.stopped.insert(drv_path.to_owned());
        self.stops_left = Budget {
            entries: self.stops_left.entries - 1,
            bytes: self.stops_left.bytes - size,
        };
    }

    /// Takes the confirmed builds. What was rejected stays rejected.
    pub fn take_confirmed(&mut self) -> (result: StringMap<ConfirmedResult>)
        requires
            old(self).wf(),
        ensures
            final(self).wf(),
            results_wf(result),
            result.deep_view() == old(self).model().confirmed,
            final(self).model() == (ResultsModel {
                confirmed: Map::empty(),
                ..old(self).model()
            }),
    {
        let mut taken: StringMap<ConfirmedResult> = StringMap::new();
        std::mem::swap(&mut taken, &mut self.confirmed);
        assert(self.confirmed.deep_view() =~= Map::<Seq<char>, ResultModel>::empty());
        taken
    }

    /// Takes the derivations of which a build stopped.
    pub fn take_stopped(&mut self) -> (result: StringSet)
        requires
            old(self).wf(),
        ensures
            final(self).wf(),
            result.wf(),
            result@ == old(self).model().stopped,
            final(self).model() == (ResultsModel {
                stopped: Set::empty(),
                ..old(self).model()
            }),
    {
        let mut taken = StringSet::new();
        std::mem::swap(&mut taken, &mut self.stopped);
        taken
    }
}

/// Confirmed builds are kept in order.
pub open spec fn results_wf(results: StringMap<ConfirmedResult>) -> bool {
    &&& results.wf()
    &&& forall|path: Seq<char>| #[trigger]
        results@.dom().contains(path) ==> results@[path].outputs.wf()
}

/// Whatever is reported, a rejected derivation stays rejected and is never confirmed again.
pub proof fn law_rejections_stay(results: ResultsModel, report: BuildReport, drv_path: Seq<char>)
    requires
        results.sound(),
        results.rejected.contains(drv_path),
    ensures
        results.reported(report).rejected.contains(drv_path),
        !results.reported(report).confirmed.dom().contains(drv_path),
{
}

/// Whatever is reported, confirmed builds have outputs in the store, those of declared derivations
/// the declared ones, and none of them is rejected.
pub proof fn law_reports_keep_results_sound(results: ResultsModel, report: BuildReport)
    requires
        results.sound(),
    ensures
        results.reported(report).sound(),
{
}

/// A repeated report changes nothing.
pub proof fn law_repeated_reports_change_nothing(results: ResultsModel, report: BuildReport)
    requires
        results.declared.dom().contains(store::derivation_path(report.drv_path@)),
    ensures
        results.reported(report).reported(report) == results.reported(report),
{
    let once = results.reported(report);
    assert(once.reported(report) =~= once);
}

/// A report of another result than the confirmed one rejects the derivation.
pub proof fn law_contradictions_reject(
    results: ResultsModel,
    first: BuildReport,
    second: BuildReport,
)
    requires
        results.sound(),
        store::derivation_path(first.drv_path@) == store::derivation_path(second.drv_path@),
        results.declared.dom().contains(store::derivation_path(first.drv_path@)),
        first.success && reported_state(first) is Some && first.outputs@.len() > 0,
        second.success && reported_state(second) is Some && second.outputs@.len() > 0,
        reported_state(first) != reported_state(second) || built(first.outputs@) != built(
            second.outputs@,
        ),
    ensures
        results.reported(first).reported(second).rejected.contains(
            store::derivation_path(first.drv_path@),
        ),
{
}

/// What is kept of undeclared derivations and stopped builds never exceeds what was allowed: every
/// entry that is added is paid for.
pub proof fn law_budgets_pay_for_what_is_kept(
    results: ResultsModel,
    report: BuildReport,
    drv_path: Seq<char>,
)
    ensures
        ({
            let after = results.reported(report);
            let path = store::derivation_path(report.drv_path@);
            !results.declared.dom().contains(path) && after.confirmed.dom().contains(path)
                && !results.confirmed.dom().contains(path) ==> after.results_left.entries + 1
                == results.results_left.entries && after.results_left.bytes + text::byte_count(path)
                + output_bytes(report.outputs@) == results.results_left.bytes
        }),
        ({
            let after = results.stop(drv_path);
            after.stopped != results.stopped ==> after.stops_left.entries + 1
                == results.stops_left.entries && after.stops_left.bytes + text::byte_count(drv_path)
                == results.stops_left.bytes
        }),
{
}

/// The output is the last one of its name.
pub open spec fn is_last_output(outputs: Seq<BuiltOutput>, i: int) -> bool {
    &&& 0 <= i < outputs.len()
    &&& forall|k: int| i < k < outputs.len() ==> (#[trigger] outputs[k]).name@ != outputs[i].name@
}

/// Produced outputs are kept by name, each under the path of the last one of its name, and no
/// others.
pub proof fn law_outputs_are_kept_by_name(outputs: Seq<BuiltOutput>, i: int, name: Seq<char>)
    ensures
        is_last_output(outputs, i) ==> built(outputs).dom().contains(outputs[i].name@) && built(
            outputs,
        )[outputs[i].name@] == store::output_path(outputs[i].path@),
        built(outputs).dom().contains(name) <==> exists|k: int|
            0 <= k < outputs.len() && (#[trigger] outputs[k]).name@ == name,
    decreases outputs.len(),
{
    if outputs.len() > 0 {
        let front = outputs.drop_last();
        let last = outputs.len() - 1;
        law_outputs_are_kept_by_name(front, i, name);
        assert forall|k: int| 0 <= k < front.len() implies front[k] == #[trigger] outputs[k] by {}
        assert(outputs.last() == outputs[last]);
        if is_last_output(outputs, i) && i < last {
            assert(outputs[last].name@ != outputs[i].name@);
            assert(is_last_output(front, i)) by {
                assert forall|k: int| i < k < front.len() implies (#[trigger] front[k]).name@
                    != front[i].name@ by {
                    assert(outputs[k].name@ != outputs[i].name@);
                }
            }
        }
        if built(front).dom().contains(name) {
            let k = choose|k: int|
                0 <= k < front.len() && (#[trigger] front[k]).name@ == name;
            assert(outputs[k].name@ == name);
        }
        if exists|k: int| 0 <= k < outputs.len() && (#[trigger] outputs[k]).name@ == name {
            let k = choose|k: int|
                0 <= k < outputs.len() && (#[trigger] outputs[k]).name@ == name;
            if k < last {
                assert(front[k].name@ == name);
            }
        }
    }
}

/// The bytes of outputs add up over their lists.
pub proof fn law_output_bytes_add_up(a: Seq<BuiltOutput>, b: Seq<BuiltOutput>)
    ensures
        output_bytes(a + b) == output_bytes(a) + output_bytes(b),
        a.len() == 1 ==> output_bytes(a) == text::byte_count(a[0].name@) + text::byte_count(
            store::output_path(a[0].path@),
        ),
    decreases b.len(),
{
    reveal_with_fuel(output_bytes, 2);
    if b.len() == 0 {
        assert(a + b =~= a);
    } else {
        assert((a + b).drop_last() =~= a + b.drop_last());
        assert((a + b).last() == b.last());
        law_output_bytes_add_up(a, b.drop_last());
    }
}

/// A first report of success for a declared derivation confirms it in the state that is reported
/// and with the outputs that were produced, if each is in the store and is what the derivation
/// declares; otherwise it rejects it.
pub proof fn law_first_reports_of_declared_derivations_count(
    results: ResultsModel,
    report: BuildReport,
    state: NodeState,
)
    requires
        ({
            let path = store::derivation_path(report.drv_path@);
            &&& results.declared.dom().contains(path)
            &&& !results.confirmed.dom().contains(path)
            &&& !results.rejected.contains(path)
        }),
        report.success,
        report.outputs@.len() > 0,
        reported_state(report) == Some(state),
    ensures
        ({
            let path = store::derivation_path(report.drv_path@);
            let after = results.reported(report);
            let outputs = built(report.outputs@);
            let fitting = forall|name: Seq<char>| #[trigger]
                outputs.dom().contains(name) ==> {
                    &&& store::is_store_output(outputs[name])
                    &&& results.declared[path].outputs.dom().contains(name)
                    &&& results.declared[path].outputs[name] matches Some(known) ==> known
                        == outputs[name]
                };
            &&& fitting ==> after.confirmed.dom().contains(path) && after.confirmed[path].state
                == state && after.confirmed[path].outputs == outputs && !after.rejected.contains(
                path,
            )
            &&& !fitting ==> after.rejected.contains(path) && !after.confirmed.dom().contains(path)
        }),
{
}

/// A report says nothing of other derivations, and one of a failure, or without outputs, says
/// nothing at all.
pub proof fn law_reports_reach_their_derivation_alone(
    results: ResultsModel,
    report: BuildReport,
    other: Seq<char>,
)
    ensures
        ({
            let after = results.reported(report);
            &&& other != store::derivation_path(report.drv_path@) ==> {
                &&& after.confirmed.dom().contains(other) == results.confirmed.dom().contains(other)
                &&& results.confirmed.dom().contains(other) ==> after.confirmed[other]
                    == results.confirmed[other]
                &&& after.rejected.contains(other) == results.rejected.contains(other)
            }
            &&& !report.success || report.outputs@.len() == 0 ==> after == results
            &&& after.declared == results.declared
            &&& after.stopped == results.stopped
            &&& after.stops_left == results.stops_left
        }),
{
}

/// A first report of success for an undeclared derivation in the store confirms it, if everything
/// that was asked for was produced in the store and there is room for it.
pub proof fn law_undeclared_derivations_are_kept_within_the_budget(
    results: ResultsModel,
    report: BuildReport,
    state: NodeState,
)
    requires
        ({
            let path = store::derivation_path(report.drv_path@);
            &&& !results.declared.dom().contains(path)
            &&& !results.confirmed.dom().contains(path)
            &&& !results.rejected.contains(path)
        }),
        report.success,
        report.outputs@.len() > 0,
        reported_state(report) == Some(state),
    ensures
        ({
            let path = store::derivation_path(report.drv_path@);
            let after = results.reported(report);
            let outputs = built(report.outputs@);
            let produced = report.requested@.len() > 0 && forall|i: int|
                0 <= i < report.requested@.len() ==> (#[trigger] report.requested@[i])@ == "*"@
                    || outputs.dom().contains(report.requested@[i]@);
            let stored = forall|name: Seq<char>| #[trigger]
                outputs.dom().contains(name) ==> store::is_store_output(outputs[name]);
            let room = results.results_left.entries > 0 && text::byte_count(path) + output_bytes(
                report.outputs@,
            ) <= results.results_left.bytes;
            if store::is_store_derivation(path) && produced && stored && room {
                &&& after.confirmed.dom().contains(path)
                &&& after.confirmed[path] == ResultModel { state, outputs }
            } else {
                after == results
            }
        }),
{
}

/// A build that stopped is noted once, as long as there is room, and nothing else is.
pub proof fn law_stops_are_noted(results: ResultsModel, drv_path: Seq<char>, other: Seq<char>)
    ensures
        ({
            let after = results.stop(drv_path);
            let room = results.stops_left.entries > 0 && text::byte_count(drv_path)
                <= results.stops_left.bytes;
            &&& after.stopped.contains(drv_path) <==> results.stopped.contains(drv_path) || room
            &&& other != drv_path ==> (after.stopped.contains(other) <==> results.stopped.contains(
                other,
            ))
            &&& after.stop(drv_path).stopped == after.stopped
            &&& results.stopped.contains(drv_path) ==> after == results
            &&& after.confirmed == results.confirmed
            &&& after.rejected == results.rejected
            &&& after.declared == results.declared
        }),
{
}

/// Only success names a built, downloaded, present or realized derivation, each by its own word,
/// and failure only one that was left out.
pub proof fn law_reported_states_are_told_by_their_words(a: BuildReport, b: BuildReport)
    ensures
        reported_state(a) == Some(NodeState::Skipped) ==> !a.success,
        reported_state(a) is Some && !a.success ==> reported_state(a) == Some(NodeState::Skipped),
        reported_state(a) is Some && reported_state(b) is Some && a.success == b.success
            && reported_state(a) == reported_state(b) ==> a.status@ == b.status@,
        reported_state(a) != Some(NodeState::Failed),
        reported_state(a) != Some(NodeState::Cancelled),
{
}

} // verus!
