//! Child processes as plain data: what is started, how its streams are handled, how it ended.

use std::path::PathBuf;
use std::sync::atomic::AtomicI32;
use std::sync::Arc;

use vstd::prelude::*;

use crate::outcome;
use crate::outcome::Error;

verus! {

/// A request to stop, shared by everything that works on one operation.
#[derive(Debug)]
pub struct Cancellation {
    requested: Arc<AtomicI32>,
}

impl Default for Cancellation {
    fn default() -> (result: Self) {
        Cancellation { requested: Arc::new(AtomicI32::new(0)) }
    }
}

impl Cancellation {
    /// The shared request was made to hold `signal`, unless it held another one already.
    pub closed spec fn was_asked(&self, signal: i32) -> bool {
        exists|before: Result<i32, i32>| #[trigger]
            call_ensures(
                AtomicI32::compare_exchange,
                (
                    &*self.requested,
                    0i32,
                    signal,
                    std::sync::atomic::Ordering::SeqCst,
                    std::sync::atomic::Ordering::SeqCst,
                ),
                before,
            )
    }

    /// Asks for the work to stop because of a signal. The first request stays.
    pub fn request(&self, signal: i32)
        ensures
            self.was_asked(signal),
    {
        let before: Result<i32, i32> = self.requested.compare_exchange(
            0,
            signal,
            std::sync::atomic::Ordering::SeqCst,
            std::sync::atomic::Ordering::SeqCst,
        );
        assert(call_ensures(
            AtomicI32::compare_exchange,
            (
                &*self.requested,
                0i32,
                signal,
                std::sync::atomic::Ordering::SeqCst,
                std::sync::atomic::Ordering::SeqCst,
            ),
            before,
        ));
    }

    /// `held` is what reading the shared request may give. Other threads make requests, so two
    /// readings may differ.
    pub closed spec fn may_hold(&self, held: i32) -> bool {
        call_ensures(AtomicI32::load, (&*self.requested, std::sync::atomic::Ordering::SeqCst), held)
    }

    /// Returns the signal of the request, if one was made. Other threads make requests, so two
    /// calls may answer differently.
    pub fn signal(&self) -> (result: Option<i32>)
        ensures
            exists|held: i32| #[trigger] self.may_hold(held) && result == held_signal(held),
    {
        let held: i32 = self.requested.load(std::sync::atomic::Ordering::SeqCst);
        assert(self.may_hold(held));
        requested_signal(held)
    }
}

/// The signal of a shared request that holds `held`: none as long as it holds zero.
pub open spec fn held_signal(held: i32) -> Option<i32> {
    if held == 0 {
        None
    } else {
        Some(held)
    }
}

/// Returns the signal of a shared request that holds `held`.
pub fn requested_signal(held: i32) -> (result: Option<i32>)
    ensures
        result == held_signal(held),
{
    if held == 0 {
        None
    } else {
        Some(held)
    }
}

impl Clone for Cancellation {
    fn clone(&self) -> (result: Self)
        ensures
            result == *self,
    {
        Cancellation { requested: self.requested.clone() }
    }
}

/// Byte-wise lexicographic order.
pub open spec fn precedes(a: Seq<u8>, b: Seq<u8>) -> bool
    decreases a.len(),
{
    if b.len() == 0 {
        false
    } else if a.len() == 0 {
        true
    } else if a[0] == b[0] {
        precedes(a.drop_first(), b.drop_first())
    } else {
        a[0] < b[0]
    }
}

proof fn lemma_irreflexive(a: Seq<u8>)
    ensures
        !precedes(a, a),
    decreases a.len(),
{
    if a.len() > 0 {
        lemma_irreflexive(a.drop_first());
    }
}

proof fn lemma_transitive(a: Seq<u8>, b: Seq<u8>, c: Seq<u8>)
    requires
        precedes(a, b),
        precedes(b, c),
    ensures
        precedes(a, c),
    decreases a.len(),
{
    if a.len() > 0 && a[0] == b[0] && b[0] == c[0] {
        lemma_transitive(a.drop_first(), b.drop_first(), c.drop_first());
    }
}

proof fn lemma_total(a: Seq<u8>, b: Seq<u8>)
    ensures
        a == b || precedes(a, b) || precedes(b, a),
    decreases a.len(),
{
    if a.len() == 0 && b.len() == 0 {
        assert(a =~= b);
    } else if a.len() > 0 && b.len() > 0 && a[0] == b[0] {
        lemma_total(a.drop_first(), b.drop_first());
        if a.drop_first() == b.drop_first() {
            assert(a =~= seq![a[0]] + a.drop_first());
            assert(b =~= seq![b[0]] + b.drop_first());
        }
    }
}

/// Reports whether `a` comes before `b`.
fn comes_before(a: &Vec<u8>, b: &Vec<u8>) -> (result: bool)
    ensures
        result == precedes(a@, b@),
{
    let mut i: usize = 0;
    assert(a@.skip(0) =~= a@);
    assert(b@.skip(0) =~= b@);
    while i < a.len() && i < b.len() && a[i] == b[i]
        invariant
            i <= a@.len(),
            i <= b@.len(),
            precedes(a@, b@) == precedes(a@.skip(i as int), b@.skip(i as int)),
        decreases a@.len() - i,
    {
        assert(a@.skip(i as int).drop_first() =~= a@.skip(i + 1));
        assert(b@.skip(i as int).drop_first() =~= b@.skip(i + 1));
        i = i + 1;
    }
    if i >= b.len() {
        false
    } else if i >= a.len() {
        true
    } else {
        a[i] < b[i]
    }
}

/// Reports whether two byte strings are equal.
fn same_bytes(a: &Vec<u8>, b: &Vec<u8>) -> (result: bool)
    ensures
        result == (a@ == b@),
{
    if a.len() != b.len() {
        return false;
    }
    let mut i: usize = 0;
    while i < a.len()
        invariant
            i <= a@.len(),
            a@.len() == b@.len(),
            forall|j: int| 0 <= j < i ==> a@[j] == b@[j],
        decreases a@.len() - i,
    {
        if a[i] != b[i] {
            return false;
        }
        i = i + 1;
    }
    assert(a@ =~= b@);
    true
}

/// Environment variables in the order of their names, as raw bytes.
#[derive(Debug, PartialEq, Eq)]
pub struct Environment {
    entries: Vec<(Vec<u8>, Vec<u8>)>,
}

impl Environment {
    /// The variables' names in order.
    pub closed spec fn names(&self) -> Seq<Seq<u8>> {
        self.entries@.map_values(|entry: (Vec<u8>, Vec<u8>)| entry.0@)
    }

    /// The variables' values in the order of their names.
    pub closed spec fn values(&self) -> Seq<Seq<u8>> {
        self.entries@.map_values(|entry: (Vec<u8>, Vec<u8>)| entry.1@)
    }

    /// The names are in order, so none occurs twice.
    pub open spec fn wf(&self) -> bool {
        &&& self.names().len() == self.values().len()
        &&& forall|i: int, j: int|
            0 <= i < j < self.names().len() ==> precedes(
                #[trigger] self.names()[i],
                #[trigger] self.names()[j],
            )
    }
}

impl View for Environment {
    type V = Map<Seq<u8>, Seq<u8>>;

    open spec fn view(&self) -> Map<Seq<u8>, Seq<u8>> {
        Map::new(
            |name: Seq<u8>| self.names().contains(name),
            |name: Seq<u8>| self.values()[self.names().index_of(name)],
        )
    }
}

proof fn lemma_at(environment: Environment, i: int)
    requires
        environment.wf(),
        0 <= i < environment.names().len(),
    ensures
        environment@.dom().contains(environment.names()[i]),
        environment@[environment.names()[i]] == environment.values()[i],
{
    let name = environment.names()[i];
    assert(environment.names().contains(name));
    let j = environment.names().index_of(name);
    lemma_irreflexive(name);
}

impl Environment {
    /// Creates an environment without variables.
    pub fn new() -> (result: Self)
        ensures
            result.wf(),
            result@ == Map::<Seq<u8>, Seq<u8>>::empty(),
    {
        let result = Environment { entries: Vec::new() };
        assert(result@ =~= Map::<Seq<u8>, Seq<u8>>::empty());
        result
    }

    /// Returns the number of variables.
    pub fn len(&self) -> (result: usize)
        ensures
            result == self.names().len(),
    {
        self.entries.len()
    }

    /// Returns the name and the value of the variable at a position.
    pub fn at(&self, index: usize) -> (result: (&Vec<u8>, &Vec<u8>))
        requires
            index < self.names().len(),
        ensures
            result.0@ == self.names()[index as int],
            result.1@ == self.values()[index as int],
    {
        (&self.entries[index].0, &self.entries[index].1)
    }

    /// Returns the value of a variable.
    pub fn get(&self, name: &Vec<u8>) -> (result: Option<&Vec<u8>>)
        requires
            self.wf(),
        ensures
            match result {
                Some(value) => self@.dom().contains(name@) && value@ == self@[name@],
                None => !self@.dom().contains(name@),
            },
    {
        let mut i: usize = 0;
        while i < self.entries.len()
            invariant
                i <= self.entries@.len(),
                self.wf(),
                forall|j: int| 0 <= j < i ==> #[trigger] self.names()[j] != name@,
            decreases self.entries@.len() - i,
        {
            if same_bytes(&self.entries[i].0, name) {
                proof {
                    lemma_at(*self, i as int);
                }
                return Some(&self.entries[i].1);
            }
            assert(self.names()[i as int] != name@);
            i = i + 1;
        }
        None
    }

    /// Adds or replaces a variable.
    pub fn insert(&mut self, name: Vec<u8>, value: Vec<u8>)
        requires
            old(self).wf(),
        ensures
            final(self).wf(),
            final(self)@ == old(self)@.insert(name@, value@),
    {
        let ghost before = *self;
        let mut i: usize = 0;
        while i < self.entries.len() && comes_before(&self.entries[i].0, &name)
            invariant
                *self == before,
                before.wf(),
                i <= self.entries@.len(),
                forall|j: int| 0 <= j < i ==> precedes(#[trigger] before.names()[j], name@),
            decreases self.entries@.len() - i,
        {
            assert(precedes(before.names()[i as int], name@));
            i = i + 1;
        }
        let replaces = i < self.entries.len() && same_bytes(&self.entries[i].0, &name);
        let ghost at = i as int;
        let ghost key = name@;
        let ghost new = value@;
        proof {
            assert forall|j: int| 0 <= j < at implies #[trigger] before.names()[j] != key by {
                lemma_irreflexive(key);
            }
            if at < before.names().len() && !replaces {
                lemma_total(before.names()[at], key);
            }
            assert forall|j: int|
                at <= j < before.names().len() && !replaces implies precedes(
                key,
                #[trigger] before.names()[j],
            ) by {
                if j > at {
                    lemma_transitive(key, before.names()[at], before.names()[j]);
                }
            }
        }
        if replaces {
            self.entries.set(i, (name, value));
            proof {
                assert(self.names() =~= before.names());
                assert(self.values() =~= before.values().update(at, new));
            }
        } else {
            self.entries.insert(i, (name, value));
            proof {
                assert(self.names() =~= before.names().insert(at, key));
                assert(self.values() =~= before.values().insert(at, new));
            }
        }
        proof {
            lemma_inserted(before, *self, at, replaces, key, new);
        }
    }
}

proof fn lemma_inserted(
    before: Environment,
    after: Environment,
    at: int,
    replaces: bool,
    key: Seq<u8>,
    value: Seq<u8>,
)
    requires
        before.wf(),
        0 <= at <= before.names().len(),
        forall|j: int| 0 <= j < at ==> precedes(#[trigger] before.names()[j], key),
        replaces ==> at < before.names().len() && before.names()[at] == key && after.names()
            == before.names() && after.values() == before.values().update(at, value),
        !replaces ==> (forall|j: int|
            at <= j < before.names().len() ==> precedes(key, #[trigger] before.names()[j])),
        !replaces ==> after.names() == before.names().insert(at, key) && after.values()
            == before.values().insert(at, value),
    ensures
        after.wf(),
        after@ == before@.insert(key, value),
{
    assert(after.names()[at] == key);
    assert(after.wf());
    lemma_at(after, at);
    assert forall|name: Seq<u8>|
        after@.dom().contains(name) <==> before@.insert(key, value).dom().contains(name) by {
        if before.names().contains(name) {
            let j = before.names().index_of(name);
            if replaces || j < at {
                assert(after.names()[j] == name);
            } else {
                assert(after.names()[j + 1] == name);
            }
        }
        if after.names().contains(name) && name != key {
            let j = after.names().index_of(name);
            if replaces || j < at {
                assert(before.names()[j] == name);
            } else {
                assert(before.names()[j - 1] == name);
            }
        }
    }
    assert forall|name: Seq<u8>| before@.dom().contains(name) && name != key implies after@[name]
        == before@[name] by {
        let j = before.names().index_of(name);
        lemma_at(before, j);
        if replaces || j < at {
            assert(after.names()[j] == name);
            lemma_at(after, j);
        } else {
            assert(after.names()[j + 1] == name);
            lemma_at(after, j + 1);
        }
    }
    assert(after@ =~= before@.insert(key, value));
}

impl Clone for Environment {
    fn clone(&self) -> (result: Self)
        ensures
            result.names() == self.names(),
            result.values() == self.values(),
            result@ == self@,
    {
        let mut entries: Vec<(Vec<u8>, Vec<u8>)> = Vec::new();
        let mut i: usize = 0;
        while i < self.entries.len()
            invariant
                i <= self.entries@.len(),
                entries@.len() == i,
                forall|j: int|
                    0 <= j < i ==> (#[trigger] entries@[j]).0@ == self.entries@[j].0@
                        && entries@[j].1@ == self.entries@[j].1@,
            decreases self.entries@.len() - i,
        {
            let entry = &self.entries[i];
            entries.push((copy_bytes(&entry.0), copy_bytes(&entry.1)));
            i = i + 1;
        }
        let result = Environment { entries };
        assert(result.names() =~= self.names());
        assert(result.values() =~= self.values());
        result
    }
}

/// Returns a copy of a byte string.
pub fn copy_bytes(bytes: &Vec<u8>) -> (result: Vec<u8>)
    ensures
        result@ == bytes@,
{
    let mut result: Vec<u8> = Vec::new();
    result.extend_from_slice(bytes.as_slice());
    assert(result@ =~= bytes@);
    result
}

/// Returns a copy of a list of byte strings.
pub fn copy_arguments(arguments: &Vec<Vec<u8>>) -> (result: Vec<Vec<u8>>)
    ensures
        result.deep_view() == arguments.deep_view(),
{
    let mut result: Vec<Vec<u8>> = Vec::new();
    let mut i: usize = 0;
    while i < arguments.len()
        invariant
            i <= arguments@.len(),
            result@.len() == i,
            forall|j: int| 0 <= j < i ==> (#[trigger] result@[j])@ == arguments@[j]@,
        decreases arguments@.len() - i,
    {
        result.push(copy_bytes(&arguments[i]));
        i = i + 1;
    }
    assert forall|j: int| 0 <= j < result@.len() implies result.deep_view()[j]
        == arguments.deep_view()[j] by {
        assert(result@[j]@ == arguments@[j]@);
        assert(result@[j].deep_view() =~= arguments@[j].deep_view());
    }
    assert(result.deep_view() =~= arguments.deep_view());
    result
}

/// `<PathBuf as Clone>::clone`: the copy is the same path.
pub assume_specification[ <PathBuf as Clone>::clone ](path: &PathBuf) -> (result: PathBuf)
    ensures
        result == *path,
;

/// Returns a copy of an optional path.
pub fn copy_path(path: &Option<PathBuf>) -> (result: Option<PathBuf>)
    ensures
        result == *path,
{
    match path {
        Some(path) => Some(path.clone()),
        None => None,
    }
}

/// What a child reads.
#[derive(Clone, Debug, PartialEq, Eq)]
pub enum InputPolicy {
    /// The program's own standard input.
    Inherit,
    /// Nothing.
    Null,
    /// These bytes.
    Bytes(Vec<u8>),
}

/// What becomes of a stream that a child writes.
#[derive(Clone, Copy, Debug, PartialEq, Eq, Structural)]
pub enum StreamPolicy {
    /// It goes where the program's own stream goes.
    Inherit,
    /// Its head is kept.
    Capture {
        /// The number of bytes kept.
        limit: usize,
    },
    /// It goes where the program's own stream goes, and its head is kept.
    RelayAndCapture {
        /// The number of bytes kept.
        limit: usize,
    },
}

/// A child process to be started.
#[derive(Clone, Debug, PartialEq, Eq)]
pub struct ProcessSpec {
    /// The executable, as raw bytes.
    pub program: Vec<u8>,
    /// Its arguments, as raw bytes.
    pub args: Vec<Vec<u8>>,
    /// Its working directory, where it is not the program's own.
    pub cwd: Option<PathBuf>,
    /// Its complete environment.
    pub env: Environment,
    /// What it reads.
    pub stdin: InputPolicy,
    /// What becomes of its standard output.
    pub stdout: StreamPolicy,
    /// What becomes of its standard error.
    pub stderr: StreamPolicy,
}

impl ProcessSpec {
    /// Describes a program with its arguments, in an empty environment, with inherited streams.
    pub fn new(program: Vec<u8>, args: Vec<Vec<u8>>) -> (result: Self)
        ensures
            result.program == program,
            result.args == args,
            result.cwd is None,
            result.env.wf(),
            result.env@ == Map::<Seq<u8>, Seq<u8>>::empty(),
            result.stdin is Inherit,
            result.stdout is Inherit,
            result.stderr is Inherit,
    {
        ProcessSpec {
            program,
            args,
            cwd: None,
            env: Environment::new(),
            stdin: InputPolicy::Inherit,
            stdout: StreamPolicy::Inherit,
            stderr: StreamPolicy::Inherit,
        }
    }
}

/// The kept part of a stream.
#[derive(Clone, Debug, Default, PartialEq, Eq)]
pub struct CapturedStream {
    /// The bytes kept.
    pub bytes: Vec<u8>,
    /// Whether the stream was longer.
    pub truncated: bool,
}

/// How a child ended.
#[derive(Clone, Copy, Debug, PartialEq, Eq, Structural)]
pub enum ChildTermination {
    /// It exited with a status.
    Exited(i32),
    /// A signal ended it.
    Signaled(i32),
}

impl ChildTermination {
    /// The status with which the program should exit after such a child, where it failed.
    pub open spec fn status(self) -> int {
        match self {
            ChildTermination::Exited(status) => status as int,
            ChildTermination::Signaled(signal) => outcome::signal_code(signal as int),
        }
    }

    /// Reports whether the child succeeded.
    pub fn success(self) -> (result: bool)
        ensures
            result == (self == ChildTermination::Exited(0)),
    {
        match self {
            ChildTermination::Exited(status) => status == 0,
            ChildTermination::Signaled(_) => false,
        }
    }

    /// Returns the status with which the program should exit after such a child.
    pub fn exit_status(self) -> (result: i32)
        ensures
            result == self.status(),
    {
        match self {
            ChildTermination::Exited(status) => status,
            ChildTermination::Signaled(signal) => outcome::signal_status(signal) as i32,
        }
    }
}

/// A child that ended.
#[derive(Clone, Debug, PartialEq, Eq)]
pub struct ProcessResult {
    /// How it ended.
    pub termination: ChildTermination,
    /// Its standard output.
    pub stdout: CapturedStream,
    /// Its standard error.
    pub stderr: CapturedStream,
}

/// Runs child processes.
pub trait ProcessRunner: Send + Sync {
    /// Runs a child to its end, or until the work is cancelled.
    fn run(&self, spec: &ProcessSpec, cancellation: &Cancellation) -> Result<ProcessResult, Error>;
}

/// The text of a byte string, as `String::from_utf8_lossy` gives it.
pub uninterp spec fn lossy(bytes: Seq<u8>) -> Seq<char>;

/// `String::from_utf8_lossy`: the bytes as text, with a replacement character for what is not
/// UTF-8. The result depends on the bytes alone, and is the text that they encode where they are
/// UTF-8.
#[verifier::external_body]
pub(crate) fn lossy_text(bytes: &Vec<u8>) -> (result: String)
    ensures
        result@ == lossy(bytes@),
        vstd::utf8::valid_utf8(bytes@) ==> result@ == vstd::utf8::decode_utf8(bytes@),
{
    String::from_utf8_lossy(bytes.as_slice()).into_owned()
}

/// The error of a child that failed.
pub open spec fn failure(program: Seq<u8>, termination: ChildTermination) -> outcome::ErrorModel {
    outcome::child(termination.status(), lossy(program) + " failed"@)
}

/// Returns the error of a child that failed.
pub fn child_failure(program: &Vec<u8>, termination: ChildTermination) -> (result: Error)
    ensures
        result@ == failure(program@, termination),
{
    Error::child(
        termination.exit_status(),
        crate::text::cat2(lossy_text(program).as_str(), " failed"),
    )
}

/// The error of a child names its program, and its status is that of the child: the one it exited
/// with, or 128 above the signal that ended it.
pub proof fn law_failed_children_hand_on_their_status(program: Seq<u8>, status: i32)
    requires
        0 < status < 128,
    ensures
        failure(program, ChildTermination::Exited(status)).exit_code == status,
        failure(program, ChildTermination::Signaled(status)).exit_code == 128 + status,
        failure(program, ChildTermination::Exited(status)).message == lossy(program)
            + " failed"@,
        failure(program, ChildTermination::Signaled(status)).message == lossy(program)
            + " failed"@,
{
}

/// Of two byte strings that agree up to some place, the one that ends there comes first, else the
/// one with the smaller byte there.
pub proof fn law_the_first_difference_orders_bytes(a: Seq<u8>, b: Seq<u8>, k: int)
    requires
        0 <= k <= a.len(),
        k < b.len(),
        a.take(k) == b.take(k),
        k == a.len() || a[k] < b[k],
    ensures
        precedes(a, b),
        !precedes(b, a),
    decreases k,
{
    if k > 0 {
        let (x, y) = (a.drop_first(), b.drop_first());
        assert(a[0] == a.take(k)[0] && b[0] == b.take(k)[0]);
        assert(x.take(k - 1) =~= a.take(k).drop_first());
        assert(y.take(k - 1) =~= b.take(k).drop_first());
        law_the_first_difference_orders_bytes(x, y, k - 1);
    }
}

} // verus!
