//! Typed operations over the standard flake output namespaces.

use std::path::PathBuf;

use vstd::prelude::*;

use crate::ordered;
use crate::outcome;
use crate::outcome::Error;
use crate::process;
use crate::process::{
    Cancellation, Environment, InputPolicy, ProcessResult, ProcessRunner, ProcessSpec, StreamPolicy,
};
use crate::text;

verus! {

/// A system that Nix builds for.
#[derive(Clone, Copy, Debug, PartialEq, Eq, Structural)]
pub enum NixSystem {
    /// Linux on 64-bit x86.
    X86_64Linux,
    /// Linux on 64-bit ARM.
    Aarch64Linux,
    /// macOS on 64-bit x86.
    X86_64Darwin,
    /// macOS on 64-bit ARM.
    Aarch64Darwin,
}

impl NixSystem {
    /// The name by which Nix knows a system.
    pub open spec fn name(self) -> Seq<char> {
        match self {
            NixSystem::X86_64Linux => "x86_64-linux"@,
            NixSystem::Aarch64Linux => "aarch64-linux"@,
            NixSystem::X86_64Darwin => "x86_64-darwin"@,
            NixSystem::Aarch64Darwin => "aarch64-darwin"@,
        }
    }

    /// Returns the name by which Nix knows this system.
    pub fn as_str(self) -> (result: &'static str)
        ensures
            result@ == self.name(),
    {
        match self {
            NixSystem::X86_64Linux => "x86_64-linux",
            NixSystem::Aarch64Linux => "aarch64-linux",
            NixSystem::X86_64Darwin => "x86_64-darwin",
            NixSystem::Aarch64Darwin => "aarch64-darwin",
        }
    }
}

/// A flake reference understood by the Nix command line, such as `.` or a Git URI.
#[derive(Debug, PartialEq, Eq)]
pub struct Flake {
    reference: String,
    working_directory: Option<PathBuf>,
}

impl Flake {
    /// The reference passed to Nix.
    pub closed spec fn reference_text(&self) -> Seq<char> {
        self.reference@
    }

    /// The directory from which relative references are resolved.
    pub closed spec fn directory(&self) -> Option<PathBuf> {
        self.working_directory
    }

    /// Creates a flake reference. An empty one is rejected when an operation is attempted.
    pub fn new(reference: &str) -> (result: Self)
        ensures
            result.reference_text() == reference@,
            result.directory() is None,
    {
        Flake { reference: reference.to_owned(), working_directory: None }
    }

    /// Resolves the flake reference from `working_directory` in every Nix operation.
    pub fn with_working_directory(self, working_directory: PathBuf) -> (result: Self)
        ensures
            result.reference_text() == self.reference_text(),
            result.directory() == Some(working_directory),
    {
        Flake { reference: self.reference, working_directory: Some(working_directory) }
    }

    /// Returns the reference passed to Nix.
    pub fn reference(&self) -> (result: &str)
        ensures
            result@ == self.reference_text(),
    {
        self.reference.as_str()
    }

    /// Returns the directory from which relative flake references are resolved.
    pub fn working_directory(&self) -> (result: Option<&PathBuf>)
        ensures
            match result {
                Some(path) => self.directory() == Some(*path),
                None => self.directory() is None,
            },
    {
        match &self.working_directory {
            Some(path) => Some(path),
            None => None,
        }
    }
}

impl Clone for Flake {
    fn clone(&self) -> (result: Self)
        ensures
            result.reference_text() == self.reference_text(),
            result.directory() == self.directory(),
    {
        Flake {
            reference: self.reference.clone(),
            working_directory: process::copy_path(&self.working_directory),
        }
    }
}

/// Standard flake namespaces supported by Nix.
#[derive(Clone, Copy, Debug, PartialEq, Eq, Structural)]
pub enum StandardFlakeKind {
    /// The `packages.<system>` output.
    Package,
    /// The `checks.<system>` output.
    Check,
    /// The `apps.<system>` output.
    App,
}

impl StandardFlakeKind {
    /// The attribute under which a namespace stands.
    pub open spec fn namespace(self) -> Seq<char> {
        match self {
            StandardFlakeKind::Package => "packages"@,
            StandardFlakeKind::Check => "checks"@,
            StandardFlakeKind::App => "apps"@,
        }
    }

    fn namespace_name(self) -> (result: &'static str)
        ensures
            result@ == self.namespace(),
    {
        match self {
            StandardFlakeKind::Package => "packages",
            StandardFlakeKind::Check => "checks",
            StandardFlakeKind::App => "apps",
        }
    }
}

/// How the character at a position of a name stands in a quoted Nix attribute. A dollar sign is
/// escaped where a brace follows it, since the two would start an interpolation.
pub open spec fn escape(name: Seq<char>, i: int) -> Seq<char> {
    if name[i] == '\\' {
        "\\\\"@
    } else if name[i] == '"' {
        "\\\""@
    } else if name[i] == '\n' {
        "\\n"@
    } else if name[i] == '\r' {
        "\\r"@
    } else if name[i] == '\t' {
        "\\t"@
    } else if name[i] == '$' && i + 1 < name.len() && name[i + 1] == '{' {
        "\\$"@
    } else {
        seq![name[i]]
    }
}

/// The first `n` characters of a name, each as it stands in a quoted Nix attribute.
pub open spec fn escaped(name: Seq<char>, n: int) -> Seq<char>
    decreases n,
{
    if n <= 0 {
        Seq::empty()
    } else {
        escaped(name, n - 1) + escape(name, n - 1)
    }
}

/// A name as a quoted Nix attribute.
pub open spec fn attribute_segment(name: Seq<char>) -> Seq<char> {
    "\""@ + escaped(name, name.len() as int) + "\""@
}

/// Returns an attribute name in quotes, with what cannot stand there escaped.
pub fn nix_attribute_segment(name: &str) -> (result: String)
    ensures
        result@ == attribute_segment(name@),
{
    let chars = text::characters(name);
    let mut inner = String::new();
    let mut i: usize = 0;
    while i < chars.len()
        invariant
            chars@ == name@,
            i <= chars@.len(),
            inner@ == escaped(name@, i as int),
        decreases chars@.len() - i,
    {
        let c = chars[i];
        if c == '\\' {
            inner.append("\\\\");
        } else if c == '"' {
            inner.append("\\\"");
        } else if c == '\n' {
            inner.append("\\n");
        } else if c == '\r' {
            inner.append("\\r");
        } else if c == '\t' {
            inner.append("\\t");
        } else if c == '$' && chars.len() - i > 1 && chars[i + 1] == '{' {
            inner.append("\\$");
        } else {
            inner.push(c);
        }
        assert(inner@ =~= escaped(name@, i as int) + escape(name@, i as int));
        i = i + 1;
    }
    text::cat3("\"", inner.as_str(), "\"")
}

/// The characters that an escape stands for: what Nix reads back from a quoted attribute.
pub open spec fn unescaped(segment: Seq<char>) -> Seq<char>
    decreases segment.len(),
{
    if segment.len() == 0 {
        Seq::empty()
    } else if segment[0] == '\\' && segment.len() > 1 {
        let meant = if segment[1] == 'n' {
            '\n'
        } else if segment[1] == 'r' {
            '\r'
        } else if segment[1] == 't' {
            '\t'
        } else {
            segment[1]
        };
        seq![meant] + unescaped(segment.skip(2))
    } else {
        seq![segment[0]] + unescaped(segment.drop_first())
    }
}

/// The escapes from a position on.
spec fn escaped_from(name: Seq<char>, i: int) -> Seq<char>
    decreases name.len() - i,
{
    if i >= name.len() {
        Seq::empty()
    } else {
        escape(name, i) + escaped_from(name, i + 1)
    }
}

proof fn lemma_escaped_splits(name: Seq<char>, i: int)
    requires
        0 <= i <= name.len(),
    ensures
        escaped(name, name.len() as int) == escaped(name, i) + escaped_from(name, i),
    decreases name.len() - i,
{
    if i < name.len() {
        lemma_escaped_splits(name, i + 1);
        assert(escaped(name, i + 1) == escaped(name, i) + escape(name, i));
        assert(escaped(name, i) + escape(name, i) + escaped_from(name, i + 1) =~= escaped(name, i)
            + (escape(name, i) + escaped_from(name, i + 1)));
    } else {
        assert(escaped(name, i) + escaped_from(name, i) =~= escaped(name, i));
    }
}

proof fn lemma_unescaped_from(name: Seq<char>, i: int)
    requires
        0 <= i <= name.len(),
    ensures
        unescaped(escaped_from(name, i)) == name.skip(i),
    decreases name.len() - i,
{
    reveal_strlit("\\\\");
    reveal_strlit("\\\"");
    reveal_strlit("\\n");
    reveal_strlit("\\r");
    reveal_strlit("\\t");
    reveal_strlit("\\$");
    if i < name.len() {
        lemma_unescaped_from(name, i + 1);
        let rest = escaped_from(name, i + 1);
        let whole = escaped_from(name, i);
        assert(whole == escape(name, i) + rest);
        assert(name.skip(i) =~= seq![name[i]] + name.skip(i + 1));
        if escape(name, i).len() == 1 {
            assert(whole.drop_first() =~= rest);
        } else {
            assert(escape(name, i).len() == 2);
            assert(whole.skip(2) =~= rest);
        }
    } else {
        assert(name.skip(i) =~= Seq::<char>::empty());
    }
}

/// Quoting loses nothing: what stands between the quotes of an attribute, read with the escapes
/// undone, is the name.
pub proof fn law_quoted_names_read_back(name: Seq<char>)
    ensures
        unescaped(escaped(name, name.len() as int)) == name,
{
    lemma_escaped_splits(name, 0);
    lemma_unescaped_from(name, 0);
    assert(escaped(name, 0) + escaped_from(name, 0) =~= escaped_from(name, 0));
    assert(name.skip(0) =~= name);
}

/// Different names are quoted differently.
pub proof fn law_quoting_is_injective(a: Seq<char>, b: Seq<char>)
    ensures
        attribute_segment(a) == attribute_segment(b) <==> a == b,
{
    reveal_strlit("\"");
    let inner_a = escaped(a, a.len() as int);
    let inner_b = escaped(b, b.len() as int);
    let segment_a = attribute_segment(a);
    let segment_b = attribute_segment(b);
    law_quoted_names_read_back(a);
    law_quoted_names_read_back(b);
    assert(segment_a.subrange(1, segment_a.len() - 1) =~= inner_a);
    assert(segment_b.subrange(1, segment_b.len() - 1) =~= inner_b);
}

/// A character is escaped only where it has to be: every other one, a dollar sign without a brace
/// behind it among them, stands in the quoted name as it is.
pub proof fn law_harmless_characters_stay_bare(name: Seq<char>, i: int)
    requires
        0 <= i < name.len(),
        name[i] != '\\' && name[i] != '"' && name[i] != '\n' && name[i] != '\r' && name[i] != '\t',
        name[i] == '$' ==> i + 1 == name.len() || name[i + 1] != '{',
    ensures
        escape(name, i) == seq![name[i]],
        escaped(name, i + 1) == escaped(name, i).push(name[i]),
{
    assert(escaped(name, i) + seq![name[i]] =~= escaped(name, i).push(name[i]));
}

/// The parity of the backslashes that end the first `n` characters: whether the next is escaped.
pub open spec fn armed(segment: Seq<char>, n: int) -> bool
    decreases n,
{
    0 < n && segment[n - 1] == '\\' && !armed(segment, n - 1)
}

proof fn lemma_armed_prefix(a: Seq<char>, b: Seq<char>, n: int)
    requires
        0 <= n <= a.len(),
        n <= b.len(),
        forall|i: int| 0 <= i < n ==> a[i] == b[i],
    ensures
        armed(a, n) == armed(b, n),
    decreases n,
{
    if n > 0 {
        lemma_armed_prefix(a, b, n - 1);
    }
}

proof fn lemma_no_bare_quotes(name: Seq<char>, n: int)
    requires
        0 <= n <= name.len(),
    ensures
        !armed(escaped(name, n), escaped(name, n).len() as int),
        forall|i: int|
            0 <= i < escaped(name, n).len() && #[trigger] escaped(name, n)[i] == '"' ==> armed(
                escaped(name, n),
                i,
            ),
        forall|i: int|
            0 < i < escaped(name, n).len() && #[trigger] escaped(name, n)[i] == '{' && escaped(
                name,
                n,
            )[i - 1] == '$' ==> armed(escaped(name, n), i - 1),
        escaped(name, n).len() > 0 && escaped(name, n).last() == '$' && n < name.len() && name[n]
            == '{' ==> armed(escaped(name, n), escaped(name, n).len() - 1),
    decreases n,
{
    reveal_strlit("\\\\");
    reveal_strlit("\\\"");
    reveal_strlit("\\n");
    reveal_strlit("\\r");
    reveal_strlit("\\t");
    reveal_strlit("\\$");
    if n > 0 {
        lemma_no_bare_quotes(name, n - 1);
        let before = escaped(name, n - 1);
        let added = escape(name, n - 1);
        let after = escaped(name, n);
        assert(after == before + added);
        let size = before.len() as int;
        assert forall|i: int| 0 <= i <= size implies #[trigger] armed(after, i) == armed(
            before,
            i,
        ) by {
            lemma_armed_prefix(after, before, i);
        }
        assert(!armed(after, size));
        if added.len() == 2 {
            assert(after[size] == '\\');
            assert(armed(after, size + 1));
            assert(!armed(after, size + 2));
        } else {
            assert(added.len() == 1);
            assert(after[size] == name[n - 1]);
            assert(!armed(after, size + 1));
        }
        assert forall|i: int| 0 <= i < after.len() && #[trigger] after[i] == '"' implies armed(
            after,
            i,
        ) by {
            if i < size {
                assert(before[i] == after[i]);
                assert(armed(after, i) == armed(before, i));
            }
        }
        assert forall|i: int|
            0 < i < after.len() && #[trigger] after[i] == '{' && after[i - 1] == '$' implies armed(
            after,
            i - 1,
        ) by {
            if i < size {
                assert(before[i] == after[i]);
                assert(before[i - 1] == after[i - 1]);
                assert(armed(after, i - 1) == armed(before, i - 1));
            } else if i == size {
                assert(before.last() == after[i - 1]);
                assert(armed(after, i - 1) == armed(before, i - 1));
            }
        }
    }
}

/// A quoted attribute ends where it should and interpolates nothing: between its quotes, every
/// quote and every dollar sign before a brace is escaped, and the closing quote is not.
pub proof fn law_quoted_names_stay_literal(name: Seq<char>)
    ensures
        ({
            let inner = escaped(name, name.len() as int);
            &&& attribute_segment(name) == "\""@ + inner + "\""@
            &&& !armed(inner, inner.len() as int)
            &&& forall|i: int|
                0 <= i < inner.len() && #[trigger] inner[i] == '"' ==> armed(inner, i)
            &&& forall|i: int|
                0 < i < inner.len() && #[trigger] inner[i] == '{' && inner[i - 1] == '$' ==> armed(
                    inner,
                    i - 1,
                )
        }),
{
    lemma_no_bare_quotes(name, name.len() as int);
}

/// One standard output namespace and optionally one named member.
#[derive(Debug, PartialEq, Eq)]
pub struct StandardFlake {
    kind: StandardFlakeKind,
    name: Option<String>,
    system: Option<NixSystem>,
}

/// What a request for standard outputs names.
#[verifier::ext_equal]
pub struct StandardFlakeModel {
    /// The namespace.
    pub kind: StandardFlakeKind,
    /// The member, where it is not all of them.
    pub name: Option<Seq<char>>,
    /// The system, where one was bound.
    pub system: Option<NixSystem>,
}

impl View for StandardFlake {
    type V = StandardFlakeModel;

    closed spec fn view(&self) -> StandardFlakeModel {
        StandardFlakeModel {
            kind: self.kind,
            name: match self.name {
                Some(name) => Some(name@),
                None => None,
            },
            system: self.system,
        }
    }
}

impl StandardFlakeModel {
    /// A named member of a namespace, for no system yet.
    pub open spec fn named(kind: StandardFlakeKind, name: Seq<char>) -> StandardFlakeModel {
        StandardFlakeModel { kind, name: Some(name), system: None }
    }

    /// The Nix attribute path.
    pub open spec fn path(self) -> Seq<char> {
        let system = match self.system {
            Some(system) => system.name(),
            None => "<system>"@,
        };
        let output = self.kind.namespace() + "."@ + system;
        match self.name {
            Some(name) => output + "."@ + attribute_segment(name),
            None => output,
        }
    }
}

impl StandardFlake {
    /// Selects a package by name.
    pub fn package(name: &str) -> (result: Self)
        ensures
            result@ == StandardFlakeModel::named(StandardFlakeKind::Package, name@),
    {
        StandardFlake::named(StandardFlakeKind::Package, name)
    }

    /// Selects a check by name.
    pub fn check(name: &str) -> (result: Self)
        ensures
            result@ == StandardFlakeModel::named(StandardFlakeKind::Check, name@),
    {
        StandardFlake::named(StandardFlakeKind::Check, name)
    }

    /// Selects an app by name.
    pub fn app(name: &str) -> (result: Self)
        ensures
            result@ == StandardFlakeModel::named(StandardFlakeKind::App, name@),
    {
        StandardFlake::named(StandardFlakeKind::App, name)
    }

    /// Selects all members of a standard namespace.
    pub fn all(kind: StandardFlakeKind) -> (result: Self)
        ensures
            result@ == (StandardFlakeModel { kind, name: None, system: None }),
    {
        StandardFlake { kind, name: None, system: None }
    }

    fn named(kind: StandardFlakeKind, name: &str) -> (result: Self)
        ensures
            result@ == StandardFlakeModel::named(kind, name@),
    {
        StandardFlake { kind, name: Some(name.to_owned()), system: None }
    }

    /// Binds the request to a Nix system.
    pub fn for_system(self, system: NixSystem) -> (result: Self)
        ensures
            result@ == (StandardFlakeModel { system: Some(system), ..self@ }),
    {
        StandardFlake { kind: self.kind, name: self.name, system: Some(system) }
    }

    /// Returns the Nix attribute path.
    pub fn attribute_path(&self) -> (result: String)
        ensures
            result@ == self@.path(),
    {
        let system = match self.system {
            Some(system) => system.as_str(),
            None => "<system>",
        };
        let output = text::cat3(self.kind.namespace_name(), ".", system);
        match &self.name {
            Some(name) => text::cat3(
                output.as_str(),
                ".",
                nix_attribute_segment(name.as_str()).as_str(),
            ),
            None => output,
        }
    }

    /// Returns a complete flake target suitable for the Nix command line.
    pub fn target_for(&self, flake: &Flake) -> (result: String)
        ensures
            result@ == flake.reference_text() + "#"@ + self@.path(),
    {
        text::cat3(flake.reference(), "#", self.attribute_path().as_str())
    }
}

impl Clone for StandardFlake {
    fn clone(&self) -> (result: Self)
        ensures
            result@ == self@,
    {
        StandardFlake {
            kind: self.kind,
            name: match &self.name {
                Some(name) => Some(name.clone()),
                None => None,
            },
            system: self.system,
        }
    }
}

/// Standard flake members discovered for one system.
#[derive(Clone, Debug, Default, PartialEq, Eq)]
pub struct FlakeContents {
    /// Package names in order.
    pub packages: Vec<String>,
    /// Check names in order.
    pub checks: Vec<String>,
    /// App names in order.
    pub apps: Vec<String>,
}

/// Caller-owned policy deciding which discovered checks to run.
pub trait CheckSelector: Send + Sync {
    /// Selects check names from `checks` for a caller-defined scope.
    fn select(&self, scope: &str, checks: &[String]) -> Result<Vec<String>, Error>;
}

/// Injectable operations over standard flake outputs.
pub trait FlakeOperations {
    /// Discovers packages, checks, and apps for the configured system.
    fn discover(&self, flake: &Flake, cancellation: &Cancellation) -> Result<FlakeContents, Error>;

    /// Discovers package names for the configured system.
    fn discover_packages(&self, flake: &Flake, cancellation: &Cancellation) -> Result<
        Vec<String>,
        Error,
    >;

    /// Discovers check names for the configured system.
    fn discover_checks(&self, flake: &Flake, cancellation: &Cancellation) -> Result<
        Vec<String>,
        Error,
    >;

    /// Discovers app names for the configured system.
    fn discover_apps(&self, flake: &Flake, cancellation: &Cancellation) -> Result<
        Vec<String>,
        Error,
    >;
}

/// The names in a JSON array of strings, or what is wrong with the text.
pub uninterp spec fn parsed_names(bytes: Seq<u8>) -> Result<Seq<Seq<char>>, Seq<char>>;

/// `serde_json::from_slice` at `Vec<String>`: the strings of a JSON array, or, written out, the
/// error for a text that is no such array. The result depends on the bytes alone.
#[verifier::external_body]
fn parse_names(bytes: &Vec<u8>) -> (result: Result<Vec<String>, String>)
    ensures
        match result {
            Ok(names) => parsed_names(bytes@) == Ok::<Seq<Seq<char>>, Seq<char>>(names.deep_view()),
            Err(error) => parsed_names(bytes@) == Err::<Seq<Seq<char>>, Seq<char>>(error@),
        },
{
    serde_json::from_slice::<Vec<String>>(bytes.as_slice()).map_err(|error| error.to_string())
}

/// What a listing of output names amounts to: the names in order, each once, where the text could
/// be read and no name is empty.
pub open spec fn listed_names(parsed: Result<Seq<Seq<char>>, Seq<char>>) -> Result<
    Seq<Seq<char>>,
    outcome::ErrorModel,
> {
    match parsed {
        Err(error) => Err(
            outcome::external(
                "nix returned invalid JSON while listing outputs: "@ + error,
            ),
        ),
        Ok(names) => if names.contains(Seq::<char>::empty()) {
            Err(outcome::external("nix returned an invalid standard output name"@))
        } else {
            Ok(ordered::listing(names.to_set()))
        },
    }
}

/// A list of names is what a model of it says, or the error is.
pub open spec fn lists(
    result: Result<Vec<String>, Error>,
    model: Result<Seq<Seq<char>>, outcome::ErrorModel>,
) -> bool {
    match (result, model) {
        (Ok(names), Ok(expected)) => names.deep_view() == expected,
        (Err(error), Err(expected)) => error@ == expected,
        _ => false,
    }
}

/// A parsed listing as its model has it.
pub open spec fn parsed_model(parsed: Result<Vec<String>, String>) -> Result<
    Seq<Seq<char>>,
    Seq<char>,
> {
    match parsed {
        Ok(names) => Ok(names.deep_view()),
        Err(error) => Err(error@),
    }
}

/// Reports whether a name is empty.
pub(crate) fn has_empty(names: &Vec<String>) -> (result: bool)
    ensures
        result == names.deep_view().contains(Seq::<char>::empty()),
{
    let mut i: usize = 0;
    while i < names.len()
        invariant
            i <= names@.len(),
            forall|j: int| 0 <= j < i ==> (#[trigger] names@[j])@.len() > 0,
        decreases names@.len() - i,
    {
        if names[i].as_str().is_empty() {
            assert(names.deep_view()[i as int] =~= Seq::<char>::empty());
            return true;
        }
        i = i + 1;
    }
    proof {
        if names.deep_view().contains(Seq::<char>::empty()) {
            let j = names.deep_view().index_of(Seq::<char>::empty());
            assert(names@[j]@.len() > 0);
        }
    }
    false
}

/// Turns a parsed listing of output names into the discovered names.
pub fn output_names(parsed: Result<Vec<String>, String>) -> (result: Result<Vec<String>, Error>)
    ensures
        lists(result, listed_names(parsed_model(parsed))),
{
    match parsed {
        Err(error) => Err(
            Error::external(
                text::cat2("nix returned invalid JSON while listing outputs: ", error.as_str()),
            ),
        ),
        Ok(names) => {
            if has_empty(&names) {
                return Err(
                    Error::external("nix returned an invalid standard output name".to_owned()),
                );
            }
            Ok(ordered::sorted(names.as_slice()))
        },
    }
}

/// A process specification lists a namespace of a flake: it evaluates the attribute names under a
/// bound on what is kept of each stream.
pub open spec fn lists_outputs(
    spec: ProcessSpec,
    nix: Seq<u8>,
    target: Seq<char>,
    directory: Option<PathBuf>,
    environment: Map<Seq<u8>, Seq<u8>>,
    limit: usize,
) -> bool {
    &&& spec.program@ == nix
    &&& spec.args.deep_view() == seq![
        vstd::utf8::encode_utf8("eval"@),
        vstd::utf8::encode_utf8("--json"@),
        vstd::utf8::encode_utf8(target),
        vstd::utf8::encode_utf8("--apply"@),
        vstd::utf8::encode_utf8("builtins.attrNames"@),
    ]
    &&& spec.cwd == directory
    &&& spec.env@ == environment
    &&& spec.stdin is Null
    &&& spec.stdout == (StreamPolicy::Capture { limit })
    &&& spec.stderr == (StreamPolicy::Capture { limit })
}

/// What an evaluation's output amounts to: nothing of a failed child or of a stream that was cut
/// off is used.
pub open spec fn captured(nix: Seq<u8>, reply: Result<ProcessResult, Error>) -> Result<
    Seq<u8>,
    outcome::ErrorModel,
> {
    match reply {
        Err(error) => Err(error@),
        Ok(child) => if child.termination != process::ChildTermination::Exited(0) {
            Err(process::failure(nix, child.termination))
        } else if child.stdout.truncated || child.stderr.truncated {
            Err(outcome::external("nix output exceeded the configured capture bound"@))
        } else {
            Ok(child.stdout.bytes@)
        },
    }
}

/// The names that an evaluation lists.
pub open spec fn discovered(nix: Seq<u8>, reply: Result<ProcessResult, Error>) -> Result<
    Seq<Seq<char>>,
    outcome::ErrorModel,
> {
    match captured(nix, reply) {
        Err(error) => Err(error),
        Ok(bytes) => listed_names(parsed_names(bytes)),
    }
}

/// Returns what is used of an evaluation's output.
pub fn captured_output(nix_path: &Vec<u8>, reply: Result<ProcessResult, Error>) -> (result: Result<
    Vec<u8>,
    Error,
>)
    ensures
        match (result, captured(nix_path@, reply)) {
            (Ok(bytes), Ok(expected)) => bytes@ == expected,
            (Err(error), Err(expected)) => error@ == expected,
            _ => false,
        },
{
    match reply {
        Err(error) => Err(error),
        Ok(child) => {
            if !child.termination.success() {
                Err(process::child_failure(nix_path, child.termination))
            } else if child.stdout.truncated || child.stderr.truncated {
                Err(Error::external("nix output exceeded the configured capture bound".to_owned()))
            } else {
                Ok(child.stdout.bytes)
            }
        },
    }
}

/// The bytes of a string's UTF-8 form.
fn bytes_of(s: &str) -> (result: Vec<u8>)
    ensures
        result@ == vstd::utf8::encode_utf8(s@),
{
    let mut result: Vec<u8> = Vec::new();
    result.extend_from_slice(s.as_bytes());
    assert(result@ =~= vstd::utf8::encode_utf8(s@));
    result
}

/// Configured flake service with explicit process, Nix path, system, and output bound.
pub struct NixTools<'runner, R: ProcessRunner> {
    runner: &'runner R,
    nix_path: Vec<u8>,
    system: NixSystem,
    output_limit: usize,
    environment: Environment,
}

/// What a flake service is configured with.
#[verifier::ext_equal]
pub struct NixToolsModel {
    /// The Nix executable.
    pub nix_path: Seq<u8>,
    /// The system whose outputs are listed.
    pub system: NixSystem,
    /// The bytes kept of each stream.
    pub output_limit: usize,
    /// The complete environment that Nix receives.
    pub environment: Map<Seq<u8>, Seq<u8>>,
}

impl NixToolsModel {
    /// The target under which a namespace of a flake is listed.
    pub open spec fn target(self, reference: Seq<char>, kind: StandardFlakeKind) -> Seq<char> {
        reference + "#"@ + (StandardFlakeModel {
            kind,
            name: None,
            system: Some(self.system),
        }).path()
    }

    /// The evaluation that lists a namespace of a flake.
    pub open spec fn asks(self, spec: ProcessSpec, flake: Flake, kind: StandardFlakeKind) -> bool {
        lists_outputs(
            spec,
            self.nix_path,
            self.target(flake.reference_text(), kind),
            flake.directory(),
            self.environment,
            self.output_limit,
        )
    }
}

impl<'runner, R: ProcessRunner> View for NixTools<'runner, R> {
    type V = NixToolsModel;

    closed spec fn view(&self) -> NixToolsModel {
        NixToolsModel {
            nix_path: self.nix_path@,
            system: self.system,
            output_limit: self.output_limit,
            environment: self.environment@,
        }
    }
}

impl<'runner, R: ProcessRunner> NixTools<'runner, R> {
    /// What runs Nix.
    pub closed spec fn runner(&self) -> &R {
        self.runner
    }

    /// A listing of a namespace is what one evaluation of it gives; a flake without a reference is
    /// rejected before any.
    pub open spec fn names_of(
        &self,
        flake: Flake,
        kind: StandardFlakeKind,
        cancellation: &Cancellation,
        names: Result<Seq<Seq<char>>, outcome::ErrorModel>,
    ) -> bool {
        if flake.reference_text().len() == 0 {
            names == Err::<Seq<Seq<char>>, outcome::ErrorModel>(
                outcome::usage("flake reference must not be empty"@),
            )
        } else {
            exists|spec: ProcessSpec, reply: Result<ProcessResult, Error>|
                {
                    &&& self@.asks(spec, flake, kind)
                    &&& #[trigger] call_ensures(R::run, (self.runner(), &spec, cancellation), reply)
                    &&& names == discovered(self@.nix_path, reply)
                }
        }
    }

    /// Creates a service with an empty environment.
    pub fn new(
        runner: &'runner R,
        nix_path: Vec<u8>,
        system: NixSystem,
        output_limit: usize,
    ) -> (result: Self)
        ensures
            result.runner() == runner,
            result@ == (NixToolsModel {
                nix_path: nix_path@,
                system,
                output_limit,
                environment: Map::empty(),
            }),
    {
        NixTools { runner, nix_path, system, output_limit, environment: Environment::new() }
    }

    /// Supplies the complete environment Nix should receive.
    pub fn with_environment(self, environment: Environment) -> (result: Self)
        ensures
            result.runner() == self.runner(),
            result@ == (NixToolsModel { environment: environment@, ..self@ }),
    {
        NixTools {
            runner: self.runner,
            nix_path: self.nix_path,
            system: self.system,
            output_limit: self.output_limit,
            environment,
        }
    }

    /// Describes the evaluation that lists a namespace of a flake.
    pub fn listing(&self, flake: &Flake, kind: StandardFlakeKind) -> (result: ProcessSpec)
        ensures
            self@.asks(result, *flake, kind),
    {
        let target = StandardFlake::all(kind).for_system(self.system).target_for(flake);
        let mut args: Vec<Vec<u8>> = Vec::new();
        args.push(bytes_of("eval"));
        args.push(bytes_of("--json"));
        args.push(bytes_of(target.as_str()));
        args.push(bytes_of("--apply"));
        args.push(bytes_of("builtins.attrNames"));
        let mut spec = ProcessSpec::new(process::copy_bytes(&self.nix_path), args);
        spec.cwd = match flake.working_directory() {
            Some(path) => Some(path.clone()),
            None => None,
        };
        spec.stdin = InputPolicy::Null;
        spec.stdout = StreamPolicy::Capture { limit: self.output_limit };
        spec.stderr = StreamPolicy::Capture { limit: self.output_limit };
        spec.env = self.environment.clone();
        proof {
            let expected = seq![
                vstd::utf8::encode_utf8("eval"@),
                vstd::utf8::encode_utf8("--json"@),
                vstd::utf8::encode_utf8(target@),
                vstd::utf8::encode_utf8("--apply"@),
                vstd::utf8::encode_utf8("builtins.attrNames"@),
            ];
            assert forall|i: int| 0 <= i < 5 implies #[trigger] spec.args.deep_view()[i]
                == expected[i] by {
                assert(spec.args@[i].deep_view() =~= spec.args@[i]@);
            }
            assert(spec.args.deep_view() =~= expected);
        }
        spec
    }

    fn names(
        &self,
        flake: &Flake,
        kind: StandardFlakeKind,
        cancellation: &Cancellation,
    ) -> (result: Result<Vec<String>, Error>)
        ensures
            exists|names: Result<Seq<Seq<char>>, outcome::ErrorModel>| #[trigger]
                self.names_of(*flake, kind, cancellation, names) && lists(result, names),
    {
        if flake.reference().is_empty() {
            let error = Error::usage("flake reference must not be empty".to_owned());
            assert(self.names_of(*flake, kind, cancellation, Err(error@)));
            return Err(error);
        }
        let spec = self.listing(flake, kind);
        let reply = self.runner.run(&spec, cancellation);
        proof {
            assert(self.names_of(
                *flake,
                kind,
                cancellation,
                discovered(self@.nix_path, reply),
            ));
        }
        match captured_output(&self.nix_path, reply) {
            Err(error) => Err(error),
            Ok(bytes) => output_names(parse_names(&bytes)),
        }
    }
}

impl<'runner, R: ProcessRunner> FlakeOperations for NixTools<'runner, R> {
    fn discover(&self, flake: &Flake, cancellation: &Cancellation) -> (result: Result<
        FlakeContents,
        Error,
    >)
        ensures
            match result {
                Ok(contents) => {
                    &&& self.names_of(
                        *flake,
                        StandardFlakeKind::Package,
                        cancellation,
                        Ok(contents.packages.deep_view()),
                    )
                    &&& self.names_of(
                        *flake,
                        StandardFlakeKind::Check,
                        cancellation,
                        Ok(contents.checks.deep_view()),
                    )
                    &&& self.names_of(
                        *flake,
                        StandardFlakeKind::App,
                        cancellation,
                        Ok(contents.apps.deep_view()),
                    )
                },
                Err(error) => {
                    ||| self.names_of(
                        *flake,
                        StandardFlakeKind::Package,
                        cancellation,
                        Err(error@),
                    )
                    ||| {
                        &&& exists|packages: Seq<Seq<char>>| #[trigger]
                            self.names_of(
                                *flake,
                                StandardFlakeKind::Package,
                                cancellation,
                                Ok(packages),
                            )
                        &&& self.names_of(
                            *flake,
                            StandardFlakeKind::Check,
                            cancellation,
                            Err(error@),
                        )
                    }
                    ||| {
                        &&& exists|packages: Seq<Seq<char>>| #[trigger]
                            self.names_of(
                                *flake,
                                StandardFlakeKind::Package,
                                cancellation,
                                Ok(packages),
                            )
                        &&& exists|checks: Seq<Seq<char>>| #[trigger]
                            self.names_of(
                                *flake,
                                StandardFlakeKind::Check,
                                cancellation,
                                Ok(checks),
                            )
                        &&& self.names_of(
                            *flake,
                            StandardFlakeKind::App,
                            cancellation,
                            Err(error@),
                        )
                    }
                },
            },
    {
        let packages = match self.discover_packages(flake, cancellation) {
            Ok(names) => names,
            Err(error) => {
                return Err(error);
            },
        };
        let checks = match self.discover_checks(flake, cancellation) {
            Ok(names) => names,
            Err(error) => {
                return Err(error);
            },
        };
        let apps = match self.discover_apps(flake, cancellation) {
            Ok(names) => names,
            Err(error) => {
                return Err(error);
            },
        };
        Ok(FlakeContents { packages, checks, apps })
    }

    fn discover_packages(&self, flake: &Flake, cancellation: &Cancellation) -> (result: Result<
        Vec<String>,
        Error,
    >)
        ensures
            exists|names: Result<Seq<Seq<char>>, outcome::ErrorModel>| #[trigger]
                self.names_of(*flake, StandardFlakeKind::Package, cancellation, names) && lists(
                    result,
                    names,
                ),
    {
        self.names(flake, StandardFlakeKind::Package, cancellation)
    }

    fn discover_checks(&self, flake: &Flake, cancellation: &Cancellation) -> (result: Result<
        Vec<String>,
        Error,
    >)
        ensures
            exists|names: Result<Seq<Seq<char>>, outcome::ErrorModel>| #[trigger]
                self.names_of(*flake, StandardFlakeKind::Check, cancellation, names) && lists(
                    result,
                    names,
                ),
    {
        self.names(flake, StandardFlakeKind::Check, cancellation)
    }

    fn discover_apps(&self, flake: &Flake, cancellation: &Cancellation) -> (result: Result<
        Vec<String>,
        Error,
    >)
        ensures
            exists|names: Result<Seq<Seq<char>>, outcome::ErrorModel>| #[trigger]
                self.names_of(*flake, StandardFlakeKind::App, cancellation, names) && lists(
                    result,
                    names,
                ),
    {
        self.names(flake, StandardFlakeKind::App, cancellation)
    }
}

/// Discovered names are those that were listed, each once and in order; a listing that could not be
/// read or that holds an empty name gives none, and no other listing fails.
pub proof fn law_discovered_names_are_the_listed_ones(
    parsed: Result<Seq<Seq<char>>, Seq<char>>,
    name: Seq<char>,
)
    ensures
        listed_names(parsed) is Ok <==> (parsed matches Ok(names) && !names.contains(
            Seq::<char>::empty(),
        )),
        listed_names(parsed) matches Ok(list) ==> {
            &&& list.contains(name) <==> parsed->Ok_0.contains(name)
            &&& forall|i: int, j: int|
                0 <= i < j < list.len() ==> text::precedes(#[trigger] list[i], #[trigger] list[j])
        },
        listed_names(parsed) matches Err(error) ==> error.kind is External && error.exit_code == 1,
        parsed matches Err(reason) ==> (listed_names(parsed) matches Err(error) && text::ends(
            error.message,
            reason,
        )),
{
    if let Ok(names) = parsed {
        vstd::seq_lib::seq_to_set_is_finite(names);
        ordered::lemma_finite_listing(names.to_set());
    }
    if let Err(reason) = parsed {
        text::law_texts_hold_their_parts(
            reason,
            "nix returned invalid JSON while listing outputs: "@,
            reason,
            Seq::empty(),
        );
    }
}

/// Only the whole output of a child that succeeded is used: one that failed gives its own status,
/// and one whose streams were cut off gives an error.
pub proof fn law_only_whole_output_is_used(nix: Seq<u8>, reply: Result<ProcessResult, Error>)
    ensures
        captured(nix, reply) is Ok <==> (reply matches Ok(child) && child.termination
            == process::ChildTermination::Exited(0) && !child.stdout.truncated
            && !child.stderr.truncated),
        captured(nix, reply) matches Ok(bytes) ==> bytes == reply->Ok_0.stdout.bytes@,
        reply matches Err(error) ==> captured(nix, reply) == Err::<Seq<u8>, outcome::ErrorModel>(
            error@,
        ),
        match reply {
            Ok(child) => match child.termination {
                process::ChildTermination::Exited(status) => 0 < status < 256 ==> (captured(
                    nix,
                    reply,
                ) matches Err(error) && error.exit_code == status && error.kind is Child),
                process::ChildTermination::Signaled(signal) => 0 < signal < 128 ==> (captured(
                    nix,
                    reply,
                ) matches Err(error) && error.exit_code == 128 + signal && error.kind is Child),
            },
            Err(_) => true,
        },
{
}

/// Under one namespace and one system, attribute paths are told apart by the member they name.
pub proof fn law_attribute_paths_are_unambiguous(a: StandardFlakeModel, b: StandardFlakeModel)
    requires
        a.kind == b.kind,
        a.system == b.system,
    ensures
        a.path() == b.path() <==> a.name == b.name,
        a.name matches Some(name) ==> text::ends(a.path(), attribute_segment(name)),
        text::starts(a.path(), a.kind.namespace() + "."@),
        a.system matches Some(system) ==> text::starts(
            a.path(),
            a.kind.namespace() + "."@ + system.name(),
        ),
{
    reveal_strlit(".");
    let system = match a.system {
        Some(system) => system.name(),
        None => "<system>"@,
    };
    let output = a.kind.namespace() + "."@ + system;
    lemma_member_path(output, a.name);
    lemma_member_path(output, b.name);
    match (a.name, b.name) {
        (Some(x), Some(y)) => {
            law_quoting_is_injective(x, y);
            let (p, q) = (a.path(), b.path());
            let at = output.len() as int + 1;
            assert(p.skip(at) =~= attribute_segment(x));
            assert(q.skip(at) =~= attribute_segment(y));
        },
        (Some(x), None) => {
            assert(a.path().len() > b.path().len());
        },
        (None, Some(y)) => {
            assert(b.path().len() > a.path().len());
        },
        (None, None) => {},
    }
    let front = a.kind.namespace() + "."@;
    assert(a.path().take(front.len() as int) =~= front);
    assert(a.path().take(output.len() as int) =~= output);
}

proof fn lemma_member_path(output: Seq<char>, name: Option<Seq<char>>)
    ensures
        name matches Some(name) ==> text::ends(
            output + "."@ + attribute_segment(name),
            attribute_segment(name),
        ),
{
    if let Some(name) = name {
        text::law_texts_hold_their_parts(
            output,
            output + "."@,
            attribute_segment(name),
            Seq::empty(),
        );
    }
}

/// A listing evaluates the attribute names of just the flake's namespace for the configured system,
/// from the flake's directory and in the configured environment, reads no input, and keeps no more
/// of each stream than the configured bound.
pub proof fn law_listings_evaluate_one_namespace(
    tools: NixToolsModel,
    spec: ProcessSpec,
    flake: Flake,
    kind: StandardFlakeKind,
)
    requires
        tools.asks(spec, flake, kind),
    ensures
        spec.program@ == tools.nix_path,
        spec.args.deep_view().len() == 5,
        spec.args.deep_view()[0] == vstd::utf8::encode_utf8("eval"@),
        spec.args.deep_view()[1] == vstd::utf8::encode_utf8("--json"@),
        spec.args.deep_view()[2] == vstd::utf8::encode_utf8(
            flake.reference_text() + "#"@ + (kind.namespace() + "."@ + tools.system.name()),
        ),
        spec.args.deep_view()[3] == vstd::utf8::encode_utf8("--apply"@),
        spec.args.deep_view()[4] == vstd::utf8::encode_utf8("builtins.attrNames"@),
        spec.cwd == flake.directory(),
        spec.env@ == tools.environment,
        spec.stdin is Null,
        spec.stdout == (StreamPolicy::Capture { limit: tools.output_limit }),
        spec.stderr == (StreamPolicy::Capture { limit: tools.output_limit }),
{
}

/// A listing of a flake that has a reference gives the names that one evaluation printed, if that
/// succeeded, was kept whole and printed names; a flake without a reference is not evaluated.
pub proof fn law_listings_give_what_was_printed<'runner, R: ProcessRunner>(
    tools: NixTools<'runner, R>,
    flake: Flake,
    kind: StandardFlakeKind,
    cancellation: &Cancellation,
    names: Result<Seq<Seq<char>>, outcome::ErrorModel>,
    name: Seq<char>,
)
    requires
        tools.names_of(flake, kind, cancellation, names),
    ensures
        flake.reference_text().len() == 0 ==> (names matches Err(error) && error.kind is Usage),
        names matches Ok(list) ==> flake.reference_text().len() > 0 && exists|
            spec: ProcessSpec,
            reply: Result<ProcessResult, Error>,
        |
            {
                &&& tools@.asks(spec, flake, kind)
                &&& #[trigger] call_ensures(R::run, (tools.runner(), &spec, cancellation), reply)
                &&& reply matches Ok(child) && child.termination
                    == process::ChildTermination::Exited(0) && (parsed_names(
                    child.stdout.bytes@,
                ) matches Ok(printed) && (list.contains(name) <==> printed.contains(name)))
            },
{
    if flake.reference_text().len() > 0 {
        let (spec, reply) = choose|spec: ProcessSpec, reply: Result<ProcessResult, Error>|
            {
                &&& tools@.asks(spec, flake, kind)
                &&& #[trigger] call_ensures(R::run, (tools.runner(), &spec, cancellation), reply)
                &&& names == discovered(tools@.nix_path, reply)
            };
        law_only_whole_output_is_used(tools@.nix_path, reply);
        if let Ok(child) = reply {
            law_discovered_names_are_the_listed_ones(parsed_names(child.stdout.bytes@), name);
        }
        assert(call_ensures(R::run, (tools.runner(), &spec, cancellation), reply));
    }
}

} // verus!
