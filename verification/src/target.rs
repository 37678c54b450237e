//! Service selectors for command lines and flake outputs.

use std::str::FromStr;

use vstd::prelude::*;

use crate::flake::CheckSelector;
use crate::ordered;
use crate::outcome;
use crate::outcome::{Error, ErrorKind};
use crate::text;

verus! {

/// An ASCII letter or digit.
pub open spec fn is_alphanumeric(c: char) -> bool {
    ('a' <= c && c <= 'z') || ('A' <= c && c <= 'Z') || ('0' <= c && c <= '9')
}

/// A component starts with an ASCII letter or digit and holds only those, `_`, `.` and `-`.
pub open spec fn is_component(value: Seq<char>) -> bool {
    &&& value.len() > 0
    &&& is_alphanumeric(value[0])
    &&& forall|i: int|
        0 <= i < value.len() ==> is_alphanumeric(#[trigger] value[i]) || value[i] == '_'
            || value[i] == '.' || value[i] == '-'
}

/// The name of a job of a service.
pub open spec fn name_of(service: Seq<char>, job: Seq<char>) -> Seq<char> {
    service + seq![':'] + job
}

/// A service and a job, both components, with a colon between them.
pub open spec fn is_target(value: Seq<char>) -> bool {
    exists|service: Seq<char>, job: Seq<char>|
        is_component(service) && is_component(job) && value == #[trigger] name_of(service, job)
}

/// The position of the first colon, or the end.
pub open spec fn colon(value: Seq<char>) -> int
    decreases value.len(),
{
    if value.len() == 0 || value[0] == ':' {
        0
    } else {
        1 + colon(value.drop_first())
    }
}

/// The first colon is the one position that holds a colon and has none before it.
proof fn lemma_colon(value: Seq<char>, at: int)
    requires
        0 <= at <= value.len(),
        at < value.len() ==> value[at] == ':',
        forall|i: int| 0 <= i < at ==> value[i] != ':',
    ensures
        colon(value) == at,
    decreases value.len(),
{
    if at > 0 {
        lemma_colon(value.drop_first(), at - 1);
    }
}

/// The text of a string with quotes round it, as its `Debug` form writes it.
pub uninterp spec fn quoted(value: Seq<char>) -> Seq<char>;

/// `<str as Debug>::fmt`, through `format!`: the string in quotes with what cannot stand there
/// escaped. The result depends on the string alone.
#[verifier::external_body]
fn quote(value: &str) -> (result: String)
    ensures
        result@ == quoted(value@),
{
    format!("{value:?}")
}

/// The error for a string that is no component.
pub open spec fn component_error(value: Seq<char>) -> outcome::ErrorModel {
    outcome::usage(
        "invalid service or target name "@ + quoted(value)
            + ": use an ASCII letter or digit followed by letters, digits, '_', '.', or '-'"@,
    )
}

/// The error for a string that is no target: without a colon it is no pair, and otherwise the
/// first part that is no component is at fault.
pub open spec fn target_error(value: Seq<char>) -> outcome::ErrorModel {
    if !value.contains(':') {
        outcome::usage("target must be service:job (for example web:dev)"@)
    } else if !is_component(value.take(colon(value))) {
        component_error(value.take(colon(value)))
    } else {
        component_error(value.skip(colon(value) + 1))
    }
}

/// Reports whether a character is an ASCII letter or digit.
pub(crate) fn is_name_character(c: char) -> (result: bool)
    ensures
        result == is_alphanumeric(c),
{
    ('a' <= c && c <= 'z') || ('A' <= c && c <= 'Z') || ('0' <= c && c <= '9')
}

/// Reports whether a string is a component.
pub fn valid_component(value: &str) -> (result: bool)
    ensures
        result == is_component(value@),
{
    let chars = text::characters(value);
    if chars.len() == 0 || !is_name_character(chars[0]) {
        return false;
    }
    let mut i: usize = 0;
    while i < chars.len()
        invariant
            chars@ == value@,
            i <= chars@.len(),
            forall|j: int|
                0 <= j < i ==> is_alphanumeric(#[trigger] value@[j]) || value@[j] == '_'
                    || value@[j] == '.' || value@[j] == '-',
        decreases chars@.len() - i,
    {
        let c = chars[i];
        if !(is_name_character(c) || c == '_' || c == '.' || c == '-') {
            assert(value@[i as int] == c);
            return false;
        }
        i = i + 1;
    }
    true
}

fn validate_component(value: &str) -> (result: Result<(), Error>)
    ensures
        outcome::agrees(
            result,
            if is_component(value@) {
                Ok(())
            } else {
                Err(component_error(value@))
            },
        ),
{
    if valid_component(value) {
        Ok(())
    } else {
        Err(
            Error::usage(
                text::cat3(
                    "invalid service or target name ",
                    quote(value).as_str(),
                    ": use an ASCII letter or digit followed by letters, digits, '_', '.', or '-'",
                ),
            ),
        )
    }
}

/// A `service:job` selector, which is also the exact name of a flake output.
#[derive(Debug, PartialEq, Eq)]
pub struct ServiceTarget {
    service: String,
    job: String,
}

impl ServiceTarget {
    /// The service's name.
    pub closed spec fn service_name(&self) -> Seq<char> {
        self.service@
    }

    /// The job's name.
    pub closed spec fn job_name(&self) -> Seq<char> {
        self.job@
    }

    /// Both names are components.
    pub open spec fn wf(&self) -> bool {
        is_component(self.service_name()) && is_component(self.job_name())
    }

    /// Returns the service that owns this target.
    pub fn service(&self) -> (result: &str)
        ensures
            result@ == self.service_name(),
    {
        self.service.as_str()
    }

    /// Returns the named job within the service.
    pub fn job(&self) -> (result: &str)
        ensures
            result@ == self.job_name(),
    {
        self.job.as_str()
    }

    /// Returns the exact attribute name beneath `apps.<system>` or `checks.<system>`.
    pub fn output_name(&self) -> (result: String)
        ensures
            result@ == name_of(self.service_name(), self.job_name()),
    {
        let result = text::cat3(self.service.as_str(), ":", self.job.as_str());
        proof {
            reveal_strlit(":");
            assert(":"@ =~= seq![':']);
        }
        result
    }

    /// Reads a target from its name.
    pub fn parse(value: &str) -> (result: Result<Self, Error>)
        ensures
            match result {
                Ok(target) => {
                    &&& target.wf()
                    &&& value@ == name_of(target.service_name(), target.job_name())
                },
                Err(error) => !is_target(value@) && error@ == target_error(value@),
            },
    {
        let chars = text::characters(value);
        let at = match text::find(&chars, ':') {
            Some(at) => at,
            None => {
                proof {
                    if is_target(value@) {
                        lemma_targets_have_a_colon(value@);
                    }
                }
                return Err(
                    Error::usage("target must be service:job (for example web:dev)".to_owned()),
                );
            },
        };
        let size = chars.len();
        let service = text::from_characters(&chars, 0, at);
        let job = text::from_characters(&chars, at + 1, size);
        proof {
            assert forall|i: int| 0 <= i < at implies value@[i] != ':' by {
                assert(value@.take(at as int)[i] == value@[i]);
            }
            lemma_colon(value@, at as int);
            assert(service@ =~= value@.take(at as int));
            assert(job@ =~= value@.skip(at + 1));
            assert(value@.contains(':'));
            assert(value@ =~= name_of(service@, job@));
            if is_target(value@) {
                lemma_targets_split_at_the_colon(value@);
            }
        }
        match validate_component(service.as_str()) {
            Ok(_) => {},
            Err(error) => {
                return Err(error);
            },
        }
        match validate_component(job.as_str()) {
            Ok(_) => {},
            Err(error) => {
                return Err(error);
            },
        }
        Ok(ServiceTarget { service, job })
    }
}

impl FromStr for ServiceTarget {
    type Err = Error;

    fn from_str(value: &str) -> (result: Result<Self, Error>)
        ensures
            match result {
                Ok(target) => {
                    &&& target.wf()
                    &&& value@ == name_of(target.service_name(), target.job_name())
                },
                Err(error) => !is_target(value@) && error@ == target_error(value@),
            },
    {
        ServiceTarget::parse(value)
    }
}

impl Clone for ServiceTarget {
    fn clone(&self) -> (result: Self)
        ensures
            result.service_name() == self.service_name(),
            result.job_name() == self.job_name(),
    {
        ServiceTarget { service: self.service.clone(), job: self.job.clone() }
    }
}

proof fn lemma_targets_have_a_colon(value: Seq<char>)
    requires
        is_target(value),
    ensures
        value.contains(':'),
{
    let (service, job) = choose|service: Seq<char>, job: Seq<char>|
        is_component(service) && is_component(job) && value == #[trigger] name_of(service, job);
    assert(value[service.len() as int] == ':');
}

/// A target is what stands before its first colon, the colon and what stands after it.
proof fn lemma_targets_split_at_the_colon(value: Seq<char>)
    requires
        is_target(value),
    ensures
        is_component(value.take(colon(value))),
        is_component(value.skip(colon(value) + 1)),
        value == name_of(value.take(colon(value)), value.skip(colon(value) + 1)),
{
    let (service, job) = choose|service: Seq<char>, job: Seq<char>|
        is_component(service) && is_component(job) && value == #[trigger] name_of(service, job);
    let at = service.len() as int;
    assert forall|i: int| 0 <= i < at implies value[i] != ':' by {
        assert(value[i] == service[i]);
    }
    lemma_colon(value, at);
    assert(value.take(at) =~= service);
    assert(value.skip(at + 1) =~= job);
}

/// Two targets of one name are one target: the name says which service and which job is meant.
pub proof fn law_target_names_are_unambiguous(
    service: Seq<char>,
    job: Seq<char>,
    other_service: Seq<char>,
    other_job: Seq<char>,
)
    requires
        is_component(service),
        is_component(job),
        is_component(other_service),
        is_component(other_job),
        name_of(service, job) == name_of(other_service, other_job),
    ensures
        service == other_service,
        job == other_job,
{
    let value = name_of(service, job);
    let other = name_of(other_service, other_job);
    assert forall|i: int| 0 <= i < service.len() implies value[i] != ':' by {
        assert(value[i] == service[i]);
    }
    lemma_colon(value, service.len() as int);
    assert forall|i: int| 0 <= i < other_service.len() implies other[i] != ':' by {
        assert(other[i] == other_service[i]);
    }
    lemma_colon(other, other_service.len() as int);
    assert(value.take(service.len() as int) =~= service);
    assert(other.take(other_service.len() as int) =~= other_service);
    assert(value.skip(1 + service.len() as int) =~= job);
    assert(other.skip(1 + other_service.len() as int) =~= other_job);
}

/// Selects all `service:*` checks or one exact `service:check`.
#[derive(Clone, Copy, Debug, Default)]
pub struct ServiceCheckSelector;

/// A scope is one target or one service.
pub open spec fn is_scope(scope: Seq<char>) -> bool {
    is_target(scope) || is_component(scope)
}

/// A scope with a colon selects the check of that name; another one selects a service's jobs.
pub open spec fn selects(scope: Seq<char>, name: Seq<char>) -> bool {
    if scope.contains(':') {
        name == scope
    } else {
        &&& text::starts(name, scope + seq![':'])
        &&& is_component(name.skip(1 + scope.len() as int))
    }
}

/// The checks that a scope selects.
pub open spec fn selection(scope: Seq<char>, checks: Seq<Seq<char>>) -> Set<Seq<char>> {
    Set::new(|name: Seq<char>| checks.contains(name) && selects(scope, name))
}

/// What the selection of a scope gives.
pub open spec fn selected(scope: Seq<char>, checks: Seq<Seq<char>>) -> Result<
    Seq<Seq<char>>,
    outcome::ErrorModel,
> {
    if !is_scope(scope) {
        Err(
            if scope.contains(':') {
                target_error(scope)
            } else {
                component_error(scope)
            },
        )
    } else if selection(scope, checks) == Set::<Seq<char>>::empty() {
        Err(outcome::plain(ErrorKind::NotFound, "no checks match selector "@ + scope))
    } else {
        Ok(ordered::listing(selection(scope, checks)))
    }
}

proof fn lemma_components_have_no_colon(value: Seq<char>)
    requires
        is_component(value),
    ensures
        !value.contains(':'),
{
    if value.contains(':') {
        let i = value.index_of(':');
        assert(value[i] == ':');
        assert(is_alphanumeric(value[i]) || value[i] == '_' || value[i] == '.' || value[i] == '-');
    }
}

impl CheckSelector for ServiceCheckSelector {
    fn select(&self, scope: &str, checks: &[String]) -> (result: Result<Vec<String>, Error>)
        ensures
            match result {
                Ok(names) => selected(scope@, checks.deep_view()) == Ok::<
                    Seq<Seq<char>>,
                    outcome::ErrorModel,
                >(names.deep_view()),
                Err(error) => selected(scope@, checks.deep_view()) == Err::<
                    Seq<Seq<char>>,
                    outcome::ErrorModel,
                >(error@),
            },
    {
        let exact = text::contains_character(scope, ':');
        proof {
            if is_target(scope@) {
                lemma_targets_have_a_colon(scope@);
            }
            if is_component(scope@) {
                lemma_components_have_no_colon(scope@);
            }
        }
        if exact {
            match ServiceTarget::parse(scope) {
                Ok(_) => {},
                Err(error) => {
                    return Err(error);
                },
            }
        } else {
            match validate_component(scope) {
                Ok(_) => {},
                Err(error) => {
                    return Err(error);
                },
            }
        }
        let ghost all = checks.deep_view();
        let mut chosen = ordered::StringSet::new();
        let mut i: usize = 0;
        assert(chosen@ =~= selection(scope@, all.take(0)));
        while i < checks.len()
            invariant
                all == checks.deep_view(),
                exact == scope@.contains(':'),
                i <= checks@.len(),
                chosen.wf(),
                chosen@ == selection(scope@, all.take(i as int)),
            decreases checks@.len() - i,
        {
            let name = &checks[i];
            let matching = if exact {
                text::same(name.as_str(), scope)
            } else {
                in_service(name.as_str(), scope)
            };
            proof {
                lemma_selection_grows(scope@, all, i as int);
                if !matching {
                    assert(selection(scope@, all.take(i + 1)) =~= selection(
                        scope@,
                        all.take(i as int),
                    ));
                }
            }
            if matching {
                chosen.insert(name.clone());
            }
            i = i + 1;
        }
        assert(all.take(checks@.len() as int) =~= all);
        if chosen.is_empty() {
            return Err(
                Error::new(ErrorKind::NotFound, text::cat2("no checks match selector ", scope)),
            );
        }
        Ok(chosen.to_list())
    }
}

proof fn lemma_selection_grows(scope: Seq<char>, all: Seq<Seq<char>>, i: int)
    requires
        0 <= i < all.len(),
    ensures
        selects(scope, all[i]) ==> selection(scope, all.take(i + 1)) == selection(
            scope,
            all.take(i),
        ).insert(all[i]),
        forall|name: Seq<char>| #[trigger]
            selection(scope, all.take(i + 1)).contains(name) <==> (selection(
                scope,
                all.take(i),
            ).contains(name) || (name == all[i] && selects(scope, all[i]))),
{
    let before = all.take(i);
    let after = all.take(i + 1);
    assert forall|name: Seq<char>| #[trigger]
        selection(scope, after).contains(name) <==> (selection(scope, before).contains(name) || (
        name == all[i] && selects(scope, all[i]))) by {
        if before.contains(name) {
            assert(after[before.index_of(name)] == name);
        }
        assert(after[i] == all[i]);
        if after.contains(name) && name != all[i] {
            assert(before[after.index_of(name)] == name);
        }
    }
    if selects(scope, all[i]) {
        assert(selection(scope, after) =~= selection(scope, before).insert(all[i]));
    }
}

/// Reports whether a name is that of a job of a service.
fn in_service(name: &str, service: &str) -> (result: bool)
    ensures
        result == (text::starts(name@, service@ + seq![':']) && is_component(
            name@.skip(1 + service@.len() as int),
        )),
{
    let prefix = text::cat2(service, ":");
    proof {
        reveal_strlit(":");
        assert(":"@ =~= seq![':']);
    }
    if !text::starts_with(name, prefix.as_str()) {
        return false;
    }
    let chars = text::characters(name);
    let skipped = text::characters(prefix.as_str()).len();
    let job = text::from_characters(&chars, skipped, chars.len());
    assert(job@ =~= name@.skip(1 + service@.len() as int));
    valid_component(job.as_str())
}

/// A selection takes from the discovered checks only: it never grows beyond them.
pub proof fn law_selections_are_discovered_checks(scope: Seq<char>, checks: Seq<Seq<char>>)
    ensures
        selected(scope, checks) matches Ok(names) ==> forall|name: Seq<char>| #[trigger]
            names.contains(name) ==> checks.contains(name),
{
    if selected(scope, checks) is Ok {
        lemma_selection_has_a_listing(scope, checks);
    }
}

/// A selection is never empty, so it cannot stand for all checks.
pub proof fn law_selections_are_not_empty(scope: Seq<char>, checks: Seq<Seq<char>>)
    ensures
        selected(scope, checks) matches Ok(names) ==> names.len() > 0,
{
    if selected(scope, checks) is Ok {
        lemma_selection_has_a_listing(scope, checks);
        let names = selected(scope, checks)->Ok_0;
        let set = selection(scope, checks);
        if names.len() == 0 {
            assert forall|name: Seq<char>| !set.contains(name) by {
                assert(!names.contains(name));
            }
            assert(set =~= Set::<Seq<char>>::empty());
        }
    }
}

/// A service selects its own jobs and no job of another service.
pub proof fn law_services_select_their_own_jobs(scope: Seq<char>, checks: Seq<Seq<char>>)
    requires
        is_component(scope),
    ensures
        selected(scope, checks) matches Ok(names) ==> forall|name: Seq<char>| #[trigger]
            names.contains(name) ==> exists|job: Seq<char>|
            is_component(job) && name == #[trigger] name_of(scope, job),
{
    if selected(scope, checks) is Ok {
        lemma_selection_has_a_listing(scope, checks);
        lemma_components_have_no_colon(scope);
        let names = selected(scope, checks)->Ok_0;
        assert forall|name: Seq<char>| #[trigger] names.contains(name) implies exists|
            job: Seq<char>,
        |
            is_component(job) && name == #[trigger] name_of(scope, job) by {
            assert(selection(scope, checks).contains(name));
            let job = name.skip(1 + scope.len() as int);
            assert(name =~= name_of(scope, job)) by {
                assert(name =~= name.take(1 + scope.len() as int) + job);
            }
        }
    }
}

/// A target selects the check of its own name and nothing else.
pub proof fn law_targets_select_one_check(scope: Seq<char>, checks: Seq<Seq<char>>)
    requires
        is_target(scope),
    ensures
        selected(scope, checks) is Ok <==> checks.contains(scope),
        selected(scope, checks) matches Ok(names) ==> names == seq![scope],
{
    lemma_targets_have_a_colon(scope);
    let set = selection(scope, checks);
    if checks.contains(scope) {
        assert(set.contains(scope));
        assert(set != Set::<Seq<char>>::empty());
        let names = seq![scope];
        assert forall|name: Seq<char>| #[trigger] names.contains(name) <==> set.contains(name) by {
            if name == scope {
                assert(names[0] == name);
            }
        }
        assert(ordered::is_listing(names, set));
        ordered::lemma_listing(names, set);
    } else {
        assert(set =~= Set::<Seq<char>>::empty());
    }
}

/// Every selection has a listing.
proof fn lemma_selection_has_a_listing(scope: Seq<char>, checks: Seq<Seq<char>>)
    ensures
        ordered::is_listing(
            ordered::listing(selection(scope, checks)),
            selection(scope, checks),
        ),
{
    let set = selection(scope, checks);
    vstd::seq_lib::seq_to_set_is_finite(checks);
    assert(set.subset_of(checks.to_set()));
    vstd::set_lib::lemma_set_subset_finite(checks.to_set(), set);
    ordered::lemma_finite_listing(set);
}

/// A service selects every one of its discovered jobs.
pub proof fn law_services_select_all_their_jobs(
    scope: Seq<char>,
    checks: Seq<Seq<char>>,
    job: Seq<char>,
)
    requires
        is_component(scope),
        is_component(job),
        checks.contains(name_of(scope, job)),
    ensures
        selected(scope, checks) matches Ok(names) && names.contains(name_of(scope, job)),
{
    let name = name_of(scope, job);
    lemma_components_have_no_colon(scope);
    assert(name.take(1 + scope.len() as int) =~= scope + seq![':']);
    assert(name.skip(1 + scope.len() as int) =~= job);
    assert(selection(scope, checks).contains(name));
    lemma_selection_has_a_listing(scope, checks);
}

/// A selection lists its checks in order, each of them once.
pub proof fn law_selections_are_in_order(scope: Seq<char>, checks: Seq<Seq<char>>)
    ensures
        selected(scope, checks) matches Ok(names) ==> ordered::ascending(names),
{
    if selected(scope, checks) is Ok {
        lemma_selection_has_a_listing(scope, checks);
    }
}

/// Neither the order of the discovered checks nor repetitions among them matter to a selection.
pub proof fn law_selections_depend_on_the_set_of_checks(
    scope: Seq<char>,
    checks: Seq<Seq<char>>,
    others: Seq<Seq<char>>,
)
    requires
        forall|name: Seq<char>| checks.contains(name) <==> others.contains(name),
    ensures
        selected(scope, checks) == selected(scope, others),
{
    assert(selection(scope, checks) =~= selection(scope, others));
}

/// Components that follow one another, directly or with `_`, `.` or `-` between them, are a
/// component, and so is every beginning of one.
pub proof fn law_components_join(a: Seq<char>, b: Seq<char>, n: int)
    requires
        is_component(a),
        is_component(b),
        0 < n <= a.len(),
    ensures
        is_component(a + b),
        is_component(a + seq!['_'] + b),
        is_component(a + seq!['.'] + b),
        is_component(a + seq!['-'] + b),
        is_component(a + seq!['_']),
        is_component(a + seq!['.']),
        is_component(a + seq!['-']),
        is_component(a.take(n)),
{
    assert forall|c: char, i: int|
        (c == '_' || c == '.' || c == '-') && 0 <= i < (a + seq![c] + b).len() implies
        is_alphanumeric(#[trigger] (a + seq![c] + b)[i]) || (a + seq![c] + b)[i] == '_' || (a
        + seq![c] + b)[i] == '.' || (a + seq![c] + b)[i] == '-' by {}
}

/// A single ASCII letter or digit is a component, and no component holds anything that separates
/// names or ends a word.
pub proof fn law_components_are_made_of_plain_characters(c: char, value: Seq<char>)
    ensures
        is_component(seq![c]) <==> (48 <= c as u32 <= 57 || 65 <= c as u32 <= 90 || 97 <= c as u32
            <= 122),
        is_component(value) ==> !value.contains(':') && !value.contains('/') && !value.contains(' ')
            && !value.contains('"') && !value.contains('$') && !value.contains('#'),
        !is_component(Seq::<char>::empty()),
        !is_component(seq!['.'] + value),
        !is_component(seq!['-'] + value),
        !is_component(seq!['_'] + value),
{
    if is_component(value) {
        assert forall|bad: char|
            (bad == ':' || bad == '/' || bad == ' ' || bad == '"' || bad == '$' || bad == '#')
            implies !#[trigger] value.contains(bad) by {
            if value.contains(bad) {
                let i = value.index_of(bad);
                assert(value[i] == bad);
            }
        }
    }
    assert(seq![c][0] == c);
    assert((seq!['.'] + value)[0] == '.');
    assert((seq!['-'] + value)[0] == '-');
    assert((seq!['_'] + value)[0] == '_');
}

/// What is said of a string that is no target names its fault: that it is no pair, or the first of
/// both parts that is no component, as it was given.
pub proof fn law_rejections_name_the_fault(service: Seq<char>, job: Seq<char>)
    requires
        !service.contains(':'),
    ensures
        target_error(service) == outcome::usage(
            "target must be service:job (for example web:dev)"@,
        ),
        target_error(name_of(service, job)) == component_error(
            if is_component(service) {
                job
            } else {
                service
            },
        ),
        text::occurs(component_error(service).message, quoted(service)),
        component_error(service).kind is Usage,
{
    let value = name_of(service, job);
    let at = service.len() as int;
    assert(value[at] == ':');
    assert(value.contains(':'));
    lemma_first_colon(service, job);
    assert(value.take(at) =~= service);
    assert(value.skip(at + 1) =~= job);
    text::law_texts_hold_their_parts(
        service,
        "invalid service or target name "@,
        quoted(service),
        ": use an ASCII letter or digit followed by letters, digits, '_', '.', or '-'"@,
    );
}

proof fn lemma_first_colon(service: Seq<char>, job: Seq<char>)
    requires
        !service.contains(':'),
    ensures
        colon(name_of(service, job)) == service.len(),
{
    let value = name_of(service, job);
    assert forall|i: int| 0 <= i < service.len() implies value[i] != ':' by {
        assert(service.contains(service[i]));
    }
    lemma_colon(value, service.len() as int);
}

/// A string is a target exactly where both parts around its first colon are components.
pub proof fn law_targets_are_pairs_of_components(service: Seq<char>, job: Seq<char>)
    requires
        !service.contains(':'),
    ensures
        is_target(name_of(service, job)) <==> is_component(service) && is_component(job),
        !is_target(service),
{
    let value = name_of(service, job);
    lemma_first_colon(service, job);
    if is_target(value) {
        let (s, j) = choose|s: Seq<char>, j: Seq<char>|
            is_component(s) && is_component(j) && value == #[trigger] name_of(s, j);
        lemma_components_have_no_colon(s);
        lemma_first_colon(s, j);
        assert(value.take(s.len() as int) =~= s);
        assert(value.take(service.len() as int) =~= service);
        assert(value.skip(s.len() as int + 1) =~= j);
        assert(value.skip(service.len() as int + 1) =~= job);
    }
    if is_target(service) {
        lemma_targets_have_a_colon(service);
    }
}

/// A scope that is neither a service nor a target is a usage error, and a valid one that matches no
/// check is told as such; every other scope selects.
pub proof fn law_scopes_without_checks_are_told(scope: Seq<char>, checks: Seq<Seq<char>>)
    ensures
        !is_target(scope) && !is_component(scope) ==> (selected(scope, checks) matches Err(error)
            && error.kind is Usage && error.exit_code == 1),
        is_target(scope) && !checks.contains(scope) ==> (selected(scope, checks) matches Err(error)
            && error.kind is NotFound && error.exit_code == 1 && text::ends(error.message, scope)),
        is_component(scope) && (forall|job: Seq<char>|
            is_component(job) ==> !checks.contains(#[trigger] name_of(scope, job)))
            ==> (selected(scope, checks) matches Err(error) && error.kind is NotFound
            && error.exit_code == 1 && text::ends(error.message, scope)),
{
    text::law_texts_hold_their_parts(scope, "no checks match selector "@, scope, Seq::empty());
    if is_target(scope) {
        law_targets_select_one_check(scope, checks);
    }
    if is_component(scope) && selected(scope, checks) is Ok {
        law_services_select_their_own_jobs(scope, checks);
        law_selections_are_not_empty(scope, checks);
        law_selections_are_discovered_checks(scope, checks);
        let names = selected(scope, checks)->Ok_0;
        assert(names.contains(names[0]));
        let job = choose|job: Seq<char>|
            is_component(job) && names[0] == #[trigger] name_of(scope, job);
        assert(checks.contains(name_of(scope, job)));
    }
}

} // verus!
