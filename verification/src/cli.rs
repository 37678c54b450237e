//! What the program's command line means.

use std::path::PathBuf;

use vstd::prelude::*;

use crate::model::{FlakeModel, FlakeRef, TrustedSubstituter};
use crate::ordered::StringSet;
use crate::outcome;
use crate::outcome::Error;
use crate::runtime::{AppExecutionMode, RuntimeCommand};
use crate::target;
use crate::target::ServiceTarget;
use crate::text;
use crate::ui::session::OutputMode;

verus! {

/// A command with its arguments.
#[derive(Clone, Debug, PartialEq, Eq)]
pub enum Command {
    /// Build all packages, or one named package.
    Build {
        /// Flake reference supplied to the engine.
        flake: String,
        /// Package name.
        package: Option<String>,
        /// The progress interface.
        output: OutputMode,
    },
    /// Run all checks, a service's checks, or one service:check.
    Check {
        /// Flake reference supplied to the engine.
        flake: String,
        /// Which checks.
        selector: Option<String>,
        /// The progress interface.
        output: OutputMode,
    },
    /// Realize an app through the engine, then execute it.
    Run {
        /// Flake reference supplied to the engine.
        flake: String,
        /// The app.
        app: ServiceTarget,
        /// Arguments passed to the app, as raw bytes.
        args: Vec<Vec<u8>>,
        /// Keep a supervising process instead of replacing the program.
        supervise: bool,
        /// The progress interface.
        output: OutputMode,
    },
    /// Produce a deterministic schedule from an input file.
    Plan {
        /// Path to the input.
        input: PathBuf,
    },
}

/// What a command makes the program do.
pub enum Operation {
    /// Compute a schedule.
    Plan {
        /// Path to the input.
        input: PathBuf,
    },
    /// Execute one runtime command.
    Execute(RuntimeCommand),
    /// Select checks, then realize them.
    CheckSelected {
        /// Title rendered by the interactive interface.
        title: String,
        /// Flake containing the checks.
        flake: FlakeRef,
        /// The scope.
        scope: String,
        /// Requested display interface.
        output: OutputMode,
    },
}

/// A flake that is resolved from the program's own directory.
pub open spec fn here(reference: Seq<char>) -> FlakeModel {
    FlakeModel { reference, directory: None }
}

fn flake_ref(reference: String) -> (result: FlakeRef)
    ensures
        result@ == here(reference@),
{
    FlakeRef::new(reference, None)
}

impl Command {
    /// The interface that a command asks for.
    pub open spec fn interface(&self) -> Option<OutputMode> {
        match *self {
            Command::Build { output, .. } => Some(output),
            Command::Check { output, .. } => Some(output),
            Command::Run { output, .. } => Some(output),
            Command::Plan { .. } => None,
        }
    }

    /// The title that the interface shows.
    pub open spec fn heading(&self) -> Seq<char> {
        match *self {
            Command::Build { package: Some(package), .. } => "nt build "@ + package@,
            Command::Build { package: None, .. } => "nt build"@,
            Command::Check { selector: Some(selector), .. } => "nt check "@ + selector@,
            Command::Check { selector: None, .. } => "nt check"@,
            Command::Run { app, .. } => "nt run "@ + target::name_of(
                app.service_name(),
                app.job_name(),
            ),
            Command::Plan { .. } => "nt plan"@,
        }
    }

    /// Returns the interface that the command asks for; a plan has none.
    pub fn output(&self) -> (result: Option<OutputMode>)
        ensures
            result == self.interface(),
    {
        match self {
            Command::Build { output, .. } => Some(*output),
            Command::Check { output, .. } => Some(*output),
            Command::Run { output, .. } => Some(*output),
            Command::Plan { .. } => None,
        }
    }

    /// Returns the title that the interface shows.
    pub fn title(&self) -> (result: String)
        ensures
            result@ == self.heading(),
    {
        match self {
            Command::Build { package, .. } => match package {
                Some(package) => text::cat2("nt build ", package.as_str()),
                None => "nt build".to_owned(),
            },
            Command::Check { selector, .. } => match selector {
                Some(selector) => text::cat2("nt check ", selector.as_str()),
                None => "nt check".to_owned(),
            },
            Command::Run { app, .. } => text::cat2("nt run ", app.output_name().as_str()),
            Command::Plan { .. } => "nt plan".to_owned(),
        }
    }

    /// Returns how an app is executed: in the program's place where the system can do that and no
    /// supervision was asked for.
    pub fn execution_mode(&self, replaceable: bool) -> (result: AppExecutionMode)
        ensures
            result == (if replaceable && (*self matches Command::Run { supervise, .. } && !supervise) {
                AppExecutionMode::Exec
            } else {
                AppExecutionMode::Supervised
            }),
    {
        match self {
            Command::Run { supervise, .. } => {
                if replaceable && !*supervise {
                    AppExecutionMode::Exec
                } else {
                    AppExecutionMode::Supervised
                }
            },
            _ => AppExecutionMode::Supervised,
        }
    }

    /// What a command makes the program do.
    pub open spec fn means(&self, operation: Operation) -> bool {
        match *self {
            Command::Build { flake, package, output } => {
                &&& operation matches Operation::Execute(
                    RuntimeCommand::Build {
                        title,
                        flake: given,
                        targets,
                        out_link,
                        output: shown,
                    },
                )
                &&& title@ == self.heading()
                &&& given@ == here(flake@)
                &&& targets.deep_view() == match package {
                    Some(package) => seq![package@],
                    None => Seq::empty(),
                }
                &&& out_link is None
                &&& shown == output
            },
            Command::Check { flake, selector: Some(selector), output } => {
                &&& operation matches Operation::CheckSelected {
                    title,
                    flake: given,
                    scope,
                    output: shown,
                }
                &&& title@ == self.heading()
                &&& given@ == here(flake@)
                &&& scope == selector
                &&& shown == output
            },
            Command::Check { flake, selector: None, output } => {
                &&& operation matches Operation::Execute(
                    RuntimeCommand::Check { title, flake: given, targets, output: shown },
                )
                &&& title@ == self.heading()
                &&& given@ == here(flake@)
                &&& targets@.len() == 0
                &&& shown == output
            },
            Command::Run { flake, app, args, supervise, output } => {
                &&& operation matches Operation::Execute(
                    RuntimeCommand::Run {
                        title,
                        flake: given,
                        app: name,
                        arguments,
                        output: shown,
                    },
                )
                &&& title@ == self.heading()
                &&& given@ == here(flake@)
                &&& name@ == target::name_of(app.service_name(), app.job_name())
                &&& arguments == args
                &&& shown == output
            },
            Command::Plan { input } => operation matches Operation::Plan { input: given }
                && given == input,
        }
    }

    /// Returns what the command makes the program do.
    pub fn into_operation(self) -> (result: Operation)
        ensures
            self.means(result),
    {
        let title = self.title();
        match self {
            Command::Plan { input } => Operation::Plan { input },
            Command::Build { flake, package, output } => {
                let mut targets: Vec<String> = Vec::new();
                match package {
                    Some(package) => {
                        let ghost name = package@;
                        targets.push(package);
                        assert(targets.deep_view() =~= seq![name]);
                    },
                    None => {
                        assert(targets.deep_view() =~= Seq::<Seq<char>>::empty());
                    },
                }
                Operation::Execute(
                    RuntimeCommand::Build {
                        title,
                        flake: flake_ref(flake),
                        targets,
                        out_link: None,
                        output,
                    },
                )
            },
            Command::Check { flake, selector, output } => match selector {
                Some(scope) => Operation::CheckSelected {
                    title,
                    flake: flake_ref(flake),
                    scope,
                    output,
                },
                None => Operation::Execute(
                    RuntimeCommand::Check {
                        title,
                        flake: flake_ref(flake),
                        targets: Vec::new(),
                        output,
                    },
                ),
            },
            Command::Run { flake, app, args, output, .. } => Operation::Execute(
                RuntimeCommand::Run {
                    title,
                    flake: flake_ref(flake),
                    app: app.output_name(),
                    arguments: args,
                    output,
                },
            ),
        }
    }
}

/// A substituter trusts one key.
pub open spec fn trusts(substituter: TrustedSubstituter, url: Seq<char>, key: Seq<char>) -> bool {
    &&& substituter.url@ == url
    &&& substituter.public_keys.wf()
    &&& substituter.public_keys@ == set![key]
}

fn trust(url: String, key: String) -> (result: TrustedSubstituter)
    ensures
        trusts(result, url@, key@),
{
    let mut public_keys = StringSet::new();
    let ghost name = key@;
    public_keys.insert(key);
    assert(public_keys@ =~= set![name]);
    TrustedSubstituter { url, public_keys }
}

/// Pairs caches with their keys by position, after the public cache that is always trusted.
pub fn trusted_substituters(substituters: Vec<String>, public_keys: Vec<String>) -> (result: Result<
    Vec<TrustedSubstituter>,
    Error,
>)
    ensures
        match result {
            Ok(trusted) => {
                &&& substituters@.len() == public_keys@.len()
                &&& trusted@.len() == substituters@.len() + 1
                &&& trusts(
                    trusted@[0],
                    "https://cache.nixos.org"@,
                    "cache.nixos.org-1:6NCHdD59X431o0gWypbMrAURkbJ16ZPMQFGspcDShjY="@,
                )
                &&& forall|i: int|
                    0 <= i < substituters@.len() ==> trusts(
                        #[trigger] trusted@[i + 1],
                        substituters@[i]@,
                        public_keys@[i]@,
                    )
            },
            Err(error) => {
                &&& substituters@.len() != public_keys@.len()
                &&& error@ == outcome::usage(
                    "supply exactly one --trusted-public-key for each --substituter"@,
                )
            },
        },
{
    if substituters.len() != public_keys.len() {
        return Err(
            Error::usage(
                "supply exactly one --trusted-public-key for each --substituter".to_owned(),
            ),
        );
    }
    let mut trusted: Vec<TrustedSubstituter> = Vec::new();
    trusted.push(
        trust(
            "https://cache.nixos.org".to_owned(),
            "cache.nixos.org-1:6NCHdD59X431o0gWypbMrAURkbJ16ZPMQFGspcDShjY=".to_owned(),
        ),
    );
    let mut i: usize = 0;
    while i < substituters.len()
        invariant
            i <= substituters@.len(),
            substituters@.len() == public_keys@.len(),
            trusted@.len() == i + 1,
            trusts(
                trusted@[0],
                "https://cache.nixos.org"@,
                "cache.nixos.org-1:6NCHdD59X431o0gWypbMrAURkbJ16ZPMQFGspcDShjY="@,
            ),
            forall|j: int|
                0 <= j < i ==> trusts(
                    #[trigger] trusted@[j + 1],
                    substituters@[j]@,
                    public_keys@[j]@,
                ),
        decreases substituters@.len() - i,
    {
        trusted.push(trust(substituters[i].clone(), public_keys[i].clone()));
        i = i + 1;
    }
    Ok(trusted)
}

/// The title of a command names its subject behind the command's own words, and nothing else where
/// it has none.
pub proof fn law_titles_name_the_subject(command: Command)
    ensures
        text::starts(command.heading(), "nt "@),
        match command {
            Command::Build { package: Some(package), .. } => text::ends(
                command.heading(),
                " "@ + package@,
            ),
            Command::Check { selector: Some(selector), .. } => text::ends(
                command.heading(),
                " "@ + selector@,
            ),
            Command::Run { app, .. } => text::ends(
                command.heading(),
                " "@ + app.service_name() + seq![':'] + app.job_name(),
            ),
            Command::Build { package: None, .. } => command.heading().len() == "nt build"@.len(),
            Command::Check { selector: None, .. } => command.heading().len() == "nt check"@.len(),
            Command::Plan { .. } => command.heading().len() == "nt plan"@.len(),
        },
{
    reveal_strlit("nt ");
    reveal_strlit(" ");
    reveal_strlit("nt build ");
    reveal_strlit("nt check ");
    reveal_strlit("nt run ");
    reveal_strlit("nt build");
    reveal_strlit("nt check");
    reveal_strlit("nt plan");
    let title = command.heading();
    assert(title.take(3) =~= "nt "@);
    match command {
        Command::Build { package: Some(package), .. } => {
            let end = " "@ + package@;
            assert(title.skip(title.len() - end.len()) =~= end);
        },
        Command::Check { selector: Some(selector), .. } => {
            let end = " "@ + selector@;
            assert(title.skip(title.len() - end.len()) =~= end);
        },
        Command::Run { app, .. } => {
            let end = " "@ + app.service_name() + seq![':'] + app.job_name();
            assert(title.skip(title.len() - end.len()) =~= end);
        },
        _ => {},
    }
}

/// What a command makes the program do is to be done with the command's own flake and interface: a
/// build of its package or of all, a selection of its checks or all of them, a run of its app with
/// its arguments, or a plan of its input.
pub proof fn law_operations_do_what_was_asked(command: Command, operation: Operation)
    requires
        command.means(operation),
    ensures
        match (command, operation) {
            (
                Command::Build { flake, package, output },
                Operation::Execute(
                    RuntimeCommand::Build { flake: given, targets, out_link, output: shown, .. },
                ),
            ) => {
                &&& given@.reference == flake@
                &&& given@.directory is None
                &&& out_link is None
                &&& shown == output
                &&& package is None ==> targets.deep_view().len() == 0
                &&& package matches Some(name) ==> targets.deep_view().len() == 1
                    && targets.deep_view()[0] == name@
            },
            (
                Command::Check { flake, selector: Some(selector), output },
                Operation::CheckSelected { flake: given, scope, output: shown, .. },
            ) => given@.reference == flake@ && given@.directory is None && scope@ == selector@
                && shown == output,
            (
                Command::Check { flake, selector: None, output },
                Operation::Execute(
                    RuntimeCommand::Check { flake: given, targets, output: shown, .. },
                ),
            ) => given@.reference == flake@ && given@.directory is None && targets@.len() == 0
                && shown == output,
            (
                Command::Run { flake, app, args, output, .. },
                Operation::Execute(
                    RuntimeCommand::Run { flake: given, app: name, arguments, output: shown, .. },
                ),
            ) => {
                &&& given@.reference == flake@
                &&& given@.directory is None
                &&& name@ == app.service_name() + seq![':'] + app.job_name()
                &&& arguments@ == args@
                &&& shown == output
            },
            (Command::Plan { input }, Operation::Plan { input: given }) => given == input,
            _ => false,
        },
{
}

/// The title that the interface shows is that of the command, and only a plan shows none.
pub proof fn law_operations_show_the_title(command: Command, operation: Operation)
    requires
        command.means(operation),
    ensures
        command.interface() is None <==> operation is Plan,
        match operation {
            Operation::Plan { .. } => true,
            Operation::Execute(run) => run.shown().0 == command.heading() && Some(run.shown().1)
                == command.interface(),
            Operation::CheckSelected { title, output, .. } => title@ == command.heading() && Some(
                output,
            ) == command.interface(),
        },
{
}

/// A trusted cache is trusted with its one key and no other.
pub proof fn law_caches_are_trusted_with_one_key(
    substituter: TrustedSubstituter,
    url: Seq<char>,
    key: Seq<char>,
    other: Seq<char>,
)
    requires
        trusts(substituter, url, key),
    ensures
        substituter.url@ == url,
        substituter.public_keys@.contains(other) <==> other == key,
{
}

/// Only a run that was not to be supervised may take the program's place, and only where the system
/// can do that.
pub proof fn law_only_unsupervised_runs_replace_the_program(
    command: Command,
    replaceable: bool,
    result: AppExecutionMode,
)
    requires
        call_ensures(Command::execution_mode, (&command, replaceable), result),
    ensures
        result is Exec <==> replaceable && match command {
            Command::Run { supervise, .. } => !supervise,
            _ => false,
        },
{
}

/// Caches and keys are paired by position behind the public cache, and caches that lack a key, or
/// keys that lack a cache, are refused.
pub proof fn law_caches_are_paired_with_their_keys(
    substituters: Vec<String>,
    public_keys: Vec<String>,
    result: Result<Vec<TrustedSubstituter>, Error>,
    i: int,
)
    requires
        call_ensures(trusted_substituters, (substituters, public_keys), result),
        0 <= i < substituters@.len(),
    ensures
        result is Ok <==> substituters@.len() == public_keys@.len(),
        result matches Ok(trusted) ==> {
            &&& trusted@.len() == substituters@.len() + 1
            &&& trusted@[i + 1].url@ == substituters@[i]@
            &&& trusted@[i + 1].public_keys@ == set![public_keys@[i]@]
        },
        result matches Err(error) ==> error@.kind is Usage && error@.exit_code == 1,
{
    if let Ok(trusted) = result {
        assert(trusts(trusted@[i + 1], substituters@[i]@, public_keys@[i]@));
    }
}

} // verus!
