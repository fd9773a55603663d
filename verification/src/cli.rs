//! Where the configuration file is: the command line, then the environment.

use vstd::prelude::*;

use crate::text;

verus! {

/// What the command line and the environment ask for.
pub enum Startup {
    /// Show how the program is used.
    Help,
    /// Run with this configuration file.
    Config(String),
    /// `--config` stands last, without a path.
    MissingPath,
    /// Nothing says where the configuration is.
    NoConfig,
}

/// What a [`Startup`] holds.
#[verifier::ext_equal]
pub enum StartupView {
    Help,
    Config(Seq<char>),
    MissingPath,
    NoConfig,
}

impl View for Startup {
    type V = StartupView;

    open spec fn view(&self) -> StartupView {
        match self {
            Startup::Help => StartupView::Help,
            Startup::Config(p) => StartupView::Config(p@),
            Startup::MissingPath => StartupView::MissingPath,
            Startup::NoConfig => StartupView::NoConfig,
        }
    }
}

/// Whether an argument asks for help.
pub open spec fn is_help(arg: Seq<char>) -> bool {
    arg == "-h"@ || arg == "--help"@
}

/// The first position, from `i` on, of the flag `--config`.
pub open spec fn flag_position(args: Seq<Seq<char>>, i: int) -> Option<int>
    decreases args.len() - i,
{
    if i >= args.len() {
        None
    } else if args[i] == "--config"@ {
        Some(i)
    } else {
        flag_position(args, i + 1)
    }
}

/// The path in the first argument, from `i` on, of the form `--config=<path>`.
pub open spec fn flag_value(args: Seq<Seq<char>>, i: int) -> Option<Seq<char>>
    decreases args.len() - i,
{
    if i >= args.len() {
        None
    } else if "--config="@.is_prefix_of(args[i]) {
        Some(args[i].skip("--config="@.len() as int))
    } else {
        flag_value(args, i + 1)
    }
}

/// What the arguments (without the program's name) and the `CONFIG` variable ask
/// for. A request for help comes first, then `--config <path>`, then
/// `--config=<path>`, then the variable unless it is empty.
pub open spec fn startup(args: Seq<Seq<char>>, variable: Option<Seq<char>>) -> StartupView {
    if exists|i: int| 0 <= i < args.len() && is_help(#[trigger] args[i]) {
        StartupView::Help
    } else if flag_position(args, 0) is Some {
        let at = flag_position(args, 0)->0;
        if at + 1 < args.len() {
            StartupView::Config(args[at + 1])
        } else {
            StartupView::MissingPath
        }
    } else if flag_value(args, 0) is Some {
        StartupView::Config(flag_value(args, 0)->0)
    } else if variable is Some && variable->0.len() > 0 {
        StartupView::Config(variable->0)
    } else {
        StartupView::NoConfig
    }
}

/// Executable form of [`startup`].
pub fn resolve_config_path(args: &[String], variable: Option<&str>) -> (s: Startup)
    ensures
        s@ == startup(
            text::views(args@),
            match variable {
                Some(v) => Some(v@),
                None => None,
            },
        ),
{
    let ghost all = text::views(args@);
    let mut i: usize = 0;
    while i < args.len()
        invariant
            i <= args@.len(),
            all == text::views(args@),
            forall|j: int| 0 <= j < i ==> !is_help(#[trigger] all[j]),
        decreases args@.len() - i,
    {
        assert(all[i as int] == args@[i as int]@);
        if text::eq(args[i].as_str(), "-h") || text::eq(args[i].as_str(), "--help") {
            assert(is_help(all[i as int]));
            return Startup::Help;
        }
        i += 1;
    }
    let mut i: usize = 0;
    while i < args.len()
        invariant
            i <= args@.len(),
            all == text::views(args@),
            forall|j: int| 0 <= j < all.len() ==> !is_help(#[trigger] all[j]),
            flag_position(all, 0) == flag_position(all, i as int),
        decreases args@.len() - i,
    {
        assert(all[i as int] == args@[i as int]@);
        if text::eq(args[i].as_str(), "--config") {
            if i + 1 < args.len() {
                assert(all[i + 1] == args@[i + 1]@);
                return Startup::Config(args[i + 1].clone());
            }
            return Startup::MissingPath;
        }
        i += 1;
    }
    let mut i: usize = 0;
    while i < args.len()
        invariant
            i <= args@.len(),
            all == text::views(args@),
            forall|j: int| 0 <= j < all.len() ==> !is_help(#[trigger] all[j]),
            flag_position(all, 0) is None,
            flag_value(all, 0) == flag_value(all, i as int),
        decreases args@.len() - i,
    {
        assert(all[i as int] == args@[i as int]@);
        if let Some(path) = text::strip_prefix(args[i].as_str(), "--config=") {
            return Startup::Config(path.to_string());
        }
        i += 1;
    }
    if let Some(v) = variable {
        if !v.is_empty() {
            return Startup::Config(v.to_string());
        }
    }
    Startup::NoConfig
}

/// Law: the command line wins. When it names a file, the variable makes no
/// difference.
pub proof fn law_flag_beats_variable(
    args: Seq<Seq<char>>,
    a: Option<Seq<char>>,
    b: Option<Seq<char>>,
)
    requires
        flag_position(args, 0) is Some || flag_value(args, 0) is Some,
    ensures
        startup(args, a) == startup(args, b),
{
}

/// Law: a request for help comes before anything else, wherever it stands.
pub proof fn law_help_comes_first(args: Seq<Seq<char>>, i: int, variable: Option<Seq<char>>)
    requires
        0 <= i < args.len(),
        args[i] == "-h"@ || args[i] == "--help"@,
    ensures
        startup(args, variable) == StartupView::Help,
{
    assert(is_help(args[i]));
}

/// The first flag is found where it stands.
proof fn lemma_flag_position(args: Seq<Seq<char>>, from: int, i: int)
    requires
        0 <= from <= i <= args.len(),
        forall|j: int| from <= j < i ==> #[trigger] args[j] != "--config"@,
    ensures
        i < args.len() && args[i] == "--config"@ ==> flag_position(args, from) == Some(i),
        i == args.len() ==> flag_position(args, from) is None,
    decreases i - from,
{
    if from < i {
        assert(args[from] != "--config"@);
        lemma_flag_position(args, from + 1, i);
    }
}

/// The first flag with a value is found where it stands.
proof fn lemma_flag_value(args: Seq<Seq<char>>, from: int, i: int)
    requires
        0 <= from <= i <= args.len(),
        forall|j: int| from <= j < i ==> !"--config="@.is_prefix_of(#[trigger] args[j]),
    ensures
        i < args.len() && "--config="@.is_prefix_of(args[i]) ==> flag_value(args, from) == Some(
            args[i].skip("--config="@.len() as int),
        ),
        i == args.len() ==> flag_value(args, from) is None,
    decreases i - from,
{
    if from < i {
        assert(!"--config="@.is_prefix_of(args[from]));
        lemma_flag_value(args, from + 1, i);
    }
}

/// Law: the path is the argument behind the first `--config`; without one behind it
/// the path is missing, whatever else is there.
pub proof fn law_path_follows_the_flag(
    args: Seq<Seq<char>>,
    i: int,
    variable: Option<Seq<char>>,
)
    requires
        0 <= i < args.len(),
        args[i] == "--config"@,
        forall|j: int| 0 <= j < i ==> #[trigger] args[j] != "--config"@,
        forall|j: int| 0 <= j < args.len() ==> #[trigger] args[j] != "-h"@ && args[j] != "--help"@,
    ensures
        i + 1 < args.len() ==> startup(args, variable) == StartupView::Config(args[i + 1]),
        i + 1 == args.len() ==> startup(args, variable) == StartupView::MissingPath,
{
    lemma_flag_position(args, 0, i);
}

/// Law: without the flag on its own, the path is what follows `--config=` in the first
/// argument that begins so.
pub proof fn law_path_in_the_flag(
    args: Seq<Seq<char>>,
    i: int,
    path: Seq<char>,
    variable: Option<Seq<char>>,
)
    requires
        0 <= i < args.len(),
        args[i] == "--config="@ + path,
        forall|j: int| 0 <= j < i ==> !"--config="@.is_prefix_of(#[trigger] args[j]),
        forall|j: int|
            0 <= j < args.len() ==> #[trigger] args[j] != "--config"@ && args[j] != "-h"@ && args[j]
                != "--help"@,
    ensures
        startup(args, variable) == StartupView::Config(path),
{
    let p = "--config="@;
    assert((p + path).subrange(0, p.len() as int) =~= p);
    assert((p + path).skip(p.len() as int) =~= path);
    lemma_flag_position(args, 0, args.len() as int);
    lemma_flag_value(args, 0, i);
}

/// Law: without either flag the variable counts, unless it is not set or empty; then
/// there is no configuration.
pub proof fn law_variable_is_the_fallback(args: Seq<Seq<char>>, path: Seq<char>)
    requires
        forall|j: int|
            0 <= j < args.len() ==> #[trigger] args[j] != "--config"@ && args[j] != "-h"@ && args[j]
                != "--help"@ && !"--config="@.is_prefix_of(args[j]),
    ensures
        path.len() > 0 ==> startup(args, Some(path)) == StartupView::Config(path),
        path.len() == 0 ==> startup(args, Some(path)) == StartupView::NoConfig,
        startup(args, None) == StartupView::NoConfig,
{
    lemma_flag_position(args, 0, args.len() as int);
    lemma_flag_value(args, 0, args.len() as int);
}

} // verus!
