//! The options of an invocation.

use crate::failure::Failure;
use crate::text::views;
use vstd::prelude::*;
use vstd::string::StringExecFns;

verus! {

/// The options of an invocation, as they were given.
#[derive(Debug)]
pub struct Opts {
    /// Build a new store.
    pub build: bool,
    /// Treat warnings as failures.
    pub deny_warnings: bool,
    /// Take the lines from a diff on standard input.
    pub diff: bool,
    /// The line specifications.
    pub lines: Vec<String>,
    /// Build only the coverage that is missing.
    pub missing_only: bool,
    /// Do not run the tests.
    pub no_run: bool,
    /// Run anew the tests whose files have changed.
    pub refresh: bool,
    /// Show the commands.
    pub show_commands: bool,
    /// Show the output of the commands.
    pub verbose: bool,
    /// Select the tests that ran nothing.
    pub zero_coverage: bool,
    /// Arguments handed on to the commands.
    pub zzargs: Vec<String>,
}

/// The options as they hold: where the tests are not to be run, the commands
/// are shown. Nothing else changes.
pub fn get(given: Opts) -> (r: Opts)
    ensures
        r.show_commands == (given.show_commands || given.no_run),
        r.build == given.build,
        r.deny_warnings == given.deny_warnings,
        r.diff == given.diff,
        r.lines == given.lines,
        r.missing_only == given.missing_only,
        r.no_run == given.no_run,
        r.refresh == given.refresh,
        r.verbose == given.verbose,
        r.zero_coverage == given.zero_coverage,
        r.zzargs == given.zzargs,
{
    let mut opts = given;
    if opts.no_run {
        opts.show_commands = true;
    }
    opts
}

/// How an argument is given on the command line.
#[derive(Clone, Copy, Debug, PartialEq, Eq, Structural)]
pub enum ArgKind {
    /// A flag that is there or not.
    Flag,
    /// An option with one value, which can be given many times.
    Values,
    /// What follows `--`.
    Trailing,
}

/// One argument of the command line.
#[derive(Debug)]
pub struct Argument {
    /// The name of the option that the argument sets.
    pub id: String,
    /// What the argument is written as, behind `--`; empty for what is
    /// trailing.
    pub long: String,
    /// How the value is called in the help.
    pub value_name: String,
    pub help: String,
    pub kind: ArgKind,
    /// The options that this one cannot be used with.
    pub conflicts_with: Vec<String>,
    /// The options that this one needs.
    pub requires: Vec<String>,
}

/// A flag.
fn flag(id: &str, long: &str, help: &str) -> (r: Argument)
    ensures
        r.id@ == id@,
        r.long@ == long@,
        r.kind == ArgKind::Flag,
        r.conflicts_with@.len() == 0,
        r.requires@.len() == 0,
{
    Argument {
        id: String::from_str(id),
        long: String::from_str(long),
        value_name: String::new(),
        help: String::from_str(help),
        kind: ArgKind::Flag,
        conflicts_with: Vec::new(),
        requires: Vec::new(),
    }
}

/// The names of the options, in the order of the arguments.
pub open spec fn option_names() -> Seq<Seq<char>> {
    seq![
        "build"@,
        "deny_warnings"@,
        "diff"@,
        "lines"@,
        "missing_only"@,
        "no_run"@,
        "refresh"@,
        "show_commands"@,
        "verbose"@,
        "zero_coverage"@,
        "zzargs"@,
    ]
}

/// What the arguments are written as behind `--`, in their order; the last,
/// which is what trails, has no such name.
pub open spec fn long_names() -> Seq<Seq<char>> {
    seq![
        "build"@,
        "deny-warnings"@,
        "diff"@,
        "line"@,
        "missing-only"@,
        "no-run"@,
        "refresh"@,
        "show-commands"@,
        "verbose"@,
        "zero-coverage"@,
        ""@,
    ]
}

/// The names of the arguments.
pub open spec fn ids_of(arguments: Seq<Argument>) -> Seq<Seq<char>> {
    Seq::new(arguments.len(), |i: int| arguments[i].id@)
}

/// What the arguments are written as.
pub open spec fn longs_of(arguments: Seq<Argument>) -> Seq<Seq<char>> {
    Seq::new(arguments.len(), |i: int| arguments[i].long@)
}

/// The arguments of the command line. A build goes with no source of lines,
/// with no selection of tests that ran nothing and with no refresh; a refresh
/// goes with none of the first three; and to build only what is missing is to
/// build.
pub fn arguments() -> (r: Vec<Argument>)
    ensures
        ids_of(r@) == option_names(),
        longs_of(r@) == long_names(),
        views(r@[0].conflicts_with@) == seq!["diff"@, "lines"@, "zero_coverage"@, "refresh"@],
        views(r@[6].conflicts_with@) == seq!["diff"@, "lines"@, "zero_coverage"@],
        views(r@[4].requires@) == seq!["build"@],
        forall|i: int| 0 <= i < 11 && i != 0 && i != 6 ==> (#[trigger] r@[i]).conflicts_with@.len() == 0,
        forall|i: int| 0 <= i < 11 && i != 4 ==> (#[trigger] r@[i]).requires@.len() == 0,
        r@[3].kind == ArgKind::Values,
        r@[10].kind == ArgKind::Trailing,
        forall|i: int| 0 <= i < 11 && i != 3 && i != 10 ==> (#[trigger] r@[i]).kind == ArgKind::Flag,
{
    let mut build = flag("build", "build", "Build new line-test.db directory");
    build.conflicts_with.push(String::from_str("diff"));
    build.conflicts_with.push(String::from_str("lines"));
    build.conflicts_with.push(String::from_str("zero_coverage"));
    build.conflicts_with.push(String::from_str("refresh"));
    assert(views(build.conflicts_with@) =~= seq!["diff"@, "lines"@, "zero_coverage"@, "refresh"@]);
    let deny_warnings = flag("deny_warnings", "deny-warnings", "Treat warnings as errors");
    let diff = flag(
        "diff",
        "diff",
        "Generate line specifications from a diff read from standard input",
    );
    let mut lines = flag(
        "lines",
        "line",
        "Line(s) to exercise with tests; can be passed multiple times",
    );
    lines.kind = ArgKind::Values;
    lines.value_name = String::from_str("SPEC");
    let mut missing_only = flag(
        "missing_only",
        "missing-only",
        "Build missing line-test.db coverage files only",
    );
    missing_only.requires.push(String::from_str("build"));
    assert(views(missing_only.requires@) =~= seq!["build"@]);
    let no_run = flag("no_run", "no-run", "Do not run tests; implies --show-commands");
    let mut refresh = flag(
        "refresh",
        "refresh",
        "Update line-test.db coverage for source files that have changed",
    );
    refresh.conflicts_with.push(String::from_str("diff"));
    refresh.conflicts_with.push(String::from_str("lines"));
    refresh.conflicts_with.push(String::from_str("zero_coverage"));
    assert(views(refresh.conflicts_with@) =~= seq!["diff"@, "lines"@, "zero_coverage"@]);
    let show_commands = flag(
        "show_commands",
        "show-commands",
        "Show commands that would or will be executed",
    );
    let verbose = flag("verbose", "verbose", "Show command output when computing coverage");
    let zero_coverage = flag("zero_coverage", "zero-coverage", "Select tests that have zero coverage");
    let mut zzargs = flag("zzargs", "", "Arguments for `cargo test`/`cargo llvm-cov`");
    zzargs.kind = ArgKind::Trailing;
    zzargs.value_name = String::from_str("ARGS");
    let mut all: Vec<Argument> = Vec::new();
    all.push(build);
    all.push(deny_warnings);
    all.push(diff);
    all.push(lines);
    all.push(missing_only);
    all.push(no_run);
    all.push(refresh);
    all.push(show_commands);
    all.push(verbose);
    all.push(zero_coverage);
    all.push(zzargs);
    assert(ids_of(all@) =~= option_names());
    assert(longs_of(all@) =~= long_names());
    all
}

/// The options go together: a build comes with no diff, no line, no selection
/// of tests that ran nothing and no refresh; a refresh comes with none of the
/// first three; and only what is missing is built only in a build.
pub open spec fn compatible(opts: Opts) -> bool {
    &&& opts.build ==> !opts.diff && opts.lines@.len() == 0 && !opts.zero_coverage && !opts.refresh
    &&& opts.refresh ==> !opts.diff && opts.lines@.len() == 0 && !opts.zero_coverage
    &&& opts.missing_only ==> opts.build
}

/// Whether the options go together.
pub fn validate(opts: &Opts) -> (r: Result<(), Failure>)
    ensures
        r is Ok <==> compatible(*opts),
        r matches Err(e) ==> e is Options,
{
    let sourced = opts.diff || opts.lines.len() != 0 || opts.zero_coverage;
    if opts.build && (sourced || opts.refresh) {
        return Err(Failure::Options(String::from_str("--build, and --diff, --line, --zero-coverage or --refresh")));
    }
    if opts.refresh && sourced {
        return Err(Failure::Options(String::from_str("--refresh, and --diff, --line or --zero-coverage")));
    }
    if opts.missing_only && !opts.build {
        return Err(Failure::Options(String::from_str("--missing-only without --build")));
    }
    Ok(())
}

} // verus!
