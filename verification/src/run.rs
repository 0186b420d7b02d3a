//! Running tests: the commands to run, one test at a time, in the order of
//! packages, crate targets and tests.

use crate::failure::Failure;
use crate::model::{crate_maps_wf, segment_separator, PackageCrateMap, Test};
use crate::opts::Opts;
use crate::progress::{byte_len, pad_right, padded_right};
use crate::str_map::StrMap;
use crate::text::{join, lemma_views_push, occurs_at, str_eq, strip_prefix, views};
use crate::warn::{warn, warning_text};
use vstd::prelude::*;
use vstd::string::StringExecFns;
use vstd::string::StringSliceAdditionalSpecFns;

verus! {

/// How the tests are to be run.
#[derive(Debug)]
pub struct RunConfig {
    /// Each test is run under coverage and leaves an artifact.
    pub coverage: bool,
    /// The commands are shown.
    pub show_commands: bool,
    /// The commands are not run.
    pub no_run: bool,
    /// The output of the commands is shown rather than kept.
    pub verbose: bool,
    /// Arguments handed on to every command.
    pub extra: Vec<String>,
    /// The widths that the names in the progress message are aligned to.
    pub package_width: usize,
    pub crate_width: usize,
    pub test_width: usize,
}

/// One test to run.
#[derive(Debug)]
pub struct TestRun {
    pub package: String,
    pub krate: String,
    /// The test's identity as text.
    pub test: String,
    /// Where the artifact goes, where the test is run under coverage.
    pub output_path: Option<String>,
    /// The message for the progress line.
    pub message: String,
    /// Left-over raw profiles are to be cleaned away before the run.
    pub clean_first: bool,
    /// The arguments of the command.
    pub args: Vec<String>,
    /// The command is to be shown.
    pub show_command: bool,
    /// The command is to be run.
    pub execute: bool,
    /// The command's output is to be kept, for the warning if it fails.
    pub capture_output: bool,
}

/// One step of a run.
#[derive(Debug)]
pub enum Step {
    /// Look whether an interrupt was seen, and stop if so.
    Poll,
    /// Make the directory, with those above it; a failure to do so counts for
    /// nothing.
    CreateDir(String),
    /// Run a test.
    Run(TestRun),
}

/// The steps of a run and the number of tests in it.
#[derive(Debug)]
pub struct RunPlan {
    pub total: usize,
    pub steps: Vec<Step>,
}

/// A test to run, as texts.
pub struct RunView {
    pub package: Seq<char>,
    pub krate: Seq<char>,
    pub test: Seq<char>,
    pub output_path: Option<Seq<char>>,
    pub message: Seq<char>,
    pub clean_first: bool,
    pub args: Seq<Seq<char>>,
    pub show_command: bool,
    pub execute: bool,
    pub capture_output: bool,
}

/// A step, as texts.
pub enum StepView {
    Poll,
    CreateDir(Seq<char>),
    Run(RunView),
}

/// How the tests are to be run, as texts and numbers.
pub struct Settings {
    pub coverage: bool,
    pub show_commands: bool,
    pub no_run: bool,
    pub verbose: bool,
    pub extra: Seq<Seq<char>>,
    pub package_width: int,
    pub crate_width: int,
    pub test_width: int,
}

impl View for RunConfig {
    type V = Settings;

    open spec fn view(&self) -> Settings {
        Settings {
            coverage: self.coverage,
            show_commands: self.show_commands,
            no_run: self.no_run,
            verbose: self.verbose,
            extra: views(self.extra@),
            package_width: self.package_width as int,
            crate_width: self.crate_width as int,
            test_width: self.test_width as int,
        }
    }
}

impl View for TestRun {
    type V = RunView;

    open spec fn view(&self) -> RunView {
        RunView {
            package: self.package@,
            krate: self.krate@,
            test: self.test@,
            output_path: match self.output_path {
                Some(p) => Some(p@),
                None => None,
            },
            message: self.message@,
            clean_first: self.clean_first,
            args: views(self.args@),
            show_command: self.show_command,
            execute: self.execute,
            capture_output: self.capture_output,
        }
    }
}

impl View for Step {
    type V = StepView;

    open spec fn view(&self) -> StepView {
        match self {
            Step::Poll => StepView::Poll,
            Step::CreateDir(path) => StepView::CreateDir(path@),
            Step::Run(run) => StepView::Run(run@),
        }
    }
}

/// The steps of a list, as texts.
pub open spec fn step_views(steps: Seq<Step>) -> Seq<StepView> {
    Seq::new(steps.len(), |i: int| steps[i]@)
}

/// The arguments that pick a crate target: the library for the key `lib`, the
/// binary named after `bin:`, else the integration test of that name.
pub open spec fn selection_args(krate: Seq<char>) -> Seq<Seq<char>> {
    if krate == "lib"@ {
        seq!["--lib"@]
    } else if occurs_at(krate, "bin:"@, 0) {
        seq!["--bin"@, krate.skip("bin:"@.len() as int)]
    } else {
        seq!["--test"@, krate]
    }
}

/// The arguments of the command for a crate target of a package: the
/// subcommand, which is `llvm-cov` where an artifact is to be written and
/// `test` else; the package; the crate target; where an artifact is to be
/// written, how and where; and the arguments that are handed on.
pub open spec fn command_args(
    package: Seq<char>,
    krate: Seq<char>,
    path: Option<Seq<char>>,
    extra: Seq<Seq<char>>,
) -> Seq<Seq<char>> {
    seq![
        if path is Some {
            "llvm-cov"@
        } else {
            "test"@
        },
        "--package"@,
        package,
    ] + selection_args(krate) + (match path {
        Some(p) => seq!["--no-clean"@, "--lcov"@, "--output-path"@, p],
        None => Seq::empty(),
    }) + extra
}

/// The directory of a crate target in the store.
pub open spec fn crate_dir(package: Seq<char>, krate: Seq<char>) -> Seq<char> {
    crate::db::packages_dir_text() + "/"@ + package + "/"@ + krate
}

/// The path of a test's artifact in the store.
pub open spec fn artifact_path(package: Seq<char>, krate: Seq<char>, test: Seq<char>) -> Seq<char> {
    crate_dir(package, krate) + "/"@ + test + ".lcov"@
}

/// The message of the progress line for a test.
pub open spec fn progress_message(
    package: Seq<char>,
    krate: Seq<char>,
    test: Seq<char>,
    settings: Settings,
) -> Seq<char> {
    "package: "@ + pad_right(package, settings.package_width) + "  crate: "@ + pad_right(
        krate,
        settings.crate_width,
    ) + "  test: "@ + pad_right(test, settings.test_width)
}

/// The run of one test.
pub open spec fn run_view(
    package: Seq<char>,
    krate: Seq<char>,
    test: Seq<Seq<char>>,
    settings: Settings,
) -> RunView {
    let text = join(test, segment_separator());
    let path = if settings.coverage {
        Some(artifact_path(package, krate, text))
    } else {
        None
    };
    RunView {
        package,
        krate,
        test: text,
        output_path: path,
        message: progress_message(package, krate, text, settings),
        clean_first: settings.coverage,
        args: command_args(package, krate, path, settings.extra) + seq!["--"@, "--exact"@, text],
        show_command: settings.show_commands,
        execute: !settings.no_run,
        capture_output: !settings.verbose,
    }
}

/// The steps for the first `n` tests of a crate target: for each a look for an
/// interrupt, then its run.
pub open spec fn test_steps(
    package: Seq<char>,
    krate: Seq<char>,
    tests: Seq<Test>,
    settings: Settings,
    n: int,
) -> Seq<StepView>
    decreases n,
{
    if n <= 0 {
        Seq::empty()
    } else {
        test_steps(package, krate, tests, settings, n - 1) + seq![
            StepView::Poll,
            StepView::Run(run_view(package, krate, tests[n - 1]@, settings)),
        ]
    }
}

/// The steps for one crate target: a look for an interrupt; then, where it has
/// tests, its directory under coverage and the steps of its tests.
pub open spec fn one_crate_steps(
    package: Seq<char>,
    krate: Seq<char>,
    tests: Seq<Test>,
    settings: Settings,
) -> Seq<StepView> {
    seq![StepView::Poll] + (if tests.len() == 0 {
        Seq::empty()
    } else {
        (if settings.coverage {
            seq![StepView::CreateDir(crate_dir(package, krate))]
        } else {
            Seq::empty()
        }) + test_steps(package, krate, tests, settings, tests.len() as int)
    })
}

/// The steps for the first `n` crate targets of a package.
pub open spec fn crate_steps(
    package: Seq<char>,
    crates: StrMap<Vec<Test>>,
    settings: Settings,
    n: int,
) -> Seq<StepView>
    decreases n,
{
    if n <= 0 {
        Seq::empty()
    } else {
        crate_steps(package, crates, settings, n - 1) + one_crate_steps(
            package,
            crates.keys()[n - 1],
            crates.values()[n - 1]@,
            settings,
        )
    }
}

/// The steps for the first `n` packages: for each a look for an interrupt and
/// the steps of its crate targets.
pub open spec fn package_steps(map: PackageCrateMap<Vec<Test>>, settings: Settings, n: int) -> Seq<
    StepView,
>
    decreases n,
{
    if n <= 0 {
        Seq::empty()
    } else {
        package_steps(map, settings, n - 1) + seq![StepView::Poll] + crate_steps(
            map.keys()[n - 1],
            map.values()[n - 1],
            settings,
            map.values()[n - 1].keys().len() as int,
        )
    }
}

/// The greater of two numbers.
pub open spec fn greater(a: int, b: int) -> int {
    if a >= b {
        a
    } else {
        b
    }
}

/// The greatest number of bytes among the first `n` texts.
pub open spec fn text_width(texts: Seq<Seq<char>>, n: int) -> int
    decreases n,
{
    if n <= 0 {
        0
    } else {
        greater(text_width(texts, n - 1), byte_len(texts[n - 1]))
    }
}

/// The greatest number of bytes among the keys of the crate targets of the
/// first `n` packages.
pub open spec fn crate_width(map: PackageCrateMap<Vec<Test>>, n: int) -> int
    decreases n,
{
    if n <= 0 {
        0
    } else {
        greater(
            crate_width(map, n - 1),
            text_width(map.values()[n - 1].keys(), map.values()[n - 1].keys().len() as int),
        )
    }
}

/// The greatest number of bytes among the texts of the first `n` tests.
pub open spec fn tests_width(tests: Seq<Test>, n: int) -> int
    decreases n,
{
    if n <= 0 {
        0
    } else {
        greater(tests_width(tests, n - 1), byte_len(join(tests[n - 1]@, segment_separator())))
    }
}

/// The greatest number of bytes among the texts of the tests of the first `n`
/// crate targets.
pub open spec fn crates_test_width(crates: StrMap<Vec<Test>>, n: int) -> int
    decreases n,
{
    if n <= 0 {
        0
    } else {
        greater(
            crates_test_width(crates, n - 1),
            tests_width(crates.values()[n - 1]@, crates.values()[n - 1]@.len() as int),
        )
    }
}

/// The greatest number of bytes among the texts of the tests of the first `n`
/// packages.
pub open spec fn test_width(map: PackageCrateMap<Vec<Test>>, n: int) -> int
    decreases n,
{
    if n <= 0 {
        0
    } else {
        greater(
            test_width(map, n - 1),
            crates_test_width(map.values()[n - 1], map.values()[n - 1].keys().len() as int),
        )
    }
}

/// The number of tests of the first `n` crate targets.
pub open spec fn crates_count(crates: StrMap<Vec<Test>>, n: int) -> int
    decreases n,
{
    if n <= 0 {
        0
    } else {
        crates_count(crates, n - 1) + crates.values()[n - 1]@.len()
    }
}

/// The number of tests of the first `n` packages.
pub open spec fn test_count(map: PackageCrateMap<Vec<Test>>, n: int) -> int
    decreases n,
{
    if n <= 0 {
        0
    } else {
        test_count(map, n - 1) + crates_count(
            map.values()[n - 1],
            map.values()[n - 1].keys().len() as int,
        )
    }
}

/// The settings of a run of the tests of `map`: the options, and widths that
/// fit every name.
pub open spec fn settings_for(map: PackageCrateMap<Vec<Test>>, coverage: bool, opts: Opts) -> Settings {
    Settings {
        coverage,
        show_commands: opts.show_commands,
        no_run: opts.no_run,
        verbose: opts.verbose,
        extra: views(opts.zzargs@),
        package_width: text_width(map.keys(), map.keys().len() as int),
        crate_width: crate_width(map, map.keys().len() as int),
        test_width: test_width(map, map.keys().len() as int),
    }
}

/// The arguments that pick a crate target, as `selection_args` says.
pub fn test_selection(krate: &str) -> (r: Vec<String>)
    ensures
        views(r@) == selection_args(krate@),
{
    let mut args: Vec<String> = Vec::new();
    if str_eq(krate, "lib") {
        args.push(String::from_str("--lib"));
    } else {
        match strip_prefix(krate, "bin:") {
            Some(bin) => {
                args.push(String::from_str("--bin"));
                args.push(bin);
            },
            None => {
                args.push(String::from_str("--test"));
                args.push(String::from_str(krate));
            },
        }
    }
    assert(views(args@) =~= selection_args(krate@));
    args
}

/// Appends copies of the strings of `more` to `args`.
fn push_all(args: &mut Vec<String>, more: &Vec<String>)
    ensures
        views(final(args)@) == views(old(args)@) + views(more@),
{
    let ghost start = views(args@);
    let mut i: usize = 0;
    assert(views(args@) =~= start + views(more@).take(0));
    while i < more.len()
        invariant
            0 <= i <= more@.len(),
            views(args@) == start + views(more@).take(i as int),
        decreases more@.len() - i,
    {
        let s = more[i].clone();
        proof {
            lemma_views_push(args@, s);
            assert(start + views(more@).take(i + 1) =~= (start + views(more@).take(i as int)).push(s@));
        }
        args.push(s);
        i += 1;
    }
    assert(views(more@).take(more@.len() as int) =~= views(more@));
}

/// The arguments of the command for a crate target, as `command_args` says.
pub fn cargo_command(package: &str, krate: &str, path: Option<&str>, zzargs: &Vec<String>) -> (r:
    Vec<String>)
    ensures
        views(r@) == command_args(
            package@,
            krate@,
            match path {
                Some(p) => Some(p@),
                None => None,
            },
            views(zzargs@),
        ),
{
    let mut args: Vec<String> = Vec::new();
    args.push(
        String::from_str(
            if path.is_some() {
                "llvm-cov"
            } else {
                "test"
            },
        ),
    );
    args.push(String::from_str("--package"));
    args.push(String::from_str(package));
    let selection = test_selection(krate);
    let ghost head = views(args@);
    push_all(&mut args, &selection);
    let ghost picked = views(args@);
    match path {
        Some(p) => {
            args.push(String::from_str("--no-clean"));
            args.push(String::from_str("--lcov"));
            args.push(String::from_str("--output-path"));
            args.push(String::from_str(p));
            assert(views(args@) =~= picked + seq!["--no-clean"@, "--lcov"@, "--output-path"@, p@]);
        },
        None => {
            assert(views(args@) =~= picked + Seq::<Seq<char>>::empty());
        },
    }
    assert(head =~= seq![
        if path is Some {
            "llvm-cov"@
        } else {
            "test"@
        },
        "--package"@,
        package@,
    ]);
    push_all(&mut args, zzargs);
    args
}

/// Whether a progress line is shown: on a terminal, under coverage, and where
/// the output of the commands is not shown.
pub fn shows_progress(terminal: bool, coverage: bool, verbose: bool) -> (r: bool)
    ensures
        r == (terminal && coverage && !verbose),
{
    terminal && coverage && !verbose
}

/// The directory of a crate target in the store, as `crate_dir` says.
pub fn crate_dir_of(package: &str, krate: &str) -> (r: String)
    ensures
        r@ == crate_dir(package@, krate@),
{
    let mut dir = crate::db::packages_dir();
    dir.append("/");
    dir.append(package);
    dir.append("/");
    dir.append(krate);
    assert(dir@ =~= crate_dir(package@, krate@));
    dir
}

/// The path of a test's artifact in the store, as `artifact_path` says.
pub fn artifact_path_of(package: &str, krate: &str, test: &Test) -> (r: String)
    ensures
        r@ == artifact_path(package@, krate@, join(test@, segment_separator())),
{
    let mut path = crate_dir_of(package, krate);
    path.append("/");
    path.append(test.to_string().as_str());
    path.append(".lcov");
    assert(path@ =~= artifact_path(package@, krate@, join(test@, segment_separator())));
    path
}

/// The run of one test, as `run_view` says.
pub fn test_run(package: &str, krate: &str, test: &Test, config: &RunConfig) -> (r: TestRun)
    ensures
        r@ == run_view(package@, krate@, test@, config@),
{
    let text = test.to_string();
    let output_path = if config.coverage {
        Some(artifact_path_of(package, krate, test))
    } else {
        None
    };
    let mut message = String::from_str("package: ");
    message.append(padded_right(package, config.package_width).as_str());
    message.append("  crate: ");
    message.append(padded_right(krate, config.crate_width).as_str());
    message.append("  test: ");
    message.append(padded_right(text.as_str(), config.test_width).as_str());
    assert(message@ =~= progress_message(package@, krate@, text@, config@));
    let mut args = match &output_path {
        Some(path) => cargo_command(package, krate, Some(path.as_str()), &config.extra),
        None => cargo_command(package, krate, None, &config.extra),
    };
    let ghost command = views(args@);
    args.push(String::from_str("--"));
    args.push(String::from_str("--exact"));
    args.push(text.clone());
    assert(views(args@) =~= command + seq!["--"@, "--exact"@, text@]);
    TestRun {
        package: String::from_str(package),
        krate: String::from_str(krate),
        test: text,
        output_path,
        message,
        clean_first: config.coverage,
        args,
        show_command: config.show_commands,
        execute: !config.no_run,
        capture_output: !config.verbose,
    }
}

/// A step appended to a list appends its texts.
proof fn lemma_step_views_push(steps: Seq<Step>, step: Step)
    ensures
        step_views(steps.push(step)) == step_views(steps).push(step@),
{
    assert(step_views(steps.push(step)) =~= step_views(steps).push(step@));
}

/// Appends the steps for one crate target to `steps`.
fn push_crate_steps(steps: &mut Vec<Step>, package: &str, krate: &str, tests: &Vec<Test>, config: &RunConfig)
    ensures
        step_views(final(steps)@) == step_views(old(steps)@) + one_crate_steps(
            package@,
            krate@,
            tests@,
            config@,
        ),
{
    let ghost start = step_views(steps@);
    proof {
        lemma_step_views_push(steps@, Step::Poll);
    }
    steps.push(Step::Poll);
    if tests.len() == 0 {
        assert(step_views(steps@) =~= start + one_crate_steps(package@, krate@, tests@, config@));
        return ;
    }
    if config.coverage {
        let dir = crate_dir_of(package, krate);
        proof {
            lemma_step_views_push(steps@, Step::CreateDir(dir));
        }
        steps.push(Step::CreateDir(dir));
    }
    let ghost head = step_views(steps@);
    let mut k: usize = 0;
    assert(step_views(steps@) =~= head + test_steps(package@, krate@, tests@, config@, 0));
    while k < tests.len()
        invariant
            0 <= k <= tests@.len(),
            step_views(steps@) == head + test_steps(package@, krate@, tests@, config@, k as int),
        decreases tests@.len() - k,
    {
        let run = test_run(package, krate, &tests[k], config);
        proof {
            lemma_step_views_push(steps@, Step::Poll);
            lemma_step_views_push(steps@.push(Step::Poll), Step::Run(run));
            assert(head + test_steps(package@, krate@, tests@, config@, k + 1) =~= (head + test_steps(
                package@,
                krate@,
                tests@,
                config@,
                k as int,
            )).push(StepView::Poll).push(StepView::Run(run@)));
        }
        steps.push(Step::Poll);
        steps.push(Step::Run(run));
        k += 1;
    }
    assert(step_views(steps@) =~= start + one_crate_steps(package@, krate@, tests@, config@));
}

/// The settings of a run, as `settings_for` says, and the number of tests, as
/// far as a `usize` counts.
fn measure(map: &PackageCrateMap<Vec<Test>>, coverage: bool, opts: &Opts) -> (r: (RunConfig, usize))
    requires
        crate_maps_wf(*map),
    ensures
        r.0@ == settings_for(*map, coverage, *opts),
        r.1 as int == if test_count(*map, map.keys().len() as int) > usize::MAX {
            usize::MAX as int
        } else {
            test_count(*map, map.keys().len() as int)
        },
{
    let mut package_width: usize = 0;
    let mut crate_w: usize = 0;
    let mut test_w: usize = 0;
    let mut total: usize = 0;
    let mut i: usize = 0;
    while i < map.len()
        invariant
            crate_maps_wf(*map),
            0 <= i <= map.keys().len(),
            package_width as int == text_width(map.keys(), i as int),
            crate_w as int == crate_width(*map, i as int),
            test_w as int == test_width(*map, i as int),
            0 <= test_count(*map, i as int),
            total as int == if test_count(*map, i as int) > usize::MAX {
                usize::MAX as int
            } else {
                test_count(*map, i as int)
            },
        decreases map.keys().len() - i,
    {
        let name_len = map.key(i).as_str().len();
        if name_len > package_width {
            package_width = name_len;
        }
        let crates = map.value(i);
        let mut inner_crate: usize = 0;
        let mut inner_test: usize = 0;
        let mut inner_total: usize = 0;
        let mut j: usize = 0;
        while j < crates.len()
            invariant
                crates.wf(),
                0 <= j <= crates.keys().len(),
                inner_crate as int == text_width(crates.keys(), j as int),
                inner_test as int == crates_test_width(*crates, j as int),
                0 <= crates_count(*crates, j as int),
                inner_total as int == if crates_count(*crates, j as int) > usize::MAX {
                    usize::MAX as int
                } else {
                    crates_count(*crates, j as int)
                },
            decreases crates.keys().len() - j,
        {
            let key_len = crates.key(j).as_str().len();
            if key_len > inner_crate {
                inner_crate = key_len;
            }
            let tests = crates.value(j);
            let mut widest: usize = 0;
            let mut k: usize = 0;
            while k < tests.len()
                invariant
                    0 <= k <= tests@.len(),
                    widest as int == tests_width(tests@, k as int),
                decreases tests@.len() - k,
            {
                let len = tests[k].to_string().as_str().len();
                if len > widest {
                    widest = len;
                }
                k += 1;
            }
            if widest > inner_test {
                inner_test = widest;
            }
            inner_total = inner_total.saturating_add(tests.len());
            j += 1;
        }
        if inner_crate > crate_w {
            crate_w = inner_crate;
        }
        if inner_test > test_w {
            test_w = inner_test;
        }
        total = total.saturating_add(inner_total);
        i += 1;
    }
    let config = RunConfig {
        coverage,
        show_commands: opts.show_commands,
        no_run: opts.no_run,
        verbose: opts.verbose,
        extra: opts.zzargs.clone(),
        package_width,
        crate_width: crate_w,
        test_width: test_w,
    };
    assert(views(config.extra@) =~= views(opts.zzargs@));
    (config, total)
}

/// Plans the run of the tests of `package_crate_test_map`, one at a time:
/// package by package, crate target by crate target, test by test, with a look
/// for an interrupt before each of them. Under coverage each test writes its
/// artifact into the store.
pub fn run_tests(package_crate_test_map: &PackageCrateMap<Vec<Test>>, coverage: bool, opts: &Opts) -> (r:
    RunPlan)
    requires
        crate_maps_wf(*package_crate_test_map),
    ensures
        step_views(r.steps@) == package_steps(
            *package_crate_test_map,
            settings_for(*package_crate_test_map, coverage, *opts),
            package_crate_test_map.keys().len() as int,
        ),
        r.total as int == if test_count(
            *package_crate_test_map,
            package_crate_test_map.keys().len() as int,
        ) > usize::MAX {
            usize::MAX as int
        } else {
            test_count(*package_crate_test_map, package_crate_test_map.keys().len() as int)
        },
{
    let map = package_crate_test_map;
    let (config, total) = measure(map, coverage, opts);
    let mut steps: Vec<Step> = Vec::new();
    let mut i: usize = 0;
    assert(step_views(steps@) =~= package_steps(*map, config@, 0));
    while i < map.len()
        invariant
            crate_maps_wf(*map),
            0 <= i <= map.keys().len(),
            step_views(steps@) == package_steps(*map, config@, i as int),
        decreases map.keys().len() - i,
    {
        let package = map.key(i);
        let crates = map.value(i);
        let ghost start = step_views(steps@);
        proof {
            lemma_step_views_push(steps@, Step::Poll);
        }
        steps.push(Step::Poll);
        let ghost head = step_views(steps@);
        let mut j: usize = 0;
        assert(step_views(steps@) =~= head + crate_steps(package@, *crates, config@, 0));
        while j < crates.len()
            invariant
                crates.wf(),
                0 <= j <= crates.keys().len(),
                step_views(steps@) == head + crate_steps(package@, *crates, config@, j as int),
            decreases crates.keys().len() - j,
        {
            let ghost before = step_views(steps@);
            push_crate_steps(&mut steps, package.as_str(), crates.key(j).as_str(), crates.value(j), &config);
            assert(head + crate_steps(package@, *crates, config@, j + 1) =~= before + one_crate_steps(
                package@,
                crates.keys()[j as int],
                crates.values()[j as int]@,
                config@,
            ));
            j += 1;
        }
        assert(step_views(steps@) =~= start + seq![StepView::Poll] + crate_steps(
            package@,
            *crates,
            config@,
            crates.keys().len() as int,
        ));
        i += 1;
    }
    RunPlan { total, steps }
}

/// What a look for an interrupt comes to: where one was seen, the operation
/// stops there.
pub fn poll(interrupted: bool) -> (r: Result<(), Failure>)
    ensures
        interrupted ==> r matches Err(Failure::Cancelled),
        !interrupted ==> r is Ok,
{
    if interrupted {
        Err(Failure::Cancelled)
    } else {
        Ok(())
    }
}

/// The message of the warning about a test's command that failed: the command,
/// and on a line of its own what is known of its output.
pub open spec fn failed_run_message(command: Seq<char>, output: Seq<char>) -> Seq<char> {
    "command failed: "@ + command + if output.len() == 0 {
        Seq::<char>::empty()
    } else {
        "\n"@ + output
    }
}

/// What the end of a test's command comes to. A test that fails does not stop
/// the run: it is worth a warning, which is a failure only where warnings are
/// denied.
pub fn test_outcome(success: bool, command: &str, output: &str, deny_warnings: bool) -> (r: Result<
    Option<String>,
    Failure,
>)
    ensures
        success ==> r matches Ok(None),
        !success && deny_warnings ==> (r matches Err(Failure::Warning(m)) && m@ == failed_run_message(
            command@,
            output@,
        )),
        !success && !deny_warnings ==> (r matches Ok(Some(text)) && text@ == warning_text(
            failed_run_message(command@, output@),
        )),
{
    if success {
        return Ok(None);
    }
    let mut msg = String::from_str("command failed: ");
    msg.append(command);
    if output.unicode_len() != 0 {
        msg.append("\n");
        msg.append(output);
    }
    assert(msg@ =~= failed_run_message(command@, output@));
    match warn(msg.as_str(), deny_warnings) {
        Ok(text) => Ok(Some(text)),
        Err(e) => Err(e),
    }
}

/// What the end of a command comes to that the run depends on, such as the
/// listing of the tests: where it fails, the operation does.
pub fn tool_outcome(success: bool, command: &str) -> (r: Result<(), Failure>)
    ensures
        success ==> r is Ok,
        !success ==> (r matches Err(Failure::CommandFailed(c)) && c@ == command@),
{
    if success {
        Ok(())
    } else {
        Err(Failure::CommandFailed(String::from_str(command)))
    }
}

} // verus!
