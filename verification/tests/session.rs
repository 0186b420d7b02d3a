use line_test::failure::{Failure, FailureKind};
use line_test::lines::parse_line_specifications;
use line_test::model::{PackageCrateMap, PathCoverageMap, PathDigestMap, PathLineMap, Test, TestCoverage};
use line_test::opts::Opts;
use line_test::run::{poll, test_outcome, tool_outcome, Step};
use line_test::session::{extra_source, refresh, run_tests, Source};
use line_test::str_map::StrMap;

fn no_options() -> Opts {
    Opts {
        build: false,
        deny_warnings: false,
        diff: false,
        lines: vec![],
        missing_only: false,
        no_run: false,
        refresh: false,
        show_commands: false,
        verbose: false,
        zero_coverage: false,
        zzargs: vec![],
    }
}

fn record(files: &[(&str, &[u32])]) -> PathCoverageMap {
    let mut map: PathCoverageMap = StrMap::new();
    for (path, lines) in files {
        map.insert((*path).to_owned(), lines.to_vec());
    }
    map
}

fn coverage() -> PackageCrateMap<Vec<TestCoverage>> {
    let mut lib = vec![];
    lib.push(TestCoverage { test: Test::parse("t1"), coverage: record(&[("src/a.rs", &[5, 6, 7])]) });
    lib.push(TestCoverage { test: Test::parse("idle"), coverage: record(&[("src/a.rs", &[])]) });
    lib.push(TestCoverage { test: Test::parse("t2"), coverage: record(&[("src/a.rs", &[10, 11])]) });
    let mut crates: StrMap<Vec<TestCoverage>> = StrMap::new();
    crates.insert("lib".to_owned(), lib);
    let mut map: PackageCrateMap<Vec<TestCoverage>> = StrMap::new();
    map.insert("pkg".to_owned(), crates);
    map
}

fn asked(specs: &[&str]) -> PathLineMap {
    let specs: Vec<String> = specs.iter().map(|s| (*s).to_owned()).collect();
    parse_line_specifications(&specs).unwrap().0
}

fn runs(steps: &[Step]) -> Vec<String> {
    steps
        .iter()
        .filter_map(|step| match step {
            Step::Run(run) => Some(run.test.clone()),
            _ => None,
        })
        .collect()
}

#[test]
fn a_diff_and_specifications_cannot_both_come_from_standard_input() {
    let failure = extra_source(true, true).unwrap_err();
    assert!(matches!(failure, Failure::DiffWithStdin));
    assert_eq!(failure.kind(), FailureKind::Config);
    assert_eq!(extra_source(true, false).unwrap(), Source::Diff);
    assert_eq!(extra_source(false, true).unwrap(), Source::Stdin);
    assert_eq!(extra_source(false, false).unwrap(), Source::Options);
}

#[test]
fn the_selected_tests_are_run_without_coverage() {
    let outcome = run_tests(&coverage(), &asked(&["src/a.rs:6-6"]), &no_options()).unwrap();
    assert_eq!(outcome.warning, None);
    assert!(outcome.uncovered.is_empty());
    let plan = outcome.plan.unwrap();
    assert_eq!(plan.total, 1);
    assert_eq!(runs(&plan.steps), vec!["t1"]);
    match &plan.steps[3] {
        Step::Run(run) => assert_eq!(run.args[0], "test"),
        _ => panic!("no run"),
    }
}

#[test]
fn with_nothing_selected_there_is_nothing_to_do() {
    let outcome = run_tests(&coverage(), &asked(&["src/a.rs:20"]), &no_options()).unwrap();
    assert!(outcome.plan.is_none());
    assert_eq!(
        outcome.warning,
        Some("Warning: the following lines are not covered by any test:\n    src/a.rs:20\n".to_owned())
    );
}

#[test]
fn tests_that_ran_nothing_are_run_after_the_selected_ones() {
    let mut opts = no_options();
    opts.zero_coverage = true;
    let outcome = run_tests(&coverage(), &asked(&["src/a.rs:10"]), &opts).unwrap();
    assert_eq!(runs(&outcome.plan.unwrap().steps), vec!["t2", "idle"]);
    let outcome = run_tests(&coverage(), &asked(&[]), &opts).unwrap();
    assert_eq!(runs(&outcome.plan.unwrap().steps), vec!["idle"]);
}

#[test]
fn uncovered_lines_fail_the_invocation_where_warnings_are_denied() {
    let mut opts = no_options();
    opts.deny_warnings = true;
    let failure = run_tests(&coverage(), &asked(&["src/b.rs:1"]), &opts).unwrap_err();
    assert_eq!(failure.kind(), FailureKind::DeniedWarning);
    assert!(run_tests(&coverage(), &asked(&["src/a.rs:5"]), &opts).is_ok());
}

fn digests(entries: &[(&str, u8)]) -> PathDigestMap {
    let mut map: PathDigestMap = StrMap::new();
    for (path, byte) in entries {
        map.insert((*path).to_owned(), [*byte; 32]);
    }
    map
}

#[test]
fn a_refresh_runs_the_tests_of_changed_files_under_coverage() {
    let db = line_test::db::Db {
        package_crate_test_map: StrMap::new(),
        path_digest_map: digests(&[("src/a.rs", 1)]),
    };
    let plan = refresh(&db, &coverage(), &digests(&[("src/a.rs", 2)]), &no_options()).unwrap();
    assert!(plan.rebuild_digests);
    assert_eq!(runs(&plan.plan.steps), vec!["t1", "idle", "t2"]);
    match &plan.plan.steps[4] {
        Step::Run(run) => {
            assert_eq!(run.args[0], "llvm-cov");
            assert_eq!(run.output_path, Some("line-test.db/packages/pkg/lib/t1.lcov".to_owned()));
        }
        _ => panic!("no run"),
    }
    let mut opts = no_options();
    opts.no_run = true;
    let plan = refresh(&db, &coverage(), &digests(&[("src/a.rs", 1)]), &opts).unwrap();
    assert!(!plan.rebuild_digests);
    assert!(runs(&plan.plan.steps).is_empty());
    assert!(matches!(
        refresh(&db, &coverage(), &digests(&[]), &opts),
        Err(Failure::DigestUnknown(ref path)) if path == "src/a.rs"
    ));
}

#[test]
fn an_interrupt_stops_the_operation() {
    assert!(poll(false).is_ok());
    let failure = poll(true).unwrap_err();
    assert!(matches!(failure, Failure::Cancelled));
    assert_eq!(failure.kind(), FailureKind::Cancellation);
}

#[test]
fn a_failing_test_is_a_warning() {
    assert_eq!(test_outcome(true, "cargo test", "out", true).unwrap(), None);
    assert_eq!(
        test_outcome(false, "cargo test", "", false).unwrap(),
        Some("Warning: command failed: cargo test".to_owned())
    );
    assert_eq!(
        test_outcome(false, "cargo test", "boom", false).unwrap(),
        Some("Warning: command failed: cargo test\nboom".to_owned())
    );
    assert!(matches!(test_outcome(false, "c", "o", true), Err(Failure::Warning(ref m)) if m == "command failed: c\no"));
}

#[test]
fn a_failing_tool_is_a_failure() {
    assert!(tool_outcome(true, "cargo metadata").is_ok());
    let failure = tool_outcome(false, "cargo metadata").unwrap_err();
    assert_eq!(failure.kind(), FailureKind::Process);
    assert_eq!(failure.message(), "command failed: cargo metadata");
}
