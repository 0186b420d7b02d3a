use line_test::model::{PackageCrateMap, Test};
use line_test::opts::Opts;
use line_test::run::{cargo_command, run_tests, test_selection, Step};
use line_test::str_map::StrMap;

fn strings(texts: &[&str]) -> Vec<String> {
    texts.iter().map(|t| (*t).to_owned()).collect()
}

fn no_options() -> Opts {
    Opts {
        build: false,
        deny_warnings: false,
        diff: false,
        lines: vec![],
        missing_only: false,
        no_run: false,
        refresh: false,
        show_commands: false,
        verbose: false,
        zero_coverage: false,
        zzargs: vec![],
    }
}

fn tests_of(entries: &[(&str, &str, &[&str])]) -> PackageCrateMap<Vec<Test>> {
    let mut map: PackageCrateMap<Vec<Test>> = StrMap::new();
    for (package, krate, tests) in entries {
        let mut crates = map.remove(package).unwrap_or_else(StrMap::new);
        crates.insert((*krate).to_owned(), tests.iter().map(|t| Test::parse(t)).collect());
        map.insert((*package).to_owned(), crates);
    }
    map
}

fn shape(steps: &[Step]) -> Vec<String> {
    steps
        .iter()
        .map(|step| match step {
            Step::Poll => "poll".to_owned(),
            Step::CreateDir(path) => format!("mkdir {}", path),
            Step::Run(run) => format!("run {}", run.test),
        })
        .collect()
}

#[test]
fn a_crate_target_is_picked_by_its_key() {
    assert_eq!(test_selection("lib"), strings(&["--lib"]));
    assert_eq!(test_selection("bin:tool"), strings(&["--bin", "tool"]));
    assert_eq!(test_selection("integration"), strings(&["--test", "integration"]));
    assert_eq!(test_selection("bin:"), strings(&["--bin", ""]));
    assert_eq!(test_selection("library"), strings(&["--test", "library"]));
}

#[test]
fn a_plain_run_uses_cargo_test() {
    assert_eq!(
        cargo_command("pkg", "lib", None, &strings(&["--release"])),
        strings(&["test", "--package", "pkg", "--lib", "--release"])
    );
}

#[test]
fn a_run_under_coverage_writes_an_artifact() {
    assert_eq!(
        cargo_command("pkg", "bin:x", Some("out/t.lcov"), &vec![]),
        strings(&[
            "llvm-cov",
            "--package",
            "pkg",
            "--bin",
            "x",
            "--no-clean",
            "--lcov",
            "--output-path",
            "out/t.lcov"
        ])
    );
}

#[test]
fn tests_are_run_one_at_a_time_in_order() {
    let map = tests_of(&[("b", "lib", &["t"]), ("a", "lib", &[]), ("a", "it", &["m::x", "y"])]);
    let plan = run_tests(&map, true, &no_options());
    assert_eq!(plan.total, 3);
    assert_eq!(
        shape(&plan.steps),
        vec![
            "poll",
            "poll",
            "mkdir line-test.db/packages/a/it",
            "poll",
            "run m::x",
            "poll",
            "run y",
            "poll",
            "poll",
            "poll",
            "mkdir line-test.db/packages/b/lib",
            "poll",
            "run t",
        ]
    );
}

#[test]
fn a_run_without_coverage_makes_no_directories() {
    let map = tests_of(&[("a", "it", &["x"])]);
    let plan = run_tests(&map, false, &no_options());
    assert_eq!(shape(&plan.steps), vec!["poll", "poll", "poll", "run x"]);
    match &plan.steps[3] {
        Step::Run(run) => {
            assert_eq!(run.output_path, None);
            assert!(!run.clean_first);
            assert!(run.execute);
            assert!(run.capture_output);
            assert!(!run.show_command);
            assert_eq!(run.args, strings(&["test", "--package", "a", "--test", "it", "--", "--exact", "x"]));
        }
        _ => panic!("no run"),
    }
}

#[test]
fn a_run_carries_its_command_and_its_message() {
    let map = tests_of(&[("pkg", "lib", &["m::long_name"]), ("p", "bin:tool", &["t"])]);
    let mut opts = no_options();
    opts.no_run = true;
    opts.show_commands = true;
    opts.verbose = true;
    opts.zzargs = strings(&["--release"]);
    let plan = run_tests(&map, true, &opts);
    assert_eq!(plan.total, 2);
    match &plan.steps[4] {
        Step::Run(run) => {
            assert_eq!(run.package, "p");
            assert_eq!(run.krate, "bin:tool");
            assert_eq!(run.test, "t");
            assert_eq!(run.output_path, Some("line-test.db/packages/p/bin:tool/t.lcov".to_owned()));
            assert_eq!(run.message, "package: p    crate: bin:tool  test: t           ");
            assert!(run.clean_first);
            assert!(run.show_command);
            assert!(!run.execute);
            assert!(!run.capture_output);
            assert_eq!(
                run.args,
                strings(&[
                    "llvm-cov",
                    "--package",
                    "p",
                    "--bin",
                    "tool",
                    "--no-clean",
                    "--lcov",
                    "--output-path",
                    "line-test.db/packages/p/bin:tool/t.lcov",
                    "--release",
                    "--",
                    "--exact",
                    "t"
                ])
            );
        }
        _ => panic!("no run"),
    }
    match &plan.steps[9] {
        Step::Run(run) => {
            assert_eq!(run.message, "package: pkg  crate: lib       test: m::long_name");
        }
        _ => panic!("no run"),
    }
}

#[test]
fn nothing_to_run_is_an_empty_plan() {
    let map: PackageCrateMap<Vec<Test>> = StrMap::new();
    let plan = run_tests(&map, true, &no_options());
    assert_eq!(plan.total, 0);
    assert!(plan.steps.is_empty());
}

#[test]
fn progress_is_shown_on_a_terminal_under_coverage() {
    assert!(line_test::run::shows_progress(true, true, false));
    assert!(!line_test::run::shows_progress(false, true, false));
    assert!(!line_test::run::shows_progress(true, false, false));
    assert!(!line_test::run::shows_progress(true, true, true));
}

#[test]
fn an_artifact_lies_under_its_package_and_crate_target() {
    assert_eq!(
        line_test::run::artifact_path_of("pkg", "bin:x", &Test::parse("m::t")),
        "line-test.db/packages/pkg/bin:x/m::t.lcov"
    );
    assert_eq!(line_test::run::crate_dir_of("pkg", "lib"), "line-test.db/packages/pkg/lib");
}
