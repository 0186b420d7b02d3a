use line_test::db::Db;
use line_test::lines::parse_line_specifications;
use line_test::model::{PackageCrateMap, PathCoverageMap, PathDigestMap, PathLineMap, Test, TestCoverage};
use line_test::report::warn_about_uncovered_lines;
use line_test::select::{
    test_map_is_empty, tests_for_path_lines, tests_for_refresh, zero_coverage_tests,
};
use line_test::str_map::StrMap;

fn record(files: &[(&str, &[u32])]) -> PathCoverageMap {
    let mut map: PathCoverageMap = StrMap::new();
    for (path, lines) in files {
        map.insert((*path).to_owned(), lines.to_vec());
    }
    map
}

fn coverage(tests: &[(&str, &str, &str, PathCoverageMap)]) -> PackageCrateMap<Vec<TestCoverage>> {
    let mut map: PackageCrateMap<Vec<TestCoverage>> = StrMap::new();
    for (package, krate, test, _) in tests {
        let mut crates = map.remove(package).unwrap_or_else(StrMap::new);
        let mut list = crates.remove(krate).unwrap_or_default();
        let files = tests
            .iter()
            .find(|(p, k, t, _)| p == package && k == krate && t == test)
            .map(|(_, _, _, files)| {
                let mut copy: PathCoverageMap = StrMap::new();
                for i in 0..files.len() {
                    copy.insert(files.key(i).clone(), files.value(i).clone());
                }
                copy
            })
            .unwrap();
        list.push(TestCoverage { test: Test::parse(test), coverage: files });
        crates.insert((*krate).to_owned(), list);
        map.insert((*package).to_owned(), crates);
    }
    map
}

fn asked(specs: &[&str]) -> PathLineMap {
    let specs: Vec<String> = specs.iter().map(|s| (*s).to_owned()).collect();
    parse_line_specifications(&specs).unwrap().0
}

fn names(map: &PackageCrateMap<Vec<Test>>) -> Vec<(String, String, Vec<String>)> {
    let mut out = vec![];
    for i in 0..map.len() {
        let crates = map.value(i);
        for j in 0..crates.len() {
            out.push((
                map.key(i).clone(),
                crates.key(j).clone(),
                crates.value(j).iter().map(|t| t.to_string()).collect(),
            ));
        }
    }
    out
}

fn selected(map: &PackageCrateMap<Vec<Test>>) -> Vec<String> {
    names(map).into_iter().flat_map(|(_, _, tests)| tests).collect()
}

fn uncovered(map: &PathLineMap) -> Vec<(String, Vec<(u32, u32)>)> {
    (0..map.len())
        .map(|i| {
            let ranges = map.value(i).clone().into_ranges();
            (map.key(i).clone(), ranges.into_iter().map(|r| (r.start, r.end)).collect())
        })
        .collect()
}

fn two_tests() -> PackageCrateMap<Vec<TestCoverage>> {
    coverage(&[
        ("pkg", "lib", "t1", record(&[("src/a.rs", &[5, 6, 7])])),
        ("pkg", "lib", "t2", record(&[("src/a.rs", &[10, 11])])),
    ])
}

#[test]
fn a_requested_line_selects_the_test_that_ran_it() {
    let selection = tests_for_path_lines(&two_tests(), &asked(&["src/a.rs:6-6"]));
    assert_eq!(selected(&selection.tests), vec!["t1"]);
    assert_eq!(uncovered(&selection.uncovered), vec![]);
    assert_eq!(warn_about_uncovered_lines(&selection.uncovered, false).unwrap(), None);
}

#[test]
fn a_line_that_no_test_ran_selects_nothing_and_is_reported() {
    let selection = tests_for_path_lines(&two_tests(), &asked(&["src/a.rs:20"]));
    assert_eq!(selected(&selection.tests), Vec::<String>::new());
    assert!(test_map_is_empty(&selection.tests));
    assert_eq!(uncovered(&selection.uncovered), vec![("src/a.rs".to_owned(), vec![(20, 21)])]);
    assert_eq!(
        warn_about_uncovered_lines(&selection.uncovered, false).unwrap(),
        Some(
            "Warning: the following lines are not covered by any test:\n    src/a.rs:20\n"
                .to_owned()
        )
    );
}

#[test]
fn the_result_names_every_package_and_crate() {
    let coverage = coverage(&[
        ("b", "lib", "t1", record(&[("src/a.rs", &[1])])),
        ("a", "tests", "t2", record(&[("src/b.rs", &[1])])),
        ("a", "bin:x", "t3", record(&[("src/c.rs", &[1])])),
    ]);
    let selection = tests_for_path_lines(&coverage, &asked(&["src/b.rs:1"]));
    assert_eq!(
        names(&selection.tests),
        vec![
            ("a".to_owned(), "bin:x".to_owned(), vec![]),
            ("a".to_owned(), "tests".to_owned(), vec!["t2".to_owned()]),
            ("b".to_owned(), "lib".to_owned(), vec![]),
        ]
    );
}

#[test]
fn the_first_test_to_hit_a_path_wins_it() {
    let coverage = coverage(&[
        ("pkg", "lib", "early", record(&[("src/a.rs", &[1])])),
        ("pkg", "lib", "late", record(&[("src/a.rs", &[1, 2])])),
        ("pkg", "lib", "other", record(&[("src/b.rs", &[9])])),
    ]);
    let selection = tests_for_path_lines(&coverage, &asked(&["src/a.rs:1-2", "src/b.rs:9"]));
    assert_eq!(selected(&selection.tests), vec!["early", "other"]);
    assert_eq!(uncovered(&selection.uncovered), vec![]);
}

#[test]
fn packages_are_considered_in_ascending_order() {
    let coverage = coverage(&[
        ("zeta", "lib", "z", record(&[("src/a.rs", &[1])])),
        ("alpha", "lib", "a", record(&[("src/a.rs", &[1])])),
    ]);
    let selection = tests_for_path_lines(&coverage, &asked(&["src/a.rs:1"]));
    assert_eq!(selected(&selection.tests), vec!["a"]);
}

#[test]
fn a_test_that_hits_two_paths_is_selected_once() {
    let coverage = coverage(&[
        ("pkg", "lib", "both", record(&[("src/a.rs", &[1]), ("src/b.rs", &[2])])),
        ("pkg", "lib", "second", record(&[("src/b.rs", &[2])])),
    ]);
    let selection = tests_for_path_lines(&coverage, &asked(&["src/a.rs:1", "src/b.rs:2"]));
    assert_eq!(selected(&selection.tests), vec!["both"]);
}

#[test]
fn a_path_that_was_hit_counts_as_covered_in_full() {
    let coverage = coverage(&[("pkg", "lib", "t", record(&[("src/a.rs", &[3])]))]);
    let selection = tests_for_path_lines(&coverage, &asked(&["src/a.rs:1-9", "src/b.rs:4-5,7"]));
    assert_eq!(selected(&selection.tests), vec!["t"]);
    assert_eq!(
        uncovered(&selection.uncovered),
        vec![("src/b.rs".to_owned(), vec![(4, 6), (7, 8)])]
    );
    assert_eq!(
        warn_about_uncovered_lines(&selection.uncovered, false).unwrap(),
        Some(
            "Warning: the following lines are not covered by any test:\n    src/b.rs:4-5\n    src/b.rs:7\n"
                .to_owned()
        )
    );
}

#[test]
fn denied_warnings_make_uncovered_lines_a_failure() {
    let selection = tests_for_path_lines(&two_tests(), &asked(&["src/a.rs:20"]));
    let failure = warn_about_uncovered_lines(&selection.uncovered, true).unwrap_err();
    assert_eq!(
        failure.message(),
        "the following lines are not covered by any test:\n    src/a.rs:20\n"
    );
}

#[test]
fn selection_is_repeatable() {
    let coverage = coverage(&[
        ("p", "lib", "m::t1", record(&[("src/a.rs", &[1, 2]), ("src/b.rs", &[3])])),
        ("p", "lib", "m::t2", record(&[("src/b.rs", &[3, 4])])),
        ("q", "bin:x", "t3", record(&[("src/c.rs", &[8])])),
    ]);
    let asked = asked(&["src/a.rs:2", "src/b.rs:4", "src/c.rs:1-7", "src/d.rs:1"]);
    let first = tests_for_path_lines(&coverage, &asked);
    let second = tests_for_path_lines(&coverage, &asked);
    assert_eq!(names(&first.tests), names(&second.tests));
    assert_eq!(uncovered(&first.uncovered), uncovered(&second.uncovered));
    assert_eq!(selected(&first.tests), vec!["m::t1", "m::t2"]);
    assert_eq!(
        uncovered(&first.uncovered),
        vec![("src/c.rs".to_owned(), vec![(1, 8)]), ("src/d.rs".to_owned(), vec![(1, 2)])]
    );
}

#[test]
fn tests_that_ran_nothing_have_zero_coverage() {
    let coverage = coverage(&[
        ("p", "lib", "nothing", record(&[])),
        ("p", "lib", "empty_files", record(&[("src/a.rs", &[]), ("src/b.rs", &[])])),
        ("p", "lib", "one_line", record(&[("src/a.rs", &[]), ("src/b.rs", &[4])])),
        ("q", "lib", "busy", record(&[("src/a.rs", &[1, 2, 3])])),
    ]);
    let zero = zero_coverage_tests(&coverage);
    assert_eq!(
        names(&zero),
        vec![
            ("p".to_owned(), "lib".to_owned(), vec!["nothing".to_owned(), "empty_files".to_owned()]),
            ("q".to_owned(), "lib".to_owned(), vec![]),
        ]
    );
    assert!(!test_map_is_empty(&zero));
}

#[test]
fn a_map_without_tests_is_empty() {
    let map: PackageCrateMap<Vec<Test>> = StrMap::new();
    assert!(test_map_is_empty(&map));
    let coverage = coverage(&[("q", "lib", "busy", record(&[("src/a.rs", &[1])]))]);
    assert!(test_map_is_empty(&zero_coverage_tests(&coverage)));
}

fn digests(entries: &[(&str, u8)]) -> PathDigestMap {
    let mut map: PathDigestMap = StrMap::new();
    for (path, byte) in entries {
        map.insert((*path).to_owned(), [*byte; 32]);
    }
    map
}

fn store(entries: &[(&str, u8)]) -> Db {
    Db { package_crate_test_map: StrMap::new(), path_digest_map: digests(entries) }
}

#[test]
fn refresh_selects_the_tests_of_changed_files() {
    let coverage = coverage(&[
        ("p", "lib", "A", record(&[("F", &[1, 2])])),
        ("p", "lib", "B", record(&[("G", &[1, 2])])),
    ]);
    let db = store(&[("F", 1), ("G", 2)]);
    let unchanged = tests_for_refresh(&db, &coverage, &digests(&[("F", 1), ("G", 2)])).unwrap();
    assert!(test_map_is_empty(&unchanged));
    let changed = tests_for_refresh(&db, &coverage, &digests(&[("F", 9), ("G", 2)])).unwrap();
    assert_eq!(selected(&changed), vec!["A"]);
}

#[test]
fn refresh_selects_the_tests_of_files_that_the_store_does_not_know() {
    let coverage = coverage(&[
        ("p", "lib", "A", record(&[("F", &[1]), ("H", &[])])),
        ("p", "lib", "B", record(&[("G", &[1, 2])])),
    ]);
    let db = store(&[("F", 1), ("G", 2)]);
    let picked =
        tests_for_refresh(&db, &coverage, &digests(&[("F", 1), ("G", 2), ("H", 3)])).unwrap();
    assert_eq!(selected(&picked), vec!["A"]);
}

#[test]
fn refresh_needs_the_current_digest_of_every_file() {
    let coverage = coverage(&[
        ("p", "lib", "A", record(&[("F", &[1, 2])])),
        ("p", "lib", "B", record(&[("G", &[1, 2])])),
    ]);
    let db = store(&[("F", 1), ("G", 2)]);
    let failure = tests_for_refresh(&db, &coverage, &digests(&[("F", 9)])).unwrap_err();
    assert_eq!(failure.message(), "no current digest of: G");
}
