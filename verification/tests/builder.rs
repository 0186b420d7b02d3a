use line_test::builder::{
    build, package_crate_test_map, package_crate_tests, package_crates, readme,
    remove_tests_with_lcov, target_key, BuildPlan, Package, Target,
};
use line_test::failure::{Failure, FailureKind};
use line_test::model::{PackageCrateMap, Test};
use line_test::str_map::StrMap;

fn target(name: &str, is_bin: bool, is_lib: bool, is_test: bool) -> Target {
    Target { name: name.to_owned(), is_bin, is_lib, is_test }
}

fn strings(texts: &[&str]) -> Vec<String> {
    texts.iter().map(|t| (*t).to_owned()).collect()
}

fn names(map: &PackageCrateMap<Vec<Test>>) -> Vec<(String, String, Vec<String>)> {
    let mut out = vec![];
    for i in 0..map.len() {
        let crates = map.value(i);
        for j in 0..crates.len() {
            out.push((
                map.key(i).clone(),
                crates.key(j).clone(),
                crates.value(j).iter().map(|t| t.to_string()).collect(),
            ));
        }
    }
    out
}

fn tests_of(entries: &[(&str, &str, &[&str])]) -> PackageCrateMap<Vec<Test>> {
    let mut map: PackageCrateMap<Vec<Test>> = StrMap::new();
    for (package, krate, tests) in entries {
        let mut crates = map.remove(package).unwrap_or_else(StrMap::new);
        crates.insert((*krate).to_owned(), tests.iter().map(|t| Test::parse(t)).collect());
        map.insert((*package).to_owned(), crates);
    }
    map
}

#[test]
fn a_build_moves_an_existing_store_aside() {
    assert_eq!(
        build(true, false).unwrap(),
        BuildPlan { save_existing: true, create_store: true, missing_only: false }
    );
}

#[test]
fn a_first_build_makes_the_store() {
    assert_eq!(
        build(false, false).unwrap(),
        BuildPlan { save_existing: false, create_store: true, missing_only: false }
    );
}

#[test]
fn building_what_is_missing_leaves_the_store_in_place() {
    assert_eq!(
        build(true, true).unwrap(),
        BuildPlan { save_existing: false, create_store: false, missing_only: true }
    );
}

#[test]
fn building_what_is_missing_needs_a_store() {
    let failure = build(false, true).unwrap_err();
    assert!(matches!(failure, Failure::StoreMissing));
    assert_eq!(failure.kind(), FailureKind::Config);
    assert_eq!(failure.message(), "line-test.db does not exist");
}

#[test]
fn the_store_gets_a_note() {
    assert_eq!(
        readme(),
        "This directory and its contents were automatically generated by cargo-line-test.\n"
    );
}

#[test]
fn targets_have_keys_by_kind() {
    assert_eq!(target_key(&target("tool", true, false, false)), Some("bin:tool".to_owned()));
    assert_eq!(target_key(&target("my-crate", false, true, false)), Some("lib".to_owned()));
    assert_eq!(target_key(&target("hyphen", false, false, true)), Some("hyphen".to_owned()));
    assert_eq!(target_key(&target("bench", false, false, false)), None);
    assert_eq!(target_key(&target("odd", true, true, true)), Some("bin:odd".to_owned()));
    assert_eq!(target_key(&target("odd", false, true, true)), Some("lib".to_owned()));
}

#[test]
fn packages_are_mapped_to_their_crate_targets() {
    let packages = vec![
        Package {
            name: "my-package".to_owned(),
            targets: vec![
                target("my-package", false, true, false),
                target("tool", true, false, false),
                target("build-script-build", false, false, false),
                target("it", false, false, true),
            ],
        },
        Package { name: "only-benches".to_owned(), targets: vec![target("b", false, false, false)] },
        Package { name: "attr".to_owned(), targets: vec![target("attr", false, true, false)] },
    ];
    let map = package_crates(&packages);
    let found: Vec<(String, Vec<String>)> = (0..map.len())
        .map(|i| (map.key(i).clone(), (0..map.value(i).len()).map(|j| map.value(i).key(j).clone()).collect()))
        .collect();
    assert_eq!(
        found,
        vec![
            ("attr".to_owned(), strings(&["lib"])),
            ("my-package".to_owned(), strings(&["bin:tool", "it", "lib"])),
        ]
    );
    assert!(package_crates(&vec![]).is_empty());
}

#[test]
fn tests_are_read_off_the_listing() {
    let lines = strings(&[
        "tests::one: test",
        "tests::bench_it: benchmark",
        "",
        "two: test",
        "3 tests, 1 benchmark",
        "src/lib.rs - foo (line 3): test",
    ]);
    let tests: Vec<String> = package_crate_tests(&lines).iter().map(|t| t.to_string()).collect();
    assert_eq!(tests, vec!["tests::one", "two", "src/lib.rs - foo (line 3)"]);
    assert_eq!(package_crate_tests(&lines)[0].0, vec!["tests", "one"]);
}

#[test]
fn listings_are_mapped_crate_by_crate() {
    let mut crates: StrMap<Vec<String>> = StrMap::new();
    crates.insert("lib".to_owned(), strings(&["a: test", "b: test"]));
    crates.insert("bin:x".to_owned(), strings(&["0 tests"]));
    let mut listings: PackageCrateMap<Vec<String>> = StrMap::new();
    listings.insert("p".to_owned(), crates);
    assert_eq!(
        names(&package_crate_test_map(&listings)),
        vec![
            ("p".to_owned(), "bin:x".to_owned(), vec![]),
            ("p".to_owned(), "lib".to_owned(), strings(&["a", "b"])),
        ]
    );
}

#[test]
fn tests_with_an_artifact_are_not_run_again() {
    let mut all = tests_of(&[
        ("p", "lib", &["a", "m::b", "c"]),
        ("p", "it", &["a"]),
        ("q", "lib", &["a"]),
    ]);
    let stored = tests_of(&[("p", "lib", &["m::b", "a", "gone"]), ("q", "it", &["a"])]);
    remove_tests_with_lcov(&mut all, &stored);
    assert_eq!(
        names(&all),
        vec![
            ("p".to_owned(), "it".to_owned(), strings(&["a"])),
            ("p".to_owned(), "lib".to_owned(), strings(&["c"])),
            ("q".to_owned(), "lib".to_owned(), strings(&["a"])),
        ]
    );
}
