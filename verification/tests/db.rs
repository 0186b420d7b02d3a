use line_test::db::{
    file_stem_utf8, read, read_coverage_map, read_crate_dir, read_package_crate_test_map, CrateDir,
    PackageDir,
};
use line_test::failure::{Failure, FailureKind};
use line_test::model::{PackageCrateMap, Test};
use line_test::str_map::StrMap;

const EMPTY: &str = "e3b0c44298fc1c149afbf4c8996fb92427ae41e4649b934ca495991b7852b855";

fn strings(texts: &[&str]) -> Vec<String> {
    texts.iter().map(|t| (*t).to_owned()).collect()
}

fn names(map: &PackageCrateMap<Vec<Test>>) -> Vec<(String, String, Vec<String>)> {
    let mut out = vec![];
    for i in 0..map.len() {
        let crates = map.value(i);
        for j in 0..crates.len() {
            out.push((
                map.key(i).clone(),
                crates.key(j).clone(),
                crates.value(j).iter().map(|t| t.to_string()).collect(),
            ));
        }
    }
    out
}

fn listing() -> Vec<PackageDir> {
    vec![
        PackageDir {
            name: "pkg-b".to_owned(),
            crates: vec![CrateDir { name: "lib".to_owned(), files: strings(&["tests::two.lcov", "one.lcov"]) }],
        },
        PackageDir {
            name: "pkg-a".to_owned(),
            crates: vec![
                CrateDir { name: "it".to_owned(), files: strings(&[]) },
                CrateDir { name: "bin:tool".to_owned(), files: strings(&["a::b::c.lcov"]) },
            ],
        },
    ]
}

#[test]
fn the_stem_is_what_stands_before_the_extension() {
    assert_eq!(file_stem_utf8("a::b.lcov", Some("lcov")).unwrap(), "a::b");
    assert_eq!(file_stem_utf8("a.b.lcov", Some("lcov")).unwrap(), "a.b");
    assert_eq!(file_stem_utf8("lib", None).unwrap(), "lib");
    assert_eq!(file_stem_utf8(".hidden", None).unwrap(), ".hidden");
    assert!(file_stem_utf8("..", None).is_err());
    assert!(file_stem_utf8(".", None).is_err());
    assert_eq!(file_stem_utf8("a.", Some("")).unwrap(), "a");
}

#[test]
fn the_stem_agrees_with_the_standard_library() {
    for name in ["a", "a.b", "a.b.c", ".a", ".a.b", "a.", ".", "..", "...", "a..b", "::.lcov"] {
        let path = std::path::Path::new(name);
        let extension = path.extension().map(|e| e.to_str().unwrap().to_owned());
        let stem = path.file_stem().map(|s| s.to_str().unwrap().to_owned());
        assert_eq!(file_stem_utf8(name, extension.as_deref()).ok(), stem, "{:?}", name);
    }
}

#[test]
fn another_extension_than_the_expected_is_an_integrity_failure() {
    for (name, expected) in [
        ("a.txt", Some("lcov")),
        ("a", Some("lcov")),
        ("a.lcov", None),
        (".lcov", Some("lcov")),
        ("", None),
        ("a.lcov.", Some("lcov")),
    ] {
        let failure = file_stem_utf8(name, expected).unwrap_err();
        assert!(matches!(failure, Failure::FileName(ref n) if n == name), "{:?}", name);
        assert_eq!(failure.kind(), FailureKind::Integrity);
    }
}

#[test]
fn tests_are_read_off_the_file_names() {
    let tests = read_crate_dir(&strings(&["m::t.lcov", "t.lcov"])).unwrap();
    let texts: Vec<String> = tests.iter().map(|t| t.to_string()).collect();
    assert_eq!(texts, vec!["m::t", "t"]);
    assert_eq!(tests[0].0, vec!["m", "t"]);
    assert!(read_crate_dir(&strings(&["m::t.lcov", "README.txt"])).is_err());
}

#[test]
fn the_store_is_read_off_its_directories() {
    let map = read_package_crate_test_map(&listing()).unwrap();
    assert_eq!(
        names(&map),
        vec![
            ("pkg-a".to_owned(), "bin:tool".to_owned(), vec!["a::b::c".to_owned()]),
            ("pkg-a".to_owned(), "it".to_owned(), vec![]),
            ("pkg-b".to_owned(), "lib".to_owned(), vec!["tests::two".to_owned(), "one".to_owned()]),
        ]
    );
    assert!(read_package_crate_test_map(&vec![]).unwrap().is_empty());
}

#[test]
fn a_directory_with_an_extension_is_a_failure() {
    let packages = vec![PackageDir { name: "pkg.d".to_owned(), crates: vec![] }];
    assert!(matches!(read_package_crate_test_map(&packages), Err(Failure::FileName(_))));
    let packages = vec![PackageDir {
        name: "pkg".to_owned(),
        crates: vec![CrateDir { name: "lib.rs".to_owned(), files: vec![] }],
    }];
    assert!(matches!(read_package_crate_test_map(&packages), Err(Failure::FileName(_))));
}

#[test]
fn a_store_is_read_with_its_digests() {
    let json = format!("{{\"src/a.rs\": \"{}\"}}", EMPTY);
    let db = read(&listing(), &json).unwrap();
    assert_eq!(names(&db.package_crate_test_map).len(), 3);
    assert_eq!(db.path_digest_map.len(), 1);
    assert!(db.path_digest_map.contains_key("src/a.rs"));
    assert!(matches!(read(&listing(), "{"), Err(Failure::DigestFile)));
    assert!(matches!(read(&listing(), "{\"a\": \"00\"}"), Err(Failure::DigestLength(_))));
    let packages = vec![PackageDir { name: "".to_owned(), crates: vec![] }];
    assert!(matches!(read(&packages, &json), Err(Failure::FileName(_))));
}

fn artifacts(entries: &[(&str, &str, &[&str])]) -> PackageCrateMap<Vec<Vec<u8>>> {
    let mut map: PackageCrateMap<Vec<Vec<u8>>> = StrMap::new();
    for (package, krate, texts) in entries {
        let mut crates = map.remove(package).unwrap_or_else(StrMap::new);
        crates.insert((*krate).to_owned(), texts.iter().map(|t| t.as_bytes().to_vec()).collect());
        map.insert((*package).to_owned(), crates);
    }
    map
}

#[test]
fn the_coverage_of_each_test_is_read_from_its_artifact() {
    let db = read(&listing(), "{}").unwrap();
    let artifacts = artifacts(&[
        ("pkg-b", "lib", &["SF:/w/src/a.rs\nDA:1,1\nend_of_record\n", ""]),
        ("pkg-a", "it", &[]),
        ("pkg-a", "bin:tool", &["SF:/w/src/b.rs\nDA:2,0\nDA:3,4\nend_of_record\n"]),
    ]);
    let coverage = db.coverage_map(&artifacts, "/w").unwrap();
    assert_eq!(coverage.len(), 2);
    let tool = coverage.value(0).value(0);
    assert_eq!(tool.len(), 1);
    assert_eq!(tool[0].test.to_string(), "a::b::c");
    assert_eq!(tool[0].coverage.get("src/b.rs"), Some(&vec![3]));
    let lib = coverage.value(1).value(0);
    assert_eq!(lib[0].test.to_string(), "tests::two");
    assert_eq!(lib[0].coverage.get("src/a.rs"), Some(&vec![1]));
    assert!(lib[1].coverage.is_empty());
}

#[test]
fn a_missing_or_malformed_artifact_is_a_failure() {
    let db = read(&listing(), "{}").unwrap();
    let missing = artifacts(&[
        ("pkg-b", "lib", &[""]),
        ("pkg-a", "it", &[]),
        ("pkg-a", "bin:tool", &[""]),
    ]);
    assert!(matches!(db.coverage_map(&missing, "/w"), Err(Failure::Coverage)));
    let no_crate = artifacts(&[("pkg-b", "lib", &["", ""]), ("pkg-a", "bin:tool", &[""])]);
    assert!(read_coverage_map(&db.package_crate_test_map, &no_crate, "/w").is_err());
    let malformed = artifacts(&[
        ("pkg-b", "lib", &["", "nonsense\n"]),
        ("pkg-a", "it", &[]),
        ("pkg-a", "bin:tool", &[""]),
    ]);
    assert!(matches!(db.coverage_map(&malformed, "/w"), Err(Failure::Coverage)));
    let flawed = artifacts(&[
        ("pkg-b", "lib", &["", "end_of_record\n"]),
        ("pkg-a", "it", &[]),
        ("pkg-a", "bin:tool", &[""]),
    ]);
    assert!(matches!(db.coverage_map(&flawed, "/w"), Err(Failure::Coverage)));
}

#[test]
fn an_artifact_written_by_a_run_is_read_back_as_its_test() {
    let mut crates: StrMap<Vec<Test>> = StrMap::new();
    crates.insert("lib".to_owned(), vec![Test::parse("tests::module::case"), Test::parse("top")]);
    let mut map: PackageCrateMap<Vec<Test>> = StrMap::new();
    map.insert("pkg".to_owned(), crates);
    let opts = line_test::opts::Opts {
        build: true,
        deny_warnings: false,
        diff: false,
        lines: vec![],
        missing_only: false,
        no_run: false,
        refresh: false,
        show_commands: false,
        verbose: false,
        zero_coverage: false,
        zzargs: vec![],
    };
    let plan = line_test::run::run_tests(&map, true, &opts);
    let mut files = vec![];
    for step in &plan.steps {
        if let line_test::run::Step::Run(run) = step {
            let path = run.output_path.clone().unwrap();
            assert!(path.starts_with("line-test.db/packages/pkg/lib/"));
            files.push(path["line-test.db/packages/pkg/lib/".len()..].to_owned());
        }
    }
    assert_eq!(files, strings(&["tests::module::case.lcov", "top.lcov"]));
    let tests = read_crate_dir(&files).unwrap();
    assert_eq!(tests.len(), 2);
    assert!(tests[0].same(&Test::parse("tests::module::case")));
    assert!(tests[1].same(&Test::parse("top")));
}

#[test]
fn a_store_without_packages_holds_no_test() {
    assert!(line_test::db::stored_tests(None).unwrap().is_empty());
    let listing = listing();
    assert_eq!(names(&line_test::db::stored_tests(Some(&listing)).unwrap()).len(), 3);
    assert_eq!(line_test::db::store_dir(), "line-test.db");
    assert_eq!(line_test::db::packages_dir(), "line-test.db/packages");
    assert_eq!(line_test::db::digests_path(), "line-test.db/digests.json");
}
