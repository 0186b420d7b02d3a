use line_test::db::Db;
use line_test::failure::{Failure, FailureKind};
use line_test::lines::parse_line_specifications;
use line_test::model::PathDigestMap;
use line_test::paths::{
    check_paths, contains_text, validate_paths, warn_about_paths, PathsNeedingWarning,
};
use line_test::str_map::StrMap;
use line_test::warn::warn;

fn strings(texts: &[&str]) -> Vec<String> {
    texts.iter().map(|t| (*t).to_owned()).collect()
}

fn store(paths: &[&str]) -> Db {
    let mut digests: PathDigestMap = StrMap::new();
    for path in paths {
        digests.insert((*path).to_owned(), [0; 32]);
    }
    Db { package_crate_test_map: StrMap::new(), path_digest_map: digests }
}

#[test]
fn paths_are_sorted_by_what_can_be_done_for_them() {
    let specs = strings(&["src/gone.rs:1", "src/a.rs:2-3", "src/new.rs:4", "src/b.rs:5", "also/gone:1"]);
    let mut asked = parse_line_specifications(&specs).unwrap().0;
    let existing = strings(&["src/b.rs", "src/new.rs", "src/a.rs", "unasked"]);
    let found = validate_paths(&store(&["src/a.rs", "src/b.rs", "src/gone.rs"]), &mut asked, &existing);
    assert_eq!(found.nonexistent, strings(&["also/gone", "src/gone.rs"]));
    assert_eq!(found.uncovered, strings(&["src/new.rs"]));
    let kept: Vec<String> = (0..asked.len()).map(|i| asked.key(i).clone()).collect();
    assert_eq!(kept, strings(&["src/a.rs", "src/b.rs"]));
    assert!(asked.get("src/a.rs").unwrap().contains(3));
}

#[test]
fn paths_are_checked_in_one_go() {
    let db = store(&["src/a.rs"]);
    let existing = strings(&["src/a.rs", "src/new.rs"]);
    let mut asked = parse_line_specifications(&strings(&["src/a.rs:1", "src/new.rs:2"])).unwrap().0;
    assert_eq!(
        check_paths(&db, &mut asked, &existing, false).unwrap(),
        Some("Warning: the following paths are not covered by any test:\n    src/new.rs".to_owned())
    );
    assert_eq!(asked.len(), 1);
    assert_eq!(asked.key(0), "src/a.rs");
    let mut asked = parse_line_specifications(&strings(&["src/a.rs:1", "src/new.rs:2"])).unwrap().0;
    assert!(matches!(check_paths(&db, &mut asked, &existing, true), Err(Failure::Warning(_))));
    let mut asked = parse_line_specifications(&strings(&["src/a.rs:1", "gone:2"])).unwrap().0;
    let failure = check_paths(&db, &mut asked, &existing, false).unwrap_err();
    assert!(matches!(failure, Failure::NonexistentPaths(ref paths) if paths == &strings(&["gone"])));
    let mut asked = parse_line_specifications(&strings(&["src/a.rs:1"])).unwrap().0;
    assert_eq!(check_paths(&db, &mut asked, &existing, true).unwrap(), None);
}

#[test]
fn nonexistent_paths_are_always_a_failure() {
    let found = PathsNeedingWarning { nonexistent: strings(&["x", "y"]), uncovered: strings(&["z"]) };
    let failure = warn_about_paths(found, false).unwrap_err();
    assert!(matches!(failure, Failure::NonexistentPaths(ref paths) if paths == &strings(&["x", "y"])));
    assert_eq!(failure.kind(), FailureKind::Path);
    assert_eq!(failure.message(), "the following paths do not exist:\n    x\n    y");
}

#[test]
fn uncovered_paths_are_a_warning() {
    let found = PathsNeedingWarning { nonexistent: vec![], uncovered: strings(&["z", "w"]) };
    assert_eq!(
        warn_about_paths(found, false).unwrap(),
        Some("Warning: the following paths are not covered by any test:\n    z\n    w".to_owned())
    );
}

#[test]
fn uncovered_paths_are_a_failure_where_warnings_are_denied() {
    let found = PathsNeedingWarning { nonexistent: vec![], uncovered: strings(&["z"]) };
    let failure = warn_about_paths(found, true).unwrap_err();
    assert_eq!(failure.kind(), FailureKind::DeniedWarning);
    assert_eq!(failure.message(), "the following paths are not covered by any test:\n    z");
}

#[test]
fn valid_paths_need_no_word() {
    let found = PathsNeedingWarning { nonexistent: vec![], uncovered: vec![] };
    assert_eq!(warn_about_paths(found, true).unwrap(), None);
}

#[test]
fn a_warning_is_shown_or_denied() {
    assert_eq!(warn("careful", false).unwrap(), "Warning: careful");
    assert!(matches!(warn("careful", true), Err(Failure::Warning(ref m)) if m == "careful"));
}

#[test]
fn a_list_holds_a_text_or_not() {
    assert!(contains_text(&strings(&["a", "b"]), "b"));
    assert!(!contains_text(&strings(&["a", "b"]), "c"));
    assert!(!contains_text(&vec![], ""));
}
