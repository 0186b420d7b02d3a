use line_test::diff::{is_diff_text_safe, path_lines_from_diff, read_diff, DiffFile};
use line_test::failure::{Failure, FailureKind};
use line_test::model::PathLineMap;

fn entries(map: &PathLineMap) -> Vec<(String, Vec<(u32, u32)>)> {
    (0..map.len())
        .map(|i| {
            let ranges = map.value(i).clone().into_ranges();
            (map.key(i).clone(), ranges.into_iter().map(|r| (r.start, r.end)).collect())
        })
        .collect()
}

fn file(source: &str, hunks: &[(usize, usize)]) -> DiffFile {
    DiffFile { source_file: source.to_owned(), hunks: hunks.to_vec() }
}

const DIFF: &str = "\
diff --git a/src/a.rs b/src/a.rs
index 0000000..9b710f3 100644
--- a/src/a.rs
+++ b/src/a.rs
@@ -3,4 +3,3 @@ fn main() {
 context
-removed one
-removed two
+added
 context
@@ -20,0 +19,2 @@
+only
+added
diff --git a/added b/added
new file mode 100644
--- /dev/null
+++ b/added
@@ -0,0 +1,2 @@
+This was missing!
+Adding it now.
diff --git a/src/b.rs b/src/b.rs
--- a/src/b.rs
+++ b/src/b.rs
@@ -7 +7 @@
-old
+new
";

#[test]
fn a_diff_asks_for_the_lines_it_replaces() {
    let map = read_diff(DIFF).unwrap();
    assert_eq!(
        entries(&map),
        vec![("src/a.rs".to_owned(), vec![(3, 7)]), ("src/b.rs".to_owned(), vec![(7, 8)])]
    );
}

#[test]
fn an_empty_diff_asks_for_nothing() {
    assert!(read_diff("").unwrap().is_empty());
    assert!(read_diff("no diff at all\n").unwrap().is_empty());
}

#[test]
fn a_hunk_outside_a_file_is_a_parse_failure() {
    let failure = read_diff("@@ -1,2 +1,2 @@\n-a\n+b\n").unwrap_err();
    assert!(matches!(failure, Failure::Diff));
    assert_eq!(failure.kind(), FailureKind::Parse);
}

#[test]
fn a_text_that_the_parser_cannot_take_is_refused() {
    assert!(!is_diff_text_safe("+++ b/x\n"));
    assert!(!is_diff_text_safe("--- \t\n+++ b/x\n"));
    assert!(!is_diff_text_safe("--- a/x\n+++ b/x\n@@ -99999999999999999999999,1 +1 @@\n"));
    assert!(!is_diff_text_safe("--- a/x\n+++ b/x\n@@ -٣,1 +1 @@\n"));
    assert!(is_diff_text_safe(DIFF));
    assert!(is_diff_text_safe("--- a/x\n+++ b/x\n@@ -1,2 +1,2 @@ fn größe()\n"));
    for text in ["+++ b/x\n", "--- a/x\n+++ b/x\n@@ -99999999999999999999999,1 +1 @@\n-a\n"] {
        assert!(matches!(read_diff(text), Err(Failure::Diff)), "{:?}", text);
    }
}

#[test]
fn line_numbers_up_to_the_greatest_are_read() {
    let text = "--- a/x\n+++ b/x\n@@ -4294967294 +4294967294 @@\n-old\n+new\n";
    let map = read_diff(text).unwrap();
    assert_eq!(entries(&map), vec![("x".to_owned(), vec![(4294967294, 4294967295)])]);
    let text = "--- a/x\n+++ b/x\n@@ -4294967295 +4294967295 @@\n-old\n+new\n";
    assert!(matches!(read_diff(text), Err(Failure::Diff)));
    let text = "--- a/x\n+++ b/x\n@@ -0000000000000000000000000007 +7 @@\n-old\n+new\n";
    assert_eq!(entries(&read_diff(text).unwrap()), vec![("x".to_owned(), vec![(7, 8)])]);
}

#[test]
fn hunks_give_the_lines_of_the_old_file() {
    let files = vec![
        file("a/x.rs", &[(10, 3), (20, 0), (13, 2), (40, 1)]),
        file("/dev/null", &[(0, 0)]),
        file("a/w.rs", &[]),
        file("a/x.rs", &[(41, 1)]),
    ];
    let map = path_lines_from_diff(&files).unwrap();
    assert_eq!(
        entries(&map),
        vec![("w.rs".to_owned(), vec![]), ("x.rs".to_owned(), vec![(10, 15), (40, 42)])]
    );
}

#[test]
fn an_old_file_has_to_begin_with_its_mark() {
    assert!(matches!(path_lines_from_diff(&vec![file("x.rs", &[(1, 1)])]), Err(Failure::Diff)));
    assert!(matches!(path_lines_from_diff(&vec![file("b/x.rs", &[])]), Err(Failure::Diff)));
}

#[test]
fn line_numbers_have_to_fit() {
    let max = u32::MAX as usize;
    let map = path_lines_from_diff(&vec![file("a/x", &[(max - 1, 1)])]).unwrap();
    assert_eq!(entries(&map), vec![("x".to_owned(), vec![(u32::MAX - 1, u32::MAX)])]);
    assert!(path_lines_from_diff(&vec![file("a/x", &[(max, 1)])]).is_err());
    assert!(path_lines_from_diff(&vec![file("a/x", &[(usize::MAX, 1)])]).is_err());
    assert!(path_lines_from_diff(&vec![file("a/x", &[(usize::MAX, 0)])]).is_ok());
}
