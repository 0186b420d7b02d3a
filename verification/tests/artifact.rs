use line_test::artifact::{
    collect_paths, coverage_from_entries, ingest_lcov_paths, read_lcov, Entry,
};
use line_test::failure::{Failure, FailureKind};
use line_test::model::PathCoverageMap;
use line_test::str_map::StrMap;

fn files(map: &PathCoverageMap) -> Vec<(String, Vec<u32>)> {
    (0..map.len()).map(|i| (map.key(i).clone(), map.value(i).clone())).collect()
}

fn source(path: &str) -> Entry {
    Entry::SourceFile { path: path.to_owned() }
}

fn line(line: u32, count: u64) -> Entry {
    Entry::LineData { line, count }
}

const ARTIFACT: &str = "\
TN:test_name
SF:/work/src/b.rs
FN:1,main
FNDA:1,main
DA:1,2
DA:3,0
DA:5,6
LF:3
LH:2
end_of_record
SF:/work/src/a.rs
DA:7,1,checksum
BRDA:7,0,0,-
end_of_record
";

#[test]
fn an_artifact_is_read_into_a_record() {
    let map = read_lcov(&ARTIFACT.as_bytes().to_vec(), "/work").unwrap();
    assert_eq!(
        files(&map),
        vec![("src/a.rs".to_owned(), vec![7]), ("src/b.rs".to_owned(), vec![1, 5])]
    );
}

#[test]
fn an_empty_artifact_is_an_empty_record() {
    assert!(read_lcov(&vec![], "/work").unwrap().is_empty());
}

#[test]
fn an_artifact_that_is_no_record_stream_is_a_parse_failure() {
    for text in ["FOO:1,2\n", "DA:x,1\n", "SF:/work/a.rs\nDA:1\nend_of_record\n", "LF:1,2\n"] {
        let failure = read_lcov(&text.as_bytes().to_vec(), "/work").unwrap_err();
        assert!(matches!(failure, Failure::Coverage), "{:?}", text);
        assert_eq!(failure.kind(), FailureKind::Parse);
    }
    assert!(matches!(read_lcov(&vec![0xff, 0xfe, b'\n'], "/work"), Err(Failure::Coverage)));
}

#[test]
fn lines_with_a_count_of_zero_did_not_run() {
    let entries = vec![source("/w/a.rs"), line(1, 0), line(2, 3), line(3, 0), Entry::EndOfRecord];
    let map = coverage_from_entries(&entries, "/w").unwrap();
    assert_eq!(files(&map), vec![("a.rs".to_owned(), vec![2])]);
    let entries = vec![source("/w/a.rs"), line(1, 0), Entry::EndOfRecord];
    let map = coverage_from_entries(&entries, "/w").unwrap();
    assert_eq!(files(&map), vec![("a.rs".to_owned(), vec![])]);
}

#[test]
fn other_records_are_passed_over() {
    let entries = vec![Entry::Other, source("/w/a.rs"), Entry::Other, line(4, 1), Entry::EndOfRecord, Entry::Other];
    let map = coverage_from_entries(&entries, "/w").unwrap();
    assert_eq!(files(&map), vec![("a.rs".to_owned(), vec![4])]);
}

#[test]
fn a_section_left_open_does_not_count() {
    let entries = vec![source("/w/a.rs"), line(4, 1), Entry::EndOfRecord, source("/w/b.rs"), line(1, 1)];
    let map = coverage_from_entries(&entries, "/w").unwrap();
    assert_eq!(files(&map), vec![("a.rs".to_owned(), vec![4])]);
}

#[test]
fn a_source_file_named_twice_is_an_integrity_failure() {
    let entries = vec![source("/w/a.rs"), source("/w/b.rs"), Entry::EndOfRecord];
    let failure = coverage_from_entries(&entries, "/w").unwrap_err();
    assert!(matches!(failure, Failure::SourceFileRepeated(_)));
    assert_eq!(failure.kind(), FailureKind::Integrity);
    let entries = vec![source("/w/a.rs"), Entry::EndOfRecord, source("/w/a.rs"), Entry::EndOfRecord];
    assert!(matches!(coverage_from_entries(&entries, "/w"), Err(Failure::SourceFileRepeated(_))));
}

#[test]
fn a_source_file_in_an_open_section_is_an_integrity_failure_wherever_it_lies() {
    let entries = vec![source("/w/a.rs"), line(1, 1), source("/elsewhere/b.rs"), Entry::EndOfRecord];
    let failure = coverage_from_entries(&entries, "/w").unwrap_err();
    assert!(matches!(failure, Failure::SourceFileRepeated(ref open) if open == "a.rs"));
    assert_eq!(failure.kind(), FailureKind::Integrity);
    let text = "SF:/w/a.rs\nSF:/elsewhere/b.rs\nend_of_record\n";
    let failure = read_lcov(&text.as_bytes().to_vec(), "/w").unwrap_err();
    assert_eq!(failure.kind(), FailureKind::Integrity);
}

#[test]
fn an_artifact_of_many_bytes_and_few_lines_is_read() {
    let mut text = String::from("SF:/w/");
    text.push_str(&"a".repeat(70000));
    text.push_str("\nDA:1,1\nend_of_record\n");
    let map = read_lcov(&text.into_bytes(), "/w").unwrap();
    assert_eq!(map.len(), 1);
    assert!(line_test::artifact::is_countable(&vec![b'\n'; 1000]));
}

#[test]
fn a_section_without_source_file_is_an_integrity_failure() {
    let failure = coverage_from_entries(&vec![Entry::EndOfRecord], "/w").unwrap_err();
    assert!(matches!(failure, Failure::SourceFileMissing));
    assert_eq!(failure.kind(), FailureKind::Integrity);
    let entries = vec![line(1, 1), source("/w/a.rs"), Entry::EndOfRecord];
    assert!(matches!(coverage_from_entries(&entries, "/w"), Err(Failure::SourceFileMissing)));
    let entries = vec![source("/w/a.rs"), Entry::EndOfRecord, line(1, 0)];
    assert!(matches!(coverage_from_entries(&entries, "/w"), Err(Failure::SourceFileMissing)));
}

#[test]
fn a_source_file_outside_the_working_directory_is_a_failure() {
    let entries = vec![source("/elsewhere/a.rs"), Entry::EndOfRecord];
    let failure = coverage_from_entries(&entries, "/w").unwrap_err();
    assert!(matches!(failure, Failure::OutsideWorkingDirectory(ref p) if p == "/elsewhere/a.rs"));
    assert_eq!(failure.kind(), FailureKind::Path);
    let entries = vec![source("/work2/a.rs"), Entry::EndOfRecord];
    assert!(coverage_from_entries(&entries, "/work").is_err());
}

#[test]
fn paths_are_made_relative_component_by_component() {
    let entries = vec![source("/w//sub/./a.rs"), Entry::EndOfRecord];
    let map = coverage_from_entries(&entries, "/w/").unwrap();
    assert_eq!(files(&map), vec![("sub/./a.rs".to_owned(), vec![])]);
    let entries = vec![source("/w/sub/a.rs"), Entry::EndOfRecord];
    let map = coverage_from_entries(&entries, "/w//").unwrap();
    assert_eq!(files(&map), vec![("sub/a.rs".to_owned(), vec![])]);
}

#[test]
fn source_paths_are_gathered_once_each() {
    let mut paths: StrMap<()> = StrMap::new();
    let entries = vec![source("/w/b.rs"), line(1, 1), source("/w/a.rs"), source("/w/b.rs")];
    ingest_lcov_paths(&mut paths, &entries, "/w").unwrap();
    assert_eq!(paths.into_keys(), vec!["a.rs", "b.rs"]);
    let mut paths: StrMap<()> = StrMap::new();
    assert!(ingest_lcov_paths(&mut paths, &vec![source("/x/b.rs")], "/w").is_err());
}

#[test]
fn the_paths_of_all_artifacts_are_collected() {
    let other = "SF:/work/src/c.rs\nend_of_record\nSF:/work/src/a.rs\nend_of_record\n";
    let artifacts = vec![ARTIFACT.as_bytes().to_vec(), other.as_bytes().to_vec()];
    assert_eq!(collect_paths(&artifacts, "/work").unwrap(), vec!["src/a.rs", "src/b.rs", "src/c.rs"]);
    assert_eq!(collect_paths(&vec![], "/work").unwrap(), Vec::<String>::new());
    assert!(collect_paths(&vec![b"FOO\n".to_vec()], "/work").is_err());
    assert!(collect_paths(&artifacts, "/other").is_err());
}
