use line_test::failure::{Failure, FailureKind};
use line_test::model::Test;

#[test]
fn a_test_is_named_by_its_segments() {
    let test = Test::parse("tests::module::case");
    assert_eq!(test.0, vec!["tests", "module", "case"]);
    assert_eq!(test.to_string(), "tests::module::case");
    assert_eq!(Test::parse("single").0, vec!["single"]);
}

#[test]
fn taking_a_test_leaves_none_behind() {
    let mut test = Test::parse("a::b");
    let taken = test.take();
    assert_eq!(taken.to_string(), "a::b");
    assert!(test.0.is_empty());
    assert_eq!(test.to_string(), "");
}

#[test]
fn tests_are_the_same_by_their_segments() {
    assert!(Test::parse("a::b").same(&Test::parse("a::b")));
    assert!(!Test::parse("a::b").same(&Test::parse("a::c")));
    assert!(!Test::parse("a::b").same(&Test::parse("a")));
    assert!(Test::parse("a::b").clone().same(&Test(vec!["a".to_owned(), "b".to_owned()])));
}

#[test]
fn tests_are_ordered_by_their_segments() {
    let mut tests = vec![Test::parse("b"), Test::parse("a::z"), Test::parse("a"), Test::parse("a::b")];
    tests.sort();
    let texts: Vec<String> = tests.iter().map(|t| t.to_string()).collect();
    assert_eq!(texts, vec!["a", "a::b", "a::z", "b"]);
}

#[test]
fn every_failure_has_a_kind_and_a_message() {
    let cases = vec![
        (Failure::StoreMissing, FailureKind::Config, "line-test.db does not exist"),
        (Failure::DiffWithStdin, FailureKind::Config, "--diff cannot be used with `--line -`"),
        (Failure::DigestUnknown("p".to_owned()), FailureKind::Path, "no current digest of: p"),
        (Failure::LineSpecification("x".to_owned()), FailureKind::Parse, "malformed line specification: x"),
        (Failure::Diff, FailureKind::Parse, "malformed diff"),
        (Failure::Coverage, FailureKind::Parse, "malformed coverage file"),
        (Failure::DigestFile, FailureKind::Parse, "malformed digest file"),
        (Failure::DigestHex("zz".to_owned()), FailureKind::Parse, "digest is not hexadecimal: zz"),
        (Failure::DigestLength("00".to_owned()), FailureKind::Integrity, "invalid digest: 00"),
        (Failure::SourceFileRepeated("a".to_owned()), FailureKind::Integrity, "source file already given: a"),
        (Failure::SourceFileMissing, FailureKind::Integrity, "source file not given"),
        (Failure::FileName("f".to_owned()), FailureKind::Integrity, "unexpected file name: f"),
        (Failure::CommandFailed("cargo".to_owned()), FailureKind::Process, "command failed: cargo"),
        (Failure::Cancelled, FailureKind::Cancellation, "ctrl-c detected"),
        (Failure::Warning("w".to_owned()), FailureKind::DeniedWarning, "w"),
    ];
    for (failure, kind, message) in cases {
        assert_eq!(failure.kind(), kind);
        assert_eq!(failure.message(), message);
    }
}
