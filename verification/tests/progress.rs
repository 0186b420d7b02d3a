use line_test::progress::{padded_left, padded_right, Progress};

#[test]
fn the_line_shows_step_total_and_percentage() {
    let mut progress = Progress::new(12);
    assert_eq!(progress.advance("first"), " 0/12  (0%) first\r");
    assert_eq!(progress.advance("2nd"), " 1/12  (8%) 2nd  \r");
    assert_eq!(progress.advance("third one"), " 2/12 (16%) third one\r");
}

#[test]
fn a_shorter_line_blanks_out_the_rest_of_a_longer_one() {
    let mut progress = Progress::new(3);
    assert_eq!(progress.advance("a long message"), "0/3  (0%) a long message\r");
    assert_eq!(progress.advance("short"), "1/3 (33%) short         \r");
    assert_eq!(progress.advance(""), "2/3 (66%)      \r");
    assert_eq!(progress.finish(), "3/3 (100%) \r\n");
}

#[test]
fn progress_over_nothing_is_complete() {
    let mut progress = Progress::new(0);
    assert_eq!(progress.finish(), "0/0 (100%) \r\n");
}

#[test]
fn a_newline_is_owed_after_a_line_was_drawn() {
    let mut progress = Progress::new(2);
    assert!(!progress.newline());
    progress.advance("x");
    assert!(progress.newline());
    assert!(!progress.newline());
    progress.advance("y");
    progress.finish();
    assert!(!progress.newline());
}

#[test]
fn texts_are_padded_to_a_width() {
    assert_eq!(padded_left("7", 3), "  7");
    assert_eq!(padded_left("1234", 3), "1234");
    assert_eq!(padded_right("ab", 4), "ab  ");
    assert_eq!(padded_right("abcd", 4), "abcd");
    assert_eq!(padded_right("é", 3), "é  ");
}
