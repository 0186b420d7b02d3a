use line_test::restorer::{FsAction, Restorer};

fn shown(action: &FsAction) -> String {
    match action {
        FsAction::Rename { from, to } => format!("mv {} {}", from, to),
        FsAction::RemoveDirAll(path) => format!("rm -r {}", path),
    }
}

#[test]
fn the_store_is_moved_into_the_temporary_directory() {
    let (_, action) = Restorer::new("/w/line-test.db".to_owned(), "/w/.tmpAbC", "line-test.db");
    assert_eq!(shown(&action), "mv /w/line-test.db /w/.tmpAbC/line-test.db");
}

#[test]
fn an_armed_guard_puts_the_store_back() {
    let (guard, _) = Restorer::new("/w/line-test.db".to_owned(), "/w/.tmpAbC", "line-test.db");
    let actions: Vec<String> = guard.release().iter().map(shown).collect();
    assert_eq!(
        actions,
        vec!["rm -r /w/line-test.db", "mv /w/.tmpAbC/line-test.db /w/line-test.db"]
    );
}

#[test]
fn a_disarmed_guard_does_nothing() {
    let (mut guard, _) = Restorer::new("/w/line-test.db".to_owned(), "/w/.tmpAbC", "line-test.db");
    guard.disable();
    assert!(guard.release().is_empty());
}
