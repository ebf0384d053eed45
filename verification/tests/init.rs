use forge::init::{init_outcome, should_write, InitOutcome};

#[test]
fn existing_files_are_kept_unless_forced() {
    assert!(should_write(false, false));
    assert!(should_write(false, true));
    assert!(should_write(true, true));
    assert!(!should_write(true, false));
}

#[test]
fn init_report() {
    assert_eq!(init_outcome(0, 0), InitOutcome::NoFiles);
    assert_eq!(init_outcome(0, 6), InitOutcome::AllExisted { skipped: 6 });
    assert_eq!(init_outcome(6, 0), InitOutcome::Initialized { written: 6 });
    assert_eq!(init_outcome(2, 4), InitOutcome::Initialized { written: 2 });
}
