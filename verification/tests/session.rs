use cargo_storage::path::FsPath;
use cargo_storage::scan::discover::ScanEvent;
use cargo_storage::scan::measure::Measurement;
use cargo_storage::session::{check_root, frame_budget_ms, Action, Flow, Session, Update};

fn measured(size: u64) -> ScanEvent {
    ScanEvent::Measured(Measurement {
        target_dir: FsPath::from_text("/p/target"),
        size,
        last_modified: None,
    })
}

#[test]
fn progress_updates_what_is_shown_until_the_end() {
    let mut session = Session::new();
    let updates = session.take_in(vec![ScanEvent::Discovered(vec![]), measured(3)]);
    assert_eq!(updates.len(), 2);
    assert!(matches!(&updates[0], Update::SetDiscovered(rows) if rows.is_empty()));
    assert!(matches!(&updates[1], Update::ApplyMeasurement(m) if m.size == 3));
    assert!(session.receiving);
    let updates = session.take_in(vec![measured(4), ScanEvent::Done { build_cache: None }]);
    assert!(matches!(&updates[1], Update::FinishScan(None)));
    assert!(!session.receiving);
    assert!(session.take_in(vec![]).is_empty());
    assert!(!session.receiving);
}

#[test]
fn keys_lead_on_out_or_to_a_new_scan() {
    let mut session = Session { receiving: false };
    assert_eq!(session.follow(Action::Continue), Flow::Stay);
    assert!(!session.receiving);
    assert_eq!(session.follow(Action::Rescan), Flow::StartScan);
    assert!(session.receiving);
    assert_eq!(session.follow(Action::Quit), Flow::Leave);
}

#[test]
fn frames_are_short_while_something_happens() {
    assert_eq!(frame_budget_ms(true, false), 16);
    assert_eq!(frame_budget_ms(false, true), 16);
    assert_eq!(frame_budget_ms(false, false), 100);
}

#[test]
fn roots_have_to_be_directories() {
    let root = FsPath::from_text("/no/dir");
    assert_eq!(check_root(&root, true), Ok(()));
    assert_eq!(
        check_root(&root, false),
        Err("scan root is not a directory: /no/dir".to_string())
    );
}
