use visual_git::watch::{watcher_step, WatchAction, WatchEvent, DEBOUNCE_MS};

#[test]
fn changes_refresh_errors_are_logged_and_closing_stops() {
    assert!(matches!(watcher_step(WatchEvent::Changed), WatchAction::Refresh));
    match watcher_step(WatchEvent::Failed("inotify limit".to_string())) {
        WatchAction::Log(m) => assert_eq!(m, "watch error: inotify limit"),
        _ => panic!("expected a log message"),
    }
    assert!(matches!(watcher_step(WatchEvent::Closed), WatchAction::Stop));
    assert_eq!(DEBOUNCE_MS, 75);
}
