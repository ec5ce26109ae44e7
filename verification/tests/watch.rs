use mikke::watch::{interesting, watch_step, WatchAction, WatchInput, WatchPhase, DEBOUNCE_SECS};

fn v(p: &[&str]) -> Vec<String> {
    p.iter().map(|s| s.to_string()).collect()
}

#[test]
fn watcher_errors_are_interesting() {
    assert!(interesting(None));
}

#[test]
fn hidden_files_are_not_interesting() {
    assert!(!interesting(Some(&v(&["/home/x/.notes.md.swp"]))));
    assert!(!interesting(Some(&v(&[]))));
    assert!(!interesting(Some(&v(&["/"]))));
    assert!(interesting(Some(&v(&["/home/x/.lock", "/home/x/notes.md"]))));
    assert!(interesting(Some(&v(&["/home/x/.cache/notes.md"]))));
}

#[test]
fn bursts_are_debounced() {
    let (p, a) = watch_step(WatchPhase::Idle, WatchInput::Event { relevant: false });
    assert_eq!((p, a), (WatchPhase::Idle, WatchAction::Wait));
    let (p, a) = watch_step(p, WatchInput::Event { relevant: true });
    assert_eq!((p, a), (WatchPhase::Settling, WatchAction::WaitQuiet));
    let (p, a) = watch_step(p, WatchInput::Event { relevant: false });
    assert_eq!((p, a), (WatchPhase::Settling, WatchAction::WaitQuiet));
    let (p, a) = watch_step(p, WatchInput::Quiet);
    assert_eq!((p, a), (WatchPhase::Idle, WatchAction::Reindex));
    let (_, a) = watch_step(p, WatchInput::Closed);
    assert_eq!(a, WatchAction::Stop);
    assert_eq!(DEBOUNCE_SECS, 2);
}
