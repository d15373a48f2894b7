use spacemap::feed::{
    command_request, command_route, feed_start, feed_step, FeedAction, FeedEvent, FeedState, Route,
};
use spacemap::ipc::Request;
use spacemap::ui::Command;

fn run(events: &[FeedEvent]) -> (FeedState, FeedAction) {
    let mut at = feed_start();
    for &e in events {
        at = feed_step(at.0, e);
    }
    at
}

#[test]
fn a_daemon_feeds_the_window() {
    assert_eq!(feed_start(), (FeedState::Seeking, FeedAction::Connect));
    assert_eq!(
        run(&[FeedEvent::Connected]),
        (FeedState::Daemon, FeedAction::AskDaemon { after_ms: 0 })
    );
    assert_eq!(
        run(&[FeedEvent::Connected, FeedEvent::Shown]),
        (FeedState::Daemon, FeedAction::AskDaemon { after_ms: 400 })
    );
    assert_eq!(
        run(&[FeedEvent::Connected, FeedEvent::Shown, FeedEvent::SnapshotFailed]),
        (FeedState::Seeking, FeedAction::Connect)
    );
}

#[test]
fn without_a_daemon_the_own_scanner_feeds_the_window() {
    assert_eq!(run(&[FeedEvent::NoDaemon]), (FeedState::Seeking, FeedAction::StartScanner));
    assert_eq!(
        run(&[FeedEvent::NoDaemon, FeedEvent::ScannerFailed]),
        (FeedState::Seeking, FeedAction::WaitThenConnect { ms: 2000 })
    );
    let local = [FeedEvent::NoDaemon, FeedEvent::ScannerReady];
    assert_eq!(run(&local), (FeedState::Local, FeedAction::AskScanner));
    assert_eq!(
        feed_step(FeedState::Local, FeedEvent::Shown),
        (FeedState::Local, FeedAction::Probe { after_ms: 400 })
    );
    assert_eq!(
        feed_step(FeedState::Local, FeedEvent::DaemonDown),
        (FeedState::Local, FeedAction::AskScanner)
    );
    assert_eq!(
        feed_step(FeedState::Local, FeedEvent::DaemonUp),
        (FeedState::Seeking, FeedAction::StopScanner)
    );
}

#[test]
fn commands_go_to_who_feeds_the_window() {
    assert_eq!(command_route(FeedState::Seeking), Route::Hold);
    assert_eq!(command_route(FeedState::Daemon), Route::ToDaemon);
    assert_eq!(command_route(FeedState::Local), Route::ToScanner);
    assert!(matches!(
        command_request(Command::Rescan(Some("/m".into()))),
        Request::Rescan { mount: Some(m) } if m == "/m"
    ));
    assert!(matches!(
        command_request(Command::Rescan(None)),
        Request::Rescan { mount: None }
    ));
    assert!(matches!(
        command_request(Command::Expand("/m/a".into())),
        Request::Expand { path } if path == "/m/a"
    ));
}
