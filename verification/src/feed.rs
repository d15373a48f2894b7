//! Who feeds the window: a daemon, or a scanner of its own where none runs.

use crate::ipc::Request;
use crate::snapshot::text_of;
use crate::ui::{Command, CommandModel};
use vstd::prelude::*;

verus! {

/// How long to wait between two snapshots, in milliseconds.
pub const REFRESH_MS: u64 = 400;

/// How long to wait after a scanner could not be started, in milliseconds.
pub const RETRY_MS: u64 = 2_000;

/// Where the window gets its snapshots from.
#[derive(Clone, Copy, Debug, PartialEq, Eq, Structural)]
pub enum FeedState {
    /// From nobody yet.
    Seeking,
    /// From a daemon.
    Daemon,
    /// From its own scanner.
    Local,
}

/// What came of the last action.
#[derive(Clone, Copy, Debug, PartialEq, Eq, Structural)]
pub enum FeedEvent {
    /// A daemon took the connection.
    Connected,
    /// No daemon took the connection.
    NoDaemon,
    /// The own scanner runs.
    ScannerReady,
    /// The own scanner could not be started.
    ScannerFailed,
    /// A snapshot was shown.
    Shown,
    /// The daemon gave no snapshot.
    SnapshotFailed,
    /// A daemon was found to run.
    DaemonUp,
    /// No daemon was found to run.
    DaemonDown,
}

/// What is to be done next.
#[derive(Clone, Copy, Debug, PartialEq, Eq, Structural)]
pub enum FeedAction {
    /// Connect to the daemon.
    Connect,
    /// Start the own scanner.
    StartScanner,
    /// Wait, then connect to the daemon.
    WaitThenConnect { ms: u64 },
    /// Wait, pass the commands on, and show a snapshot of the daemon.
    AskDaemon { after_ms: u64 },
    /// Pass the commands on, and show a snapshot of the own scanner.
    AskScanner,
    /// Wait, then look whether a daemon runs.
    Probe { after_ms: u64 },
    /// Stop the own scanner, then connect to the daemon.
    StopScanner,
}

/// The first state, and what is to be done in it.
pub open spec fn feed_first() -> (FeedState, FeedAction) {
    (FeedState::Seeking, FeedAction::Connect)
}

/// The next state, and what is to be done in it. A daemon is preferred: where
/// none answers the own scanner feeds the window until one does. An event that
/// cannot come of what the state waits for leads back to that.
pub open spec fn feed_next(state: FeedState, event: FeedEvent) -> (FeedState, FeedAction) {
    match (state, event) {
        (FeedState::Seeking, FeedEvent::Connected) => (
            FeedState::Daemon,
            FeedAction::AskDaemon { after_ms: 0 },
        ),
        (FeedState::Seeking, FeedEvent::NoDaemon) => (
            FeedState::Seeking,
            FeedAction::StartScanner,
        ),
        (FeedState::Seeking, FeedEvent::ScannerReady) => (
            FeedState::Local,
            FeedAction::AskScanner,
        ),
        (FeedState::Seeking, FeedEvent::ScannerFailed) => (
            FeedState::Seeking,
            FeedAction::WaitThenConnect { ms: RETRY_MS },
        ),
        (FeedState::Seeking, _) => (FeedState::Seeking, FeedAction::Connect),
        (FeedState::Daemon, FeedEvent::SnapshotFailed) => (
            FeedState::Seeking,
            FeedAction::Connect,
        ),
        (FeedState::Daemon, _) => (
            FeedState::Daemon,
            FeedAction::AskDaemon { after_ms: REFRESH_MS },
        ),
        (FeedState::Local, FeedEvent::Shown) => (
            FeedState::Local,
            FeedAction::Probe { after_ms: REFRESH_MS },
        ),
        (FeedState::Local, FeedEvent::DaemonUp) => (
            FeedState::Seeking,
            FeedAction::StopScanner,
        ),
        (FeedState::Local, _) => (FeedState::Local, FeedAction::AskScanner),
    }
}

/// The first state, and what is to be done in it.
pub fn feed_start() -> (r: (FeedState, FeedAction))
    ensures
        r == feed_first(),
{
    (FeedState::Seeking, FeedAction::Connect)
}

/// The next state, and what is to be done in it.
pub fn feed_step(state: FeedState, event: FeedEvent) -> (r: (FeedState, FeedAction))
    ensures
        r == feed_next(state, event),
{
    match state {
        FeedState::Seeking => match event {
            FeedEvent::Connected => (FeedState::Daemon, FeedAction::AskDaemon { after_ms: 0 }),
            FeedEvent::NoDaemon => (FeedState::Seeking, FeedAction::StartScanner),
            FeedEvent::ScannerReady => (FeedState::Local, FeedAction::AskScanner),
            FeedEvent::ScannerFailed => (
                FeedState::Seeking,
                FeedAction::WaitThenConnect { ms: RETRY_MS },
            ),
            _ => (FeedState::Seeking, FeedAction::Connect),
        },
        FeedState::Daemon => match event {
            FeedEvent::SnapshotFailed => (FeedState::Seeking, FeedAction::Connect),
            _ => (FeedState::Daemon, FeedAction::AskDaemon { after_ms: REFRESH_MS }),
        },
        FeedState::Local => match event {
            FeedEvent::Shown => (FeedState::Local, FeedAction::Probe { after_ms: REFRESH_MS }),
            FeedEvent::DaemonUp => (FeedState::Seeking, FeedAction::StopScanner),
            _ => (FeedState::Local, FeedAction::AskScanner),
        },
    }
}

/// Where the commands of the user go.
#[derive(Clone, Copy, Debug, PartialEq, Eq, Structural)]
pub enum Route {
    /// They wait.
    Hold,
    ToDaemon,
    ToScanner,
}

/// Where the commands of the user go: to whoever feeds the window.
pub open spec fn route_of(state: FeedState) -> Route {
    match state {
        FeedState::Seeking => Route::Hold,
        FeedState::Daemon => Route::ToDaemon,
        FeedState::Local => Route::ToScanner,
    }
}

/// Where the commands of the user go.
pub fn command_route(state: FeedState) -> (r: Route)
    ensures
        r == route_of(state),
{
    match state {
        FeedState::Seeking => Route::Hold,
        FeedState::Daemon => Route::ToDaemon,
        FeedState::Local => Route::ToScanner,
    }
}

/// The request that a command makes of whoever feeds the window.
pub fn command_request(command: Command) -> (r: Request)
    ensures
        match command@ {
            CommandModel::Rescan(m) => r matches Request::Rescan { mount } && text_of(mount) == m,
            CommandModel::Expand(p) => r matches Request::Expand { path } && path@ == p,
        },
{
    match command {
        Command::Rescan(mount) => Request::Rescan { mount },
        Command::Expand(path) => Request::Expand { path },
    }
}

/// The state after a list of events.
pub open spec fn fed(state: FeedState, events: Seq<FeedEvent>) -> FeedState
    decreases events.len(),
{
    if events.len() == 0 {
        state
    } else {
        feed_next(fed(state, events.drop_last()), events.last()).0
    }
}

/// Without a daemon the own scanner feeds the window: once no daemon took the
/// connection and the scanner runs, it is asked, and it is asked again and
/// again as long as no daemon is found.
pub proof fn law_own_scanner_feeds(events: Seq<FeedEvent>)
    requires
        forall|i: int|
            0 <= i < events.len() ==> #[trigger] events[i] is Shown || events[i] is DaemonDown,
    ensures
        feed_next(feed_first().0, FeedEvent::NoDaemon) == (
            FeedState::Seeking,
            FeedAction::StartScanner,
        ),
        feed_next(FeedState::Seeking, FeedEvent::ScannerReady) == (
            FeedState::Local,
            FeedAction::AskScanner,
        ),
        fed(FeedState::Local, events) is Local,
        events.len() > 0 && events.last() is DaemonDown ==> feed_next(
            fed(FeedState::Local, events.drop_last()),
            events.last(),
        ).1 is AskScanner,
    decreases events.len(),
{
    if events.len() > 0 {
        let before = events.drop_last();
        assert forall|i: int| 0 <= i < before.len() implies #[trigger] before[i] is Shown
            || before[i] is DaemonDown by {
            assert(events[i] == before[i]);
        }
        law_own_scanner_feeds(before);
        assert(events[events.len() - 1] is Shown || events[events.len() - 1] is DaemonDown);
    }
}

/// A daemon that is found takes over: the own scanner is stopped, and once the
/// daemon takes the connection it feeds the window and gets the commands.
pub proof fn law_daemon_takes_over()
    ensures
        feed_next(FeedState::Local, FeedEvent::DaemonUp) == (
            FeedState::Seeking,
            FeedAction::StopScanner,
        ),
        feed_next(FeedState::Seeking, FeedEvent::Connected) == (
            FeedState::Daemon,
            FeedAction::AskDaemon { after_ms: 0 },
        ),
        route_of(FeedState::Daemon) is ToDaemon,
{
}

/// A daemon that gives no snapshot is left at once: the window looks for one
/// anew, and falls back to its own scanner where there is none.
pub proof fn law_failed_daemon_is_left()
    ensures
        feed_next(FeedState::Daemon, FeedEvent::SnapshotFailed) == feed_first(),
        fed(
            FeedState::Daemon,
            seq![FeedEvent::SnapshotFailed, FeedEvent::NoDaemon, FeedEvent::ScannerReady],
        ) is Local,
{
    let all = seq![FeedEvent::SnapshotFailed, FeedEvent::NoDaemon, FeedEvent::ScannerReady];
    let two = all.drop_last();
    let one = two.drop_last();
    assert(one.drop_last() =~= Seq::<FeedEvent>::empty());
    assert(fed(FeedState::Daemon, one.drop_last()) is Daemon);
    assert(fed(FeedState::Daemon, one) is Seeking);
    assert(fed(FeedState::Daemon, two) is Seeking);
}

} // verus!
