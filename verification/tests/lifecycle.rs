use mikufans_bvc_server::idle::IdleHandler;
use mikufans_bvc_server::err::Error;
use mikufans_bvc_server::session::decode_error_recoverable;
use mikufans_bvc_server::session::process_step;
use mikufans_bvc_server::session::wait_step;
use mikufans_bvc_server::session::ProcessOutcome;
use mikufans_bvc_server::session::SessionState;
use mikufans_bvc_server::session::WaitEvent;

const MAX_IDLE_MS: u64 = 15_000;

#[test]
fn idle_tracker_guard_cycle() {
    let mut h = IdleHandler::new(1_000);
    assert_eq!(h.idle_since, Some(1_000));
    h.idle_guard();
    assert_eq!(h.idle_since, None);
    h.release_guard(4_000);
    assert_eq!(h.idle_since, Some(4_000));
    assert!(h.idle_since.unwrap() >= 4_000);
}

#[test]
fn idle_tracker_expiry_threshold() {
    let h = IdleHandler::new(0);
    assert!(!h.is_expired(MAX_IDLE_MS, MAX_IDLE_MS));
    assert!(h.is_expired(MAX_IDLE_MS + 1, MAX_IDLE_MS));
    assert!(h.is_expired(MAX_IDLE_MS + 60_000, MAX_IDLE_MS));
}

#[test]
fn idle_tracker_never_expires_while_active() {
    let mut h = IdleHandler::new(0);
    h.idle_guard();
    assert!(!h.is_expired(u64::MAX, MAX_IDLE_MS));
}

#[test]
fn session_wait_transitions() {
    assert_eq!(wait_step(SessionState::WaitingForData, WaitEvent::DataArrived), SessionState::Processing);
    assert_eq!(wait_step(SessionState::WaitingForData, WaitEvent::PeerClosed), SessionState::Closed);
    assert_eq!(wait_step(SessionState::WaitingForData, WaitEvent::ShutdownSignal), SessionState::Closed);
}

#[test]
fn session_process_transitions() {
    assert_eq!(process_step(SessionState::Processing, ProcessOutcome::Served), SessionState::WaitingForData);
    assert_eq!(process_step(SessionState::Processing, ProcessOutcome::NoRequest), SessionState::Closed);
    assert_eq!(process_step(SessionState::Processing, ProcessOutcome::StreamFailed), SessionState::Closed);
    assert_eq!(process_step(SessionState::Processing, ProcessOutcome::BadRequestSent), SessionState::WaitingForData);
    assert_eq!(process_step(SessionState::Processing, ProcessOutcome::BadRequestSendFailed), SessionState::Closed);
}

#[test]
fn decode_error_policy() {
    assert!(decode_error_recoverable(Error::RequestLineMalformed));
    assert!(decode_error_recoverable(Error::RequestMethodInvalid));
    assert!(decode_error_recoverable(Error::RequestTargetInvalid));
    assert!(decode_error_recoverable(Error::HttpVersionUnsupported));
    assert!(decode_error_recoverable(Error::HeaderMalformed));
    assert!(!decode_error_recoverable(Error::StreamIoFailure));
}

/// One request is served, then nothing arrives past the idle timeout: the
/// watchdog's signal closes the connection without any further response.
#[test]
fn idle_connection_times_out_after_one_request() {
    let mut tracker = IdleHandler::new(0);
    let mut state = SessionState::WaitingForData;
    let mut responses_written: usize = 0;

    // the one request arrives and is served
    state = wait_step(state, WaitEvent::DataArrived);
    assert_eq!(state, SessionState::Processing);
    tracker.idle_guard();
    responses_written += 1;
    tracker.release_guard(1_000);
    state = process_step(state, ProcessOutcome::Served);
    assert_eq!(state, SessionState::WaitingForData);

    // the watchdog polls while nothing more arrives
    let mut shutdown = false;
    let mut now: u64 = 1_000;
    while !shutdown {
        now += 1_000;
        shutdown = tracker.is_expired(now, MAX_IDLE_MS);
        assert!(now < 120_000, "watchdog never fired");
    }
    assert_eq!(now, 1_000 + MAX_IDLE_MS + 1_000);

    // the loop observes the flag and closes without writing anything else
    state = wait_step(state, WaitEvent::ShutdownSignal);
    assert_eq!(state, SessionState::Closed);
    assert_eq!(responses_written, 1);
}
