// The life cycle of a replicator.

use couchbase_lite::replicator::{
    document_flags, read_document_flags, replicated_documents, Lifecycle, RawReplicatedDocument,
    ReplicatorAction, ReplicatorEvent, RetryPolicy, ACCESS_REMOVED, DELETED,
};
use couchbase_lite::{
    Authenticator, CBLError, CouchbaseLiteError, Direction, Endpoint, Error, ErrorCode,
    NetworkError, ProxySettings, ProxyType, ReplicatorActivityLevel,
};

fn policy(continuous: bool, max_attempts: u32, max_attempt_wait_time: u32) -> RetryPolicy {
    RetryPolicy { continuous, max_attempts, max_attempt_wait_time }
}

fn timeout() -> Error {
    Error { code: ErrorCode::Network(NetworkError::Timeout), internal_info: None }
}

// A continuous replicator with a peer in reach and nothing to do is idle soon
// after its start.
#[test]
fn start_reaches_idle() {
    let p = policy(true, 0, 0);
    let mut s = Lifecycle::new();
    assert_eq!(s.activity, ReplicatorActivityLevel::Stopped);
    assert_eq!(s.start(&p), ReplicatorAction::Connect);
    assert_eq!(s.activity, ReplicatorActivityLevel::Connecting);
    assert_eq!(s.start(&p), ReplicatorAction::Nothing);
    assert_eq!(s.handle(&p, ReplicatorEvent::Connected { work_pending: false }), ReplicatorAction::Nothing);
    assert_eq!(s.activity, ReplicatorActivityLevel::Idle);
    s.handle(&p, ReplicatorEvent::WorkPending);
    assert_eq!(s.activity, ReplicatorActivityLevel::Busy);
    s.handle(&p, ReplicatorEvent::CaughtUp);
    assert_eq!(s.activity, ReplicatorActivityLevel::Idle);
}

#[test]
fn stop_waits_for_the_transport() {
    let p = policy(true, 0, 0);
    let mut s = Lifecycle::new();
    assert_eq!(s.stop(&p), ReplicatorAction::Nothing);
    s.start(&p);
    s.handle(&p, ReplicatorEvent::Connected { work_pending: true });
    assert_eq!(s.stop(&p), ReplicatorAction::Disconnect);
    assert_eq!(s.activity, ReplicatorActivityLevel::Busy);
    s.handle(&p, ReplicatorEvent::CaughtUp);
    assert_eq!(s.activity, ReplicatorActivityLevel::Busy);
    s.handle(&p, ReplicatorEvent::Closed);
    assert_eq!(s.activity, ReplicatorActivityLevel::Stopped);
    assert!(!s.stopping);
}

#[test]
fn retries_back_off_and_run_out() {
    let p = policy(false, 3, 5);
    assert_eq!(p.attempts_allowed(), 3);
    assert_eq!(p.wait_ceiling(), 5);
    assert_eq!(p.retry_delay(0), 1);
    assert_eq!(p.retry_delay(1), 2);
    assert_eq!(p.retry_delay(2), 4);
    assert_eq!(p.retry_delay(3), 5);
    assert_eq!(p.retry_delay(4_000_000_000), 5);
    assert_eq!(policy(true, 0, 0).attempts_allowed(), u32::MAX);
    assert_eq!(policy(false, 0, 0).attempts_allowed(), 10);
    assert_eq!(policy(false, 0, 0).wait_ceiling(), 300);
    assert_eq!(policy(false, 0, 0).retry_delay(20), 300);

    let mut s = Lifecycle::new();
    s.start(&p);
    let fail = ReplicatorEvent::ConnectionFailed { error: timeout(), transient: true };
    assert_eq!(s.handle(&p, fail), ReplicatorAction::ScheduleRetry(2));
    assert_eq!(s.activity, ReplicatorActivityLevel::Offline);
    assert_eq!(s.error, Some(timeout()));
    assert_eq!(s.handle(&p, ReplicatorEvent::RetryDue), ReplicatorAction::Connect);
    assert_eq!(s.attempts, 2);
    assert_eq!(s.handle(&p, fail), ReplicatorAction::ScheduleRetry(4));
    assert_eq!(s.handle(&p, ReplicatorEvent::RetryDue), ReplicatorAction::Connect);
    assert_eq!(s.attempts, 3);
    assert_eq!(s.handle(&p, fail), ReplicatorAction::Nothing);
    assert_eq!(s.activity, ReplicatorActivityLevel::Stopped);
    assert_eq!(s.error, Some(timeout()));

    // one attempt means no retry; a failure that is not transient is fatal
    let once = policy(true, 1, 0);
    let mut s = Lifecycle::new();
    s.start(&once);
    s.handle(&once, fail);
    assert_eq!(s.activity, ReplicatorActivityLevel::Stopped);
    let mut s = Lifecycle::new();
    s.start(&p);
    s.handle(&p, ReplicatorEvent::ConnectionFailed { error: timeout(), transient: false });
    assert_eq!(s.activity, ReplicatorActivityLevel::Stopped);
}

#[test]
fn reachability_matters_offline_only() {
    let p = policy(true, 0, 0);
    let mut s = Lifecycle::new();
    s.start(&p);
    assert_eq!(s.set_host_reachable(&p, false), ReplicatorAction::Nothing);
    assert_eq!(s.activity, ReplicatorActivityLevel::Connecting);
    let fail = ReplicatorEvent::ConnectionFailed { error: timeout(), transient: true };
    // the host counts as out of reach: no retry is scheduled
    assert_eq!(s.handle(&p, fail), ReplicatorAction::Nothing);
    assert_eq!(s.activity, ReplicatorActivityLevel::Offline);
    assert_eq!(s.handle(&p, ReplicatorEvent::RetryDue), ReplicatorAction::Nothing);
    assert_eq!(s.set_host_reachable(&p, true), ReplicatorAction::Connect);
    assert_eq!(s.activity, ReplicatorActivityLevel::Connecting);
    s.handle(&p, fail);
    assert!(s.retry_scheduled);
    assert_eq!(s.set_host_reachable(&p, false), ReplicatorAction::CancelRetry);
    assert!(!s.retry_scheduled);
    assert_eq!(s.activity, ReplicatorActivityLevel::Offline);
}

#[test]
fn suspension() {
    let p = policy(true, 0, 0);
    let mut s = Lifecycle::new();
    s.start(&p);
    s.handle(&p, ReplicatorEvent::Connected { work_pending: false });
    assert_eq!(s.set_suspended(&p, true), ReplicatorAction::Disconnect);
    assert_eq!(s.activity, ReplicatorActivityLevel::Offline);
    assert_eq!(s.set_suspended(&p, true), ReplicatorAction::Nothing);
    assert_eq!(s.set_host_reachable(&p, true), ReplicatorAction::Nothing);
    assert_eq!(s.handle(&p, ReplicatorEvent::RetryDue), ReplicatorAction::Nothing);
    assert_eq!(s.activity, ReplicatorActivityLevel::Offline);
    assert_eq!(s.set_suspended(&p, false), ReplicatorAction::Connect);
    assert_eq!(s.activity, ReplicatorActivityLevel::Connecting);

    // suspended while offline: ending the suspension does not connect
    let mut s = Lifecycle::new();
    s.start(&p);
    s.set_host_reachable(&p, false);
    s.handle(&p, ReplicatorEvent::ConnectionFailed { error: timeout(), transient: true });
    assert_eq!(s.set_suspended(&p, true), ReplicatorAction::Nothing);
    assert_eq!(s.set_suspended(&p, false), ReplicatorAction::Nothing);
    assert_eq!(s.activity, ReplicatorActivityLevel::Offline);

    // started while suspended: offline until the suspension ends
    let mut s = Lifecycle::new();
    s.set_suspended(&p, true);
    assert_eq!(s.start(&p), ReplicatorAction::Nothing);
    assert_eq!(s.activity, ReplicatorActivityLevel::Offline);
    assert_eq!(s.set_suspended(&p, false), ReplicatorAction::Connect);
}

#[test]
fn flags_and_reports() {
    assert_eq!(read_document_flags(0), (false, false));
    assert_eq!(read_document_flags(DELETED), (true, false));
    assert_eq!(read_document_flags(ACCESS_REMOVED), (false, true));
    assert_eq!(read_document_flags(3), (true, true));
    assert_eq!(read_document_flags(4), (false, false));
    assert_eq!(document_flags(true, true), 3);
    assert_eq!(document_flags(false, true), ACCESS_REMOVED);

    let raw = vec![
        RawReplicatedDocument { id: Some("a".to_string()), flags: 1, error: CBLError::default() },
        RawReplicatedDocument { id: None, flags: 0, error: CBLError::default() },
        RawReplicatedDocument {
            id: Some("b".to_string()),
            flags: 0,
            error: CBLError { domain: 1, code: 22, internal_info: 9 },
        },
    ];
    let (direction, reports) = replicated_documents(true, &raw);
    assert_eq!(direction, Direction::Pushed);
    assert_eq!(reports.len(), 2);
    assert_eq!(reports[0].id, "a");
    assert_eq!(reports[0].flags, 1);
    assert!(reports[0].error.is_ok());
    assert_eq!(reports[1].id, "b");
    assert_eq!(
        reports[1].error,
        Err(Error { code: ErrorCode::CouchbaseLite(CouchbaseLiteError::Crypto), internal_info: Some(9) })
    );
    assert_eq!(replicated_documents(false, &Vec::new()).0, Direction::Pulled);
    assert_eq!(ReplicatorActivityLevel::from_u8(3), Some(ReplicatorActivityLevel::Idle));
    assert_eq!(ReplicatorActivityLevel::from_u8(5), None);
}

#[test]
fn endpoints_and_credentials() {
    let e = Endpoint::new_with_url("wss://example.org/db").unwrap();
    assert_eq!(e.url.as_deref(), Some("wss://example.org/db"));
    assert!(!e.is_local());
    assert!(Endpoint::new_with_url("ws://h").is_ok());
    for bad in ["", "ws://", "wss://", "http://example.org/db", "ws:/x", "WS://h"] {
        assert_eq!(
            Endpoint::new_with_url(bad).unwrap_err().code,
            ErrorCode::Network(NetworkError::InvalidURL),
            "{}",
            bad
        );
    }
    let a = Authenticator::create_password("user", "secret");
    assert_eq!((a.name.as_str(), a.secret.as_str()), ("user", "secret"));
    let s = Authenticator::create_session("sid", "cookie");
    assert_ne!(a.kind, s.kind);
    let p = ProxySettings::new(ProxyType::HTTPS, Some("proxy".to_string()), 8080, None, None);
    assert_eq!(p.port, 8080);
    assert_eq!(p.hostname.as_deref(), Some("proxy"));
    assert_eq!(p.proxy_type, ProxyType::HTTPS);
}
