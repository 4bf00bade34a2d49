use bdd_rust_multiprotocol_server::protocols::fix::{
    heartbeat_message, reject_message, test_request_message, FixAction, FixSession, ReadOutcome,
    HEARTBEAT_INTERVAL_SECS,
};

#[test]
fn heartbeat_in_time_is_answered_with_heartbeat() {
    let request = b"8=FIX.4.4\x019=5\x0135=0\x0110=163\x01\n".to_vec();
    let (next, action) = FixSession::new().on_read(ReadOutcome::Received(request.clone()));
    assert!(matches!(next, FixSession::Finished));
    match action {
        FixAction::Reply { message, heartbeat, exchange } => {
            assert!(heartbeat);
            assert_eq!(message, heartbeat_message());
            assert_eq!(exchange.protocol, "fix");
            assert!(exchange.success);
            assert_eq!(exchange.request_bytes, request.len() as u64);
            assert_eq!(exchange.response_bytes, message.len() as u64);
        }
        _ => panic!("expected a reply"),
    }
}

#[test]
fn other_message_in_time_is_rejected() {
    let (next, action) = FixSession::new().on_read(ReadOutcome::Received(b"35=D\x01\n".to_vec()));
    assert!(matches!(next, FixSession::Finished));
    match action {
        FixAction::Reply { message, heartbeat, exchange } => {
            assert!(!heartbeat);
            assert_eq!(message, reject_message());
            assert!(!exchange.success);
            assert_eq!(exchange.request_bytes, 6);
            assert_eq!(exchange.response_bytes, 55);
        }
        _ => panic!("expected a reply"),
    }
}

#[test]
fn silence_triggers_a_test_request() {
    let (next, action) = FixSession::new().on_read(ReadOutcome::TimedOut(Vec::new()));
    match next {
        FixSession::AwaitingFollowUp(pending) => assert!(pending.is_empty()),
        _ => panic!("expected to wait for the follow-up"),
    }
    match action {
        FixAction::SendTestRequest { message, exchange } => {
            assert_eq!(message, test_request_message());
            assert_eq!(exchange.protocol, "fix");
            assert!(!exchange.success);
            assert_eq!(exchange.request_bytes, 0);
            assert_eq!(exchange.response_bytes, message.len() as u64);
        }
        _ => panic!("expected a test request"),
    }
    assert_eq!(HEARTBEAT_INTERVAL_SECS, 1);
}

#[test]
fn follow_up_is_answered_by_what_the_first_read_gathered() {
    let (next, _) = FixSession::new().on_read(ReadOutcome::TimedOut(b"35=0\x01".to_vec()));
    let (last, action) = next.on_read(ReadOutcome::Received(b"35=1\x01\n".to_vec()));
    assert!(matches!(last, FixSession::Finished));
    match action {
        FixAction::Reply { message, heartbeat, exchange } => {
            assert!(heartbeat);
            assert_eq!(message, heartbeat_message());
            assert_eq!(exchange.request_bytes, 5);
        }
        _ => panic!("expected a reply"),
    }
}

#[test]
fn follow_up_after_empty_first_read_is_rejected() {
    let (next, _) = FixSession::new().on_read(ReadOutcome::TimedOut(Vec::new()));
    let (_, action) = next.on_read(ReadOutcome::Received(b"35=0\x01\n".to_vec()));
    match action {
        FixAction::Reply { message, heartbeat, exchange } => {
            assert!(!heartbeat);
            assert_eq!(message, reject_message());
            assert_eq!(exchange.request_bytes, 0);
        }
        _ => panic!("expected a reply"),
    }
}

#[test]
fn second_silence_closes_the_connection() {
    let (next, _) = FixSession::new().on_read(ReadOutcome::TimedOut(Vec::new()));
    let (last, action) = next.on_read(ReadOutcome::TimedOut(Vec::new()));
    assert!(matches!(last, FixSession::Finished));
    assert!(matches!(action, FixAction::Close));
}

#[test]
fn finished_session_only_closes() {
    let (last, action) = FixSession::Finished.on_read(ReadOutcome::Received(b"35=0\x01".to_vec()));
    assert!(matches!(last, FixSession::Finished));
    assert!(matches!(action, FixAction::Close));
}
