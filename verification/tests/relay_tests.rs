use threadkit::relay::{relay_step, RelayAction, RelayEvent};

#[test]
fn data_goes_to_the_other_side() {
    match relay_step(true, RelayEvent::Data(b"abc".to_vec())) {
        RelayAction::Forward { to_server, data } => {
            assert!(to_server);
            assert_eq!(data, b"abc".to_vec());
        }
        _ => panic!("expected forward"),
    }
    match relay_step(false, RelayEvent::Data(b"x".to_vec())) {
        RelayAction::Forward { to_server, .. } => assert!(!to_server),
        _ => panic!("expected forward"),
    }
}

#[test]
fn close_failure_and_write_failure_close_the_pair() {
    assert!(matches!(relay_step(true, RelayEvent::Closed), RelayAction::ClosePair));
    assert!(matches!(relay_step(false, RelayEvent::Failed), RelayAction::ClosePair));
    assert!(matches!(relay_step(true, RelayEvent::WriteFailed), RelayAction::ClosePair));
    assert!(matches!(relay_step(true, RelayEvent::WouldBlock), RelayAction::Nothing));
}
