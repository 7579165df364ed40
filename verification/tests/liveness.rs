use carapace::connection::{classify_text, ConnectionState, LivenessAction};
use carapace::messages::ClientMessage;
use carapace::types::{PeerId, RoomCode, SignalingError};

#[test]
fn ping_then_pong_keeps_the_connection() {
    let mut st = ConnectionState::new();
    assert_eq!(st.on_ping_tick(), LivenessAction::SendPing);
    st.on_pong();
    assert_eq!(st.on_ping_tick(), LivenessAction::SendPing);
}

#[test]
fn missed_pong_disconnects() {
    let mut st = ConnectionState::new();
    assert_eq!(st.on_ping_tick(), LivenessAction::SendPing);
    // no pong before the next tick
    assert_eq!(st.on_ping_tick(), LivenessAction::Disconnect);
}

#[test]
fn pong_deadline_expiry_disconnects() {
    let mut st = ConnectionState::new();
    assert_eq!(st.on_ping_tick(), LivenessAction::SendPing);
    assert_eq!(st.on_pong_deadline(), LivenessAction::Disconnect);
}

#[test]
fn create_result_registers_identity_and_replies() {
    let mut st = ConnectionState::new();
    let code = RoomCode::from("test1234");
    let pid = PeerId::from("peer_abc12345");
    let reply = st.on_create_result(Ok((code, pid)));
    let json = String::from_utf8(reply).unwrap();
    assert_eq!(
        json,
        r#"{"type":"room_created","code":"test1234","your_id":"peer_abc12345"}"#
    );
    assert!(st.take_peer_id() == Some(pid));
    assert!(st.take_peer_id().is_none());
}

#[test]
fn join_error_keeps_identity_clear() {
    let mut st = ConnectionState::new();
    let code = RoomCode::from("zzzzzzzz");
    let reply = st.on_join_result(code, Err(SignalingError::RoomNotFound(code)));
    let json = String::from_utf8(reply).unwrap();
    assert_eq!(
        json,
        r#"{"type":"error","message":"room not found: zzzzzzzz"}"#
    );
    assert!(st.take_peer_id().is_none());
}

#[test]
fn classify_text_decodes_or_replies() {
    match classify_text(b"{\"type\":\"leave_room\"}") {
        Ok(m) => assert!(matches!(m, ClientMessage::LeaveRoom)),
        Err(_) => panic!("expected a decoded message"),
    }
    match classify_text(b"gibberish") {
        Ok(_) => panic!("expected an error reply"),
        Err(reply) => {
            let json = String::from_utf8(reply).unwrap();
            assert!(json.contains("\"type\":\"error\""));
            assert!(json.contains("Invalid message"));
        }
    }
}
