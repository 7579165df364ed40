use carapace::messages::{
    decode_client_message, encode_server_message, parse_string, push_json_string, ClientMessage,
    ServerMessage,
};
use carapace::types::{PeerId, PeerInfo, RoomCode, SignalingError};

fn text(v: Vec<u8>) -> String {
    String::from_utf8(v).unwrap()
}

#[test]
fn parse_create_room() {
    let json = r#"{"type": "create_room"}"#;
    let msg = decode_client_message(json.as_bytes()).unwrap();
    matches!(msg, ClientMessage::CreateRoom);
}

#[test]
fn parse_join_room() {
    let json = r#"{"type": "join_room", "code": "abc12345"}"#;
    let msg = decode_client_message(json.as_bytes()).unwrap();
    if let ClientMessage::JoinRoom { code } = msg {
        assert_eq!(code, b"abc12345".to_vec());
    } else {
        panic!("Expected JoinRoom");
    }
}

#[test]
fn parse_leave_room() {
    let json = r#"{"type": "leave_room"}"#;
    let msg = decode_client_message(json.as_bytes()).unwrap();
    matches!(msg, ClientMessage::LeaveRoom);
}

#[test]
fn serialize_room_created() {
    let msg = ServerMessage::RoomCreated {
        code: RoomCode::from("test1234"),
        your_id: PeerId::from("peer_abc12345"),
    };
    let json = text(encode_server_message(&msg));
    assert!(json.contains("room_created"));
    assert!(json.contains("test1234"));
    assert!(json.contains("peer_abc12345"));
}

#[test]
fn serialize_room_joined() {
    let msg = ServerMessage::RoomJoined {
        code: RoomCode::from("test1234"),
        your_id: PeerId::from("peer_new12345"),
        peers: vec![PeerInfo {
            id: PeerId::from("peer_existing"),
            public_addr: None,
        }],
    };
    let json = text(encode_server_message(&msg));
    assert!(json.contains("room_joined"));
    assert!(json.contains("peer_existing"));
}

#[test]
fn serialize_peer_joined() {
    let msg = ServerMessage::PeerJoined {
        peer: PeerInfo {
            id: PeerId::from("peer_new12345"),
            public_addr: Some(b"192.168.1.1:5000".to_vec()),
        },
    };
    let json = text(encode_server_message(&msg));
    assert!(json.contains("peer_joined"));
    assert!(json.contains("peer_new12345"));
    assert!(json.contains("192.168.1.1:5000"));
}

#[test]
fn serialize_error() {
    let msg = ServerMessage::Error {
        message: b"Room not found".to_vec(),
    };
    let json = text(encode_server_message(&msg));
    assert!(json.contains("error"));
    assert!(json.contains("Room not found"));
}

#[test]
fn room_created_exact_bytes() {
    let msg = ServerMessage::RoomCreated {
        code: RoomCode::from("test1234"),
        your_id: PeerId::from("peer_abc12345"),
    };
    let json = text(encode_server_message(&msg));
    assert_eq!(
        json,
        r#"{"type":"room_created","code":"test1234","your_id":"peer_abc12345"}"#
    );
}

#[test]
fn room_joined_exact_bytes() {
    let msg = ServerMessage::RoomJoined {
        code: RoomCode::from("test1234"),
        your_id: PeerId::from("peer_new12345"),
        peers: vec![
            PeerInfo {
                id: PeerId::from("peer_a"),
                public_addr: Some(b"10.0.0.1:80".to_vec()),
            },
            PeerInfo {
                id: PeerId::from("peer_b"),
                public_addr: None,
            },
        ],
    };
    let json = text(encode_server_message(&msg));
    let mut expected = String::from(
        r#"{"type":"room_joined","code":"test1234","your_id":"peer_new12345","#,
    );
    expected.push_str(
        r#""peers":[{"id":"peer_a","public_addr":"10.0.0.1:80"},{"id":"peer_b","public_addr":null}]}"#,
    );
    assert_eq!(json, expected);
}

#[test]
fn error_message_escaping() {
    let msg = ServerMessage::Error {
        message: b"bad \"quote\" and \\slash\n".to_vec(),
    };
    let json = text(encode_server_message(&msg));
    assert_eq!(
        json,
        r#"{"type":"error","message":"bad \"quote\" and \\slash\n"}"#
    );
}

#[test]
fn room_code_serialization() {
    let code = RoomCode::from("testcode");
    let mut out: Vec<u8> = Vec::new();
    push_json_string(&mut out, code.to_vec().as_slice());
    assert_eq!(text(out), "\"testcode\"");
}

#[test]
fn peer_id_serialization() {
    let peer_id = PeerId::from("peer_test1234");
    let mut out: Vec<u8> = Vec::new();
    push_json_string(&mut out, peer_id.to_vec().as_slice());
    assert_eq!(text(out), "\"peer_test1234\"");
}

#[test]
fn room_code_deserialization() {
    let json = b"\"testcode\"";
    let (end, bytes) = parse_string(json, 0).unwrap();
    assert_eq!(end, json.len());
    let code = RoomCode::from_bytes(bytes.as_slice());
    assert_eq!(code.as_str(), "testcode");
}

#[test]
fn peer_id_deserialization() {
    let json = b"\"peer_test1234\"";
    let (end, bytes) = parse_string(json, 0).unwrap();
    assert_eq!(end, json.len());
    let peer_id = PeerId::from_bytes(bytes.as_slice());
    assert_eq!(peer_id.as_str(), "peer_test1234");
}

#[test]
fn peer_info_serialization() {
    let msg = ServerMessage::PeerJoined {
        peer: PeerInfo {
            id: PeerId::from("peer_abc12345"),
            public_addr: Some(b"127.0.0.1:8080".to_vec()),
        },
    };
    let json = text(encode_server_message(&msg));
    assert!(json.contains("peer_abc12345"));
    assert!(json.contains("127.0.0.1:8080"));
}

#[test]
fn signaling_error_messages() {
    let e = SignalingError::RoomNotFound(RoomCode::from("zzzzzzzz"));
    assert_eq!(e.message_bytes(), b"room not found: zzzzzzzz".to_vec());
    let e = SignalingError::Internal("actor channel closed".to_string());
    assert_eq!(e.message_bytes(), b"internal error: actor channel closed".to_vec());
}

#[test]
fn decode_tolerates_order_whitespace_and_unknown_fields() {
    let json = r#"  { "extra" : [1, {"a": true}, null] , "code" : "abc12345" , "type" : "join_room" , "n": -12.5e+3 }  "#;
    let msg = decode_client_message(json.as_bytes()).unwrap();
    if let ClientMessage::JoinRoom { code } = msg {
        assert_eq!(code, b"abc12345".to_vec());
    } else {
        panic!("Expected JoinRoom");
    }
}

#[test]
fn decode_handles_escapes() {
    let json = r#"{"type":"join_room","code":"a\u0062c\n"}"#;
    let msg = decode_client_message(json.as_bytes()).unwrap();
    if let ClientMessage::JoinRoom { code } = msg {
        assert_eq!(code, b"abc\n".to_vec());
    } else {
        panic!("Expected JoinRoom");
    }
}

#[test]
fn decode_rejects_malformed_and_unknown() {
    assert!(decode_client_message(b"not json").is_none());
    assert!(decode_client_message(b"{\"type\":\"create_room\"").is_none());
    assert!(decode_client_message(b"{\"type\":\"dance\"}").is_none());
    assert!(decode_client_message(b"{}").is_none());
    assert!(decode_client_message(b"{\"type\":\"join_room\"}").is_none());
    assert!(decode_client_message(b"{\"type\":\"join_room\",\"code\":7}").is_none());
    assert!(decode_client_message(b"{\"type\":\"create_room\"} trailing").is_none());
    assert!(decode_client_message(b"{\"type\":\"create_room\",\"type\":\"create_room\"}").is_none());
}
