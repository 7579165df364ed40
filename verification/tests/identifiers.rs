use carapace::types::{PeerId, RoomCode};

#[test]
fn room_code_generate_has_correct_length() {
    let code = RoomCode::generate();
    assert_eq!(code.as_str().len(), 8);
}

#[test]
fn room_code_generate_uses_valid_chars() {
    let code = RoomCode::generate();
    let valid_chars: Vec<char> = "abcdefghijklmnopqrstuvwxyz0123456789".chars().collect();
    for c in code.as_str().chars() {
        assert!(valid_chars.contains(&c), "Invalid char: {}", c);
    }
}

#[test]
fn peer_id_generate_has_correct_format() {
    let peer_id = PeerId::generate();
    assert!(peer_id.as_str().starts_with("peer_"));
    assert_eq!(peer_id.as_str().len(), 13);
}

#[test]
fn peer_id_generate_is_hex_after_prefix() {
    let peer_id = PeerId::generate();
    let s = peer_id.as_str();
    for c in s[5..].chars() {
        assert!(c.is_ascii_hexdigit() && !c.is_ascii_uppercase(), "Invalid hex: {}", c);
    }
}

#[test]
fn room_code_from_str() {
    let code = RoomCode::from("test1234");
    assert_eq!(code.as_str(), "test1234");
}

#[test]
fn peer_id_from_str() {
    let peer_id = PeerId::from("peer_12345678");
    assert_eq!(peer_id.as_str(), "peer_12345678");
}

#[test]
fn room_code_display() {
    let code = RoomCode::from("abc12345");
    assert_eq!(code.as_str(), "abc12345");
}

#[test]
fn peer_id_display() {
    let peer_id = PeerId::from("peer_abcd1234");
    assert_eq!(peer_id.as_str(), "peer_abcd1234");
}

#[test]
fn room_code_truncates_long_input() {
    let code = RoomCode::from("abcdefghij");
    assert_eq!(code.as_str(), "abcdefgh");
}

#[test]
fn peer_id_truncates_long_input() {
    let peer_id = PeerId::from("peer_0123456789abcdef");
    assert_eq!(peer_id.as_str(), "peer_01234567");
}

#[test]
fn room_code_equality_is_by_content() {
    assert!(RoomCode::from("same1234") == RoomCode::from("same1234"));
    assert!(RoomCode::from("same1234") != RoomCode::from("other123"));
    assert!(PeerId::from("peer_aaaabbbb") == PeerId::from("peer_aaaabbbb"));
    assert!(PeerId::from("peer_aaaabbbb") != PeerId::from("peer_ccccdddd"));
}

#[test]
fn room_code_is_copy() {
    let code = RoomCode::generate();
    let copy = code;
    assert_eq!(code.as_str(), copy.as_str());
}

#[test]
fn peer_id_is_copy() {
    let id = PeerId::generate();
    let copy = id;
    assert_eq!(id.as_str(), copy.as_str());
}
