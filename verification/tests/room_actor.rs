use carapace::actor::RoomManager;
use carapace::types::{RoomCode, SignalingError};

#[test]
fn create_then_join_lists_only_prior_peers() {
    let mut mgr = RoomManager::new();
    let (code, pa) = mgr.create_room(Some(b"1.2.3.4:1111".to_vec()));
    assert_eq!(code.as_str().len(), 8);

    let (pb, peers) = mgr
        .join_room(code, Some(b"5.6.7.8:2222".to_vec()))
        .unwrap();
    assert_eq!(peers.len(), 1);
    assert!(peers[0].id == pa);
    assert_eq!(peers[0].public_addr.as_deref(), Some(b"1.2.3.4:1111".as_slice()));
    // the joiner never appears in its own snapshot
    assert!(peers.iter().all(|p| p.id != pb));
}

#[test]
fn join_nonexistent_room_is_refused() {
    let mut mgr = RoomManager::new();
    let r = mgr.join_room(RoomCode::from("zzzzzzzz"), None);
    match r {
        Err(SignalingError::RoomNotFound(c)) => {
            assert_eq!(c.as_str(), "zzzzzzzz");
            assert_eq!(
                SignalingError::RoomNotFound(c).message_bytes(),
                b"room not found: zzzzzzzz".to_vec()
            );
        }
        other => panic!("expected RoomNotFound, got {:?}", other.map(|_| ())),
    }
}

#[test]
fn leave_removes_empty_room() {
    let mut mgr = RoomManager::new();
    let (code, pa) = mgr.create_room(None);
    let (pb, _) = mgr.join_room(code, None).unwrap();

    mgr.leave_room(pb);
    // the room still exists while a peer remains
    let (pc, peers) = mgr.join_room(code, None).unwrap();
    assert_eq!(peers.len(), 1);
    assert!(peers[0].id == pa);

    mgr.leave_room(pc);
    mgr.leave_room(pa);
    // the last leave removed the room
    assert!(matches!(
        mgr.join_room(code, None),
        Err(SignalingError::RoomNotFound(_))
    ));
}

#[test]
fn second_leave_is_a_noop() {
    let mut mgr = RoomManager::new();
    let (code, pa) = mgr.create_room(None);
    let (pb, _) = mgr.join_room(code, None).unwrap();

    mgr.leave_room(pb);
    mgr.leave_room(pb);
    mgr.leave_room(pb);

    // the room and its remaining peer are untouched by the repeats
    let (_, peers) = mgr.join_room(code, None).unwrap();
    assert_eq!(peers.len(), 1);
    assert!(peers[0].id == pa);
}

#[test]
fn two_rooms_stay_apart() {
    let mut mgr = RoomManager::new();
    let (code1, p1) = mgr.create_room(None);
    let (code2, p2) = mgr.create_room(None);
    assert!(code1 != code2);

    let (_, peers1) = mgr.join_room(code1, None).unwrap();
    assert_eq!(peers1.len(), 1);
    assert!(peers1[0].id == p1);

    let (_, peers2) = mgr.join_room(code2, None).unwrap();
    assert_eq!(peers2.len(), 1);
    assert!(peers2[0].id == p2);
}
