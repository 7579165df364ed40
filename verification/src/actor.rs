//! The room directory: the state the signaling actor owns, with the
//! create/join/leave transitions and the invariants they keep.
//!
//! The directory is modelled as two mathematical maps, one from room
//! codes to member lists and one from peer identifiers back to room
//! codes. The executable state holds association vectors with
//! distinct keys; the contracts speak only of the maps.

use vstd::prelude::*;

use crate::types::{PeerId, PeerInfo, PeerInfoModel, RoomCode, SignalingError};

verus! {

/// Index of the first entry of `s` whose key is `k`, or -1.
pub open spec fn first_idx<T>(s: Seq<T>, key: spec_fn(T) -> Seq<u8>, k: Seq<u8>) -> int
    decreases s.len(),
{
    if s.len() == 0 {
        -1
    } else if key(s[0]) == k {
        0
    } else {
        let rest = first_idx(s.drop_first(), key, k);
        if rest == -1 {
            -1
        } else {
            rest + 1
        }
    }
}

/// `first_idx` finds exactly the first occurrence of a key.
pub proof fn lemma_first_idx_props<T>(s: Seq<T>, key: spec_fn(T) -> Seq<u8>, k: Seq<u8>)
    ensures
        ({
            let i = first_idx(s, key, k);
            &&& -1 <= i < s.len()
            &&& i == -1 ==> forall|j: int| 0 <= j < s.len() ==> key(#[trigger] s[j]) != k
            &&& i >= 0 ==> key(s[i]) == k && (forall|j: int|
                0 <= j < i ==> key(#[trigger] s[j]) != k)
        }),
    decreases s.len(),
{
    if s.len() > 0 && key(s[0]) != k {
        lemma_first_idx_props(s.drop_first(), key, k);
        let rest = first_idx(s.drop_first(), key, k);
        if rest == -1 {
            assert forall|j: int| 0 <= j < s.len() implies key(#[trigger] s[j]) != k by {
                if j > 0 {
                    assert(s.drop_first()[j - 1] == s[j]);
                }
            }
        } else {
            assert(s.drop_first()[rest] == s[rest + 1]);
            assert forall|j: int| 0 <= j < rest + 1 implies key(#[trigger] s[j]) != k by {
                if j > 0 {
                    assert(s.drop_first()[j - 1] == s[j]);
                }
            }
        }
    }
}

/// Whether the keys of `s` are pairwise distinct.
pub open spec fn distinct_keys<T>(s: Seq<T>, key: spec_fn(T) -> Seq<u8>) -> bool {
    forall|i: int, j: int|
        0 <= i < j < s.len() ==> key(#[trigger] s[i]) != key(#[trigger] s[j])
}

/// The finite map an association sequence stands for: each key goes
/// to the value drawn from its first entry.
pub open spec fn assoc_map<T, V>(
    s: Seq<T>,
    key: spec_fn(T) -> Seq<u8>,
    val: spec_fn(T) -> V,
) -> Map<Seq<u8>, V> {
    Map::new(|k: Seq<u8>| first_idx(s, key, k) >= 0, |k: Seq<u8>| val(s[first_idx(s, key, k)]))
}

/// Appending an entry with a fresh key inserts it into the map.
pub proof fn lemma_assoc_push<T, V>(s: Seq<T>, key: spec_fn(T) -> Seq<u8>, val: spec_fn(T) -> V, e: T)
    requires
        first_idx(s, key, key(e)) == -1,
    ensures
        assoc_map(s.push(e), key, val) == assoc_map(s, key, val).insert(key(e), val(e)),
        distinct_keys(s, key) ==> distinct_keys(s.push(e), key),
    {
    let s2 = s.push(e);
    assert forall|k: Seq<u8>| #![trigger first_idx(s2, key, k)] true implies {
        let i1 = first_idx(s, key, k);
        let i2 = first_idx(s2, key, k);
        &&& (k == key(e) ==> i2 == s.len() && s2[i2] == e)
        &&& (k != key(e) ==> i2 == i1 && (i2 >= 0 ==> s2[i2] == s[i1]))
    } by {
        lemma_first_idx_props(s, key, k);
        lemma_first_idx_props(s2, key, k);
        lemma_first_idx_props(s, key, key(e));
        let i1 = first_idx(s, key, k);
        let i2 = first_idx(s2, key, k);
        if k == key(e) {
            assert(key(s2[s.len() as int]) == k);
            if i2 < s.len() {
                assert(key(s2[i2]) == k);
                assert(s2[i2] == s[i2]);
            }
        } else {
            if i2 >= 0 {
                assert(key(s2[i2]) == k);
                assert(i2 < s.len());
                assert(s2[i2] == s[i2]);
                if i1 >= 0 && i1 < i2 {
                    assert(key(s2[i1]) != k);
                    assert(s2[i1] == s[i1]);
                }
            }
            if i1 >= 0 {
                assert(s2[i1] == s[i1]);
                assert(key(s2[i1]) == k);
            }
        }
    }
    assert(assoc_map(s2, key, val) =~= assoc_map(s, key, val).insert(key(e), val(e)));
    if distinct_keys(s, key) {
        lemma_first_idx_props(s, key, key(e));
        assert forall|i: int, j: int| 0 <= i < j < s2.len() implies key(#[trigger] s2[i]) != key(
            #[trigger] s2[j],
        ) by {
            if j == s.len() {
                assert(s2[i] == s[i]);
            } else {
                assert(s2[i] == s[i]);
                assert(s2[j] == s[j]);
            }
        }
    }
}

/// Replacing the first entry of a key by another entry with the same
/// key updates that key's value and nothing else.
pub proof fn lemma_assoc_update<T, V>(
    s: Seq<T>,
    key: spec_fn(T) -> Seq<u8>,
    val: spec_fn(T) -> V,
    i: int,
    e: T,
)
    requires
        0 <= i < s.len(),
        key(e) == key(s[i]),
        i == first_idx(s, key, key(e)),
    ensures
        assoc_map(s.update(i, e), key, val) == assoc_map(s, key, val).insert(key(e), val(e)),
        distinct_keys(s, key) ==> distinct_keys(s.update(i, e), key),
{
    let s2 = s.update(i, e);
    assert forall|k: Seq<u8>| #![trigger first_idx(s2, key, k)] true implies {
        let i1 = first_idx(s, key, k);
        let i2 = first_idx(s2, key, k);
        &&& i2 == i1
        &&& (i1 >= 0 ==> (if k == key(e) {
            s2[i1] == e
        } else {
            s2[i1] == s[i1]
        }))
    } by {
        lemma_first_idx_props(s, key, k);
        lemma_first_idx_props(s2, key, k);
        lemma_first_idx_props(s, key, key(e));
        let i1 = first_idx(s, key, k);
        let i2 = first_idx(s2, key, k);
        assert(forall|j: int| 0 <= j < s.len() ==> key(#[trigger] s2[j]) == key(s[j]));
        if i1 >= 0 && i2 >= 0 {
            assert(key(s2[i1]) == k);
            assert(key(s[i2]) == k);
        } else if i1 >= 0 {
            assert(key(s2[i1]) == k);
        } else if i2 >= 0 {
            assert(key(s[i2]) == k);
        }
        if i1 >= 0 {
            if k == key(e) {
                assert(key(s[i1]) == k);
                assert(i1 == i);
            } else {
                assert(key(s[i1]) == k);
                assert(i1 != i);
            }
        }
    }
    assert(assoc_map(s2, key, val) =~= assoc_map(s, key, val).insert(key(e), val(e)));
    if distinct_keys(s, key) {
        assert(forall|j: int| 0 <= j < s.len() ==> key(#[trigger] s2[j]) == key(s[j]));
    }
}

/// Removing the entry of a key removes that key from the map.
pub proof fn lemma_assoc_remove<T, V>(
    s: Seq<T>,
    key: spec_fn(T) -> Seq<u8>,
    val: spec_fn(T) -> V,
    i: int,
)
    requires
        0 <= i < s.len(),
        distinct_keys(s, key),
    ensures
        assoc_map(s.remove(i), key, val) == assoc_map(s, key, val).remove(key(s[i])),
        distinct_keys(s.remove(i), key),
{
    let s2 = s.remove(i);
    assert(s2.len() == s.len() - 1);
    assert forall|j: int| 0 <= j < s2.len() implies s2[j] == (if j < i {
        s[j]
    } else {
        s[j + 1]
    }) by {
        s.remove_ensures(i);
    }
    assert forall|k: Seq<u8>| #![trigger first_idx(s2, key, k)] true implies {
        let i1 = first_idx(s, key, k);
        let i2 = first_idx(s2, key, k);
        &&& (k == key(s[i]) ==> i2 == -1)
        &&& (k != key(s[i]) ==> (i2 >= 0 <==> i1 >= 0) && (i2 >= 0 ==> s2[i2] == s[i1]))
    } by {
        lemma_first_idx_props(s, key, k);
        lemma_first_idx_props(s2, key, k);
        let i1 = first_idx(s, key, k);
        let i2 = first_idx(s2, key, k);
        if k == key(s[i]) {
            if i2 >= 0 {
                assert(key(s2[i2]) == k);
                if i2 < i {
                    assert(s2[i2] == s[i2]);
                } else {
                    assert(s2[i2] == s[i2 + 1]);
                }
            }
        } else {
            if i2 >= 0 {
                assert(key(s2[i2]) == k);
                if i1 >= 0 {
                    let w = if i1 < i {
                        i1
                    } else {
                        i1 - 1
                    };
                    assert(key(s[i1]) == k);
                    assert(i1 != i);
                    assert(s2[w] == s[i1]);
                    assert(key(s2[w]) == k);
                    if w < i2 {
                        assert(key(s2[w]) != k);
                    }
                    if i2 < w {
                        let u = if i2 < i {
                            i2
                        } else {
                            i2 + 1
                        };
                        assert(s2[i2] == s[u]);
                        assert(u < i1);
                        assert(key(s[u]) != k);
                    }
                }
            } else {
                if i1 >= 0 {
                    let w = if i1 < i {
                        i1
                    } else {
                        i1 - 1
                    };
                    assert(s2[w] == s[i1]);
                    assert(key(s2[w]) == k);
                }
            }
        }
    }
    assert(assoc_map(s2, key, val) =~= assoc_map(s, key, val).remove(key(s[i])));
}

/// One room: its code and its members in insertion order.
pub struct Room {
    pub code: RoomCode,
    pub peers: Vec<PeerInfo>,
}

/// The key of a room in the directory.
pub open spec fn room_key() -> spec_fn(Room) -> Seq<u8> {
    |r: Room| r.code@
}

/// The mathematical content of a member list.
pub open spec fn peers_model(v: Seq<PeerInfo>) -> Seq<PeerInfoModel> {
    v.map_values(|p: PeerInfo| p@)
}

/// The value of a room in the directory: its member list.
pub open spec fn room_val() -> spec_fn(Room) -> Seq<PeerInfoModel> {
    |r: Room| peers_model(r.peers@)
}

/// The key of a reverse-index entry: the peer identifier.
pub open spec fn entry_key() -> spec_fn((PeerId, RoomCode)) -> Seq<u8> {
    |e: (PeerId, RoomCode)| e.0@
}

/// The value of a reverse-index entry: the room code.
pub open spec fn entry_val() -> spec_fn((PeerId, RoomCode)) -> Seq<u8> {
    |e: (PeerId, RoomCode)| e.1@
}

/// The key of a member within a room.
pub open spec fn member_key() -> spec_fn(PeerInfoModel) -> Seq<u8> {
    |p: PeerInfoModel| p.id
}

/// The mathematical content of an optional address.
pub open spec fn addr_model(a: Option<Vec<u8>>) -> Option<Seq<u8>> {
    match a {
        Some(v) => Some(v@),
        None => None,
    }
}

/// Insert a member into a list: replace the entry with the same
/// identifier if there is one, else append.
pub open spec fn insert_member(s: Seq<PeerInfoModel>, p: PeerInfoModel) -> Seq<PeerInfoModel> {
    let i = first_idx(s, member_key(), p.id);
    if i >= 0 {
        s.update(i, p)
    } else {
        s.push(p)
    }
}

/// Remove the member with the given identifier, if present.
pub open spec fn remove_member(s: Seq<PeerInfoModel>, id: Seq<u8>) -> Seq<PeerInfoModel> {
    let i = first_idx(s, member_key(), id);
    if i >= 0 {
        s.remove(i)
    } else {
        s
    }
}

/// The directory as mathematics: rooms by code, and the reverse
/// index from peer identifiers to codes.
#[verifier::ext_equal]
pub ghost struct DirectoryModel {
    pub rooms: Map<Seq<u8>, Seq<PeerInfoModel>>,
    pub peer_rooms: Map<Seq<u8>, Seq<u8>>,
}

impl DirectoryModel {
    /// The empty directory.
    pub open spec fn empty() -> DirectoryModel {
        DirectoryModel { rooms: Map::empty(), peer_rooms: Map::empty() }
    }
}

/// A create files a fresh one-member room under `code` and points
/// the joiner's reverse entry at it. Like the map insert it is
/// written with, it is last-write-wins on a colliding key.
pub open spec fn spec_apply_create(
    m: DirectoryModel,
    code: Seq<u8>,
    peer: PeerInfoModel,
) -> DirectoryModel {
    DirectoryModel {
        rooms: m.rooms.insert(code, seq![peer]),
        peer_rooms: m.peer_rooms.insert(peer.id, code),
    }
}

/// A join adds the joiner to the room's member list and points its
/// reverse entry at the room.
pub open spec fn spec_apply_join(
    m: DirectoryModel,
    code: Seq<u8>,
    peer: PeerInfoModel,
) -> DirectoryModel
    recommends
        m.rooms.dom().contains(code),
{
    DirectoryModel {
        rooms: m.rooms.insert(code, insert_member(m.rooms[code], peer)),
        peer_rooms: m.peer_rooms.insert(peer.id, code),
    }
}

/// A leave clears the peer's reverse entry and takes it out of its
/// room; a room emptied by this is deleted. A peer without a reverse
/// entry leaves the directory unchanged.
pub open spec fn spec_apply_leave(m: DirectoryModel, pid: Seq<u8>) -> DirectoryModel {
    if !m.peer_rooms.dom().contains(pid) {
        m
    } else {
        let code = m.peer_rooms[pid];
        let pr = m.peer_rooms.remove(pid);
        if m.rooms.dom().contains(code) {
            let remaining = remove_member(m.rooms[code], pid);
            if remaining.len() == 0 {
                DirectoryModel { rooms: m.rooms.remove(code), peer_rooms: pr }
            } else {
                DirectoryModel { rooms: m.rooms.insert(code, remaining), peer_rooms: pr }
            }
        } else {
            DirectoryModel { rooms: m.rooms, peer_rooms: pr }
        }
    }
}

/// Sole owner of the room directory. All mutation goes through the
/// three command methods, processed one at a time.
pub struct RoomManager {
    rooms: Vec<Room>,
    peer_rooms: Vec<(PeerId, RoomCode)>,
}

impl View for RoomManager {
    type V = DirectoryModel;

    closed spec fn view(&self) -> DirectoryModel {
        DirectoryModel {
            rooms: assoc_map(self.rooms@, room_key(), room_val()),
            peer_rooms: assoc_map(self.peer_rooms@, entry_key(), entry_val()),
        }
    }
}

/// Clone a member list, value for value.
fn clone_peers(src: &Vec<PeerInfo>) -> (r: Vec<PeerInfo>)
    ensures
        peers_model(r@) == peers_model(src@),
{
    let mut r: Vec<PeerInfo> = Vec::new();
    let mut i: usize = 0;
    while i < src.len()
        invariant
            0 <= i <= src@.len(),
            r@.len() == i,
            forall|j: int| 0 <= j < i ==> (#[trigger] r@[j])@ == src@[j]@,
        decreases src@.len() - i,
    {
        let p = (&src[i]).clone();
        r.push(p);
        i = i + 1;
    }
    proof {
        assert(peers_model(r@) =~= peers_model(src@));
    }
    r
}

impl RoomManager {
    /// Distinct room codes, a distinct reverse index, and distinct
    /// member identifiers inside every room.
    pub closed spec fn wf(&self) -> bool {
        &&& distinct_keys(self.rooms@, room_key())
        &&& distinct_keys(self.peer_rooms@, entry_key())
        &&& forall|i: int|
            0 <= i < self.rooms@.len() ==> distinct_keys(
                peers_model((#[trigger] self.rooms@[i]).peers@),
                member_key(),
            )
    }

    /// A fresh, empty directory.
    pub fn new() -> (r: RoomManager)
        ensures
            r.wf(),
            r@ == DirectoryModel::empty(),
    {
        let r = RoomManager { rooms: Vec::new(), peer_rooms: Vec::new() };
        proof {
            assert(r@.rooms =~= Map::<Seq<u8>, Seq<PeerInfoModel>>::empty());
            assert(r@.peer_rooms =~= Map::<Seq<u8>, Seq<u8>>::empty());
            assert(r@ =~= DirectoryModel::empty());
        }
        r
    }

    /// Index of the room filed under `code`, if any.
    fn find_room(&self, code: RoomCode) -> (r: Option<usize>)
        ensures
            r matches Some(i) ==> 0 <= i < self.rooms@.len() && i == first_idx(
                self.rooms@,
                room_key(),
                code@,
            ),
            r is None ==> first_idx(self.rooms@, room_key(), code@) == -1,
    {
        let mut i: usize = 0;
        while i < self.rooms.len()
            invariant
                0 <= i <= self.rooms@.len(),
                forall|j: int| 0 <= j < i ==> room_key()(#[trigger] self.rooms@[j]) != code@,
            decreases self.rooms@.len() - i,
        {
            if self.rooms[i].code == code {
                proof {
                    lemma_first_idx_props(self.rooms@, room_key(), code@);
                }
                return Some(i);
            }
            i = i + 1;
        }
        proof {
            lemma_first_idx_props(self.rooms@, room_key(), code@);
        }
        None
    }

    /// Index of the reverse entry of `peer_id`, if any.
    fn find_peer(&self, peer_id: PeerId) -> (r: Option<usize>)
        ensures
            r matches Some(k) ==> 0 <= k < self.peer_rooms@.len() && k == first_idx(
                self.peer_rooms@,
                entry_key(),
                peer_id@,
            ),
            r is None ==> first_idx(self.peer_rooms@, entry_key(), peer_id@) == -1,
    {
        let mut i: usize = 0;
        while i < self.peer_rooms.len()
            invariant
                0 <= i <= self.peer_rooms@.len(),
                forall|j: int| 0 <= j < i ==> entry_key()(#[trigger] self.peer_rooms@[j]) != peer_id@,
            decreases self.peer_rooms@.len() - i,
        {
            if self.peer_rooms[i].0 == peer_id {
                proof {
                    lemma_first_idx_props(self.peer_rooms@, entry_key(), peer_id@);
                }
                return Some(i);
            }
            i = i + 1;
        }
        proof {
            lemma_first_idx_props(self.peer_rooms@, entry_key(), peer_id@);
        }
        None
    }

    /// File `room` under its code, replacing what was there.
    fn upsert_room(&mut self, room: Room)
        requires
            old(self).wf(),
            distinct_keys(peers_model(room.peers@), member_key()),
        ensures
            final(self).wf(),
            final(self)@.rooms == old(self)@.rooms.insert(room.code@, peers_model(room.peers@)),
            final(self)@.peer_rooms == old(self)@.peer_rooms,
    {
        match self.find_room(room.code) {
            Some(i) => {
                proof {
                    lemma_first_idx_props(self.rooms@, room_key(), room.code@);
                    lemma_assoc_update(self.rooms@, room_key(), room_val(), i as int, room);
                }
                let ghost olds = self.rooms@;
                self.rooms.set(i, room);
                proof {
                    assert(self.rooms@ == olds.update(i as int, room));
                    assert forall|j: int|
                        0 <= j < self.rooms@.len() implies distinct_keys(
                        peers_model((#[trigger] self.rooms@[j]).peers@),
                        member_key(),
                    ) by {
                        if j != i {
                            assert(self.rooms@[j] == olds[j]);
                        }
                    }
                }
            },
            None => {
                proof {
                    lemma_assoc_push(self.rooms@, room_key(), room_val(), room);
                }
                let ghost olds = self.rooms@;
                self.rooms.push(room);
                proof {
                    assert(self.rooms@ == olds.push(room));
                    assert forall|j: int|
                        0 <= j < self.rooms@.len() implies distinct_keys(
                        peers_model((#[trigger] self.rooms@[j]).peers@),
                        member_key(),
                    ) by {
                        if j < olds.len() {
                            assert(self.rooms@[j] == olds[j]);
                        } else {
                            assert(self.rooms@[j] == room);
                        }
                    }
                }
            },
        }
    }

    /// Point the reverse entry of `peer_id` at `code`, replacing what
    /// was there.
    fn upsert_peer(&mut self, peer_id: PeerId, code: RoomCode)
        requires
            old(self).wf(),
        ensures
            final(self).wf(),
            final(self)@.peer_rooms == old(self)@.peer_rooms.insert(peer_id@, code@),
            final(self)@.rooms == old(self)@.rooms,
            final(self).rooms@ == old(self).rooms@,
    {
        match self.find_peer(peer_id) {
            Some(k) => {
                proof {
                    lemma_first_idx_props(self.peer_rooms@, entry_key(), peer_id@);
                    lemma_assoc_update(
                        self.peer_rooms@,
                        entry_key(),
                        entry_val(),
                        k as int,
                        (peer_id, code),
                    );
                }
                self.peer_rooms.set(k, (peer_id, code));
            },
            None => {
                proof {
                    lemma_assoc_push(self.peer_rooms@, entry_key(), entry_val(), (peer_id, code));
                }
                self.peer_rooms.push((peer_id, code));
            },
        }
    }

    /// Create a room: mint a fresh code and peer identifier, file the
    /// one-member room, and hand both back.
    pub fn create_room(&mut self, addr: Option<Vec<u8>>) -> (r: (RoomCode, PeerId))
        requires
            old(self).wf(),
        ensures
            final(self).wf(),
            r.0@.len() == 8,
            forall|j: int| 0 <= j < 8 ==> crate::types::is_code_byte(#[trigger] r.0@[j]),
            r.1@.len() == 13,
            exists|value: u32| r.1@ == crate::types::spec_peer_id_bytes(value),
            final(self)@ == spec_apply_create(
                old(self)@,
                r.0@,
                PeerInfoModel { id: r.1@, addr: addr_model(addr) },
            ),
    {
        let code = RoomCode::generate();
        let peer_id = PeerId::generate();
        let info = PeerInfo { id: peer_id, public_addr: addr };
        let ghost info_model = info@;
        let mut peers: Vec<PeerInfo> = Vec::new();
        peers.push(info);
        proof {
            assert(peers_model(peers@) =~= seq![info_model]);
        }
        let room = Room { code, peers };
        self.upsert_room(room);
        self.upsert_peer(peer_id, code);
        proof {
            assert(self@ =~= spec_apply_create(
                old(self)@,
                code@,
                PeerInfoModel { id: peer_id@, addr: addr_model(addr) },
            ));
        }
        (code, peer_id)
    }

    /// Join the room filed under `code`. On success the joiner gets a
    /// fresh identifier and the list of the members present just
    /// before it was added — the callers who must be told of the
    /// join, and never including the joiner itself.
    pub fn join_room(&mut self, code: RoomCode, addr: Option<Vec<u8>>) -> (r: Result<
        (PeerId, Vec<PeerInfo>),
        SignalingError,
    >)
        requires
            old(self).wf(),
        ensures
            final(self).wf(),
            r is Ok <==> old(self)@.rooms.dom().contains(code@),
            r matches Err(e) ==> (e matches SignalingError::RoomNotFound(c) && c@ == code@)
                && final(self)@ == old(self)@,
            r matches Ok(ok) ==> peers_model(ok.1@) == old(self)@.rooms[code@] && ok.0@.len() == 13
                && (exists|value: u32| ok.0@ == crate::types::spec_peer_id_bytes(value)) && final(self)@
                == spec_apply_join(
                old(self)@,
                code@,
                PeerInfoModel { id: ok.0@, addr: addr_model(addr) },
            ),
    {
        match self.find_room(code) {
            None => Err(SignalingError::RoomNotFound(code)),
            Some(i) => {
                proof {
                    lemma_first_idx_props(self.rooms@, room_key(), code@);
                }
                let room_code = self.rooms[i].code;
                let snapshot = clone_peers(&self.rooms[i].peers);
                let peer_id = PeerId::generate();
                let info = PeerInfo { id: peer_id, public_addr: addr };
                let ghost info_model = info@;
                let mut new_peers = clone_peers(&self.rooms[i].peers);
                insert_member_exec(&mut new_peers, info);
                let new_room = Room { code: room_code, peers: new_peers };
                proof {
                    assert(room_key()(new_room) == room_key()(self.rooms@[i as int]));
                }
                self.upsert_room(new_room);
                self.upsert_peer(peer_id, room_code);
                proof {
                    assert(self@ =~= spec_apply_join(
                        old(self)@,
                        code@,
                        PeerInfoModel { id: peer_id@, addr: addr_model(addr) },
                    ));
                }
                Ok((peer_id, snapshot))
            },
        }
    }

    /// Take a peer out of the directory: clear its reverse entry,
    /// remove it from its room, and delete the room if that emptied
    /// it. A peer with no reverse entry is a no-op, and nothing is
    /// ever sent to anyone.
    pub fn leave_room(&mut self, peer_id: PeerId)
        requires
            old(self).wf(),
        ensures
            final(self).wf(),
            final(self)@ == spec_apply_leave(old(self)@, peer_id@),
    {
        match self.find_peer(peer_id) {
            None => {
                proof {
                    assert(self@ =~= spec_apply_leave(old(self)@, peer_id@));
                }
            },
            Some(k) => {
                proof {
                    lemma_first_idx_props(self.peer_rooms@, entry_key(), peer_id@);
                    lemma_assoc_remove(self.peer_rooms@, entry_key(), entry_val(), k as int);
                }
                let code = self.peer_rooms[k].1;
                self.peer_rooms.remove(k);
                match self.find_room(code) {
                    None => {
                        proof {
                            assert(self@ =~= spec_apply_leave(old(self)@, peer_id@));
                        }
                    },
                    Some(i) => {
                        proof {
                            lemma_first_idx_props(self.rooms@, room_key(), code@);
                        }
                        let room_code = self.rooms[i].code;
                        let mut new_peers = clone_peers(&self.rooms[i].peers);
                        remove_member_exec(&mut new_peers, peer_id);
                        if new_peers.is_empty() {
                            proof {
                                lemma_assoc_remove(self.rooms@, room_key(), room_val(), i as int);
                            }
                            let ghost olds = self.rooms@;
                            self.rooms.remove(i);
                            proof {
                                assert forall|j: int|
                                    0 <= j < self.rooms@.len() implies distinct_keys(
                                    peers_model((#[trigger] self.rooms@[j]).peers@),
                                    member_key(),
                                ) by {
                                    olds.remove_ensures(i as int);
                                    if j < i {
                                        assert(self.rooms@[j] == olds[j]);
                                    } else {
                                        assert(self.rooms@[j] == olds[j + 1]);
                                    }
                                }
                                assert(self@ =~= spec_apply_leave(old(self)@, peer_id@));
                            }
                        } else {
                            let new_room = Room { code: room_code, peers: new_peers };
                            self.upsert_room(new_room);
                            proof {
                                assert(self@ =~= spec_apply_leave(old(self)@, peer_id@));
                            }
                        }
                    },
                }
            },
        }
    }
}

/// Insert a member into a list as [`insert_member`] says.
fn insert_member_exec(v: &mut Vec<PeerInfo>, p: PeerInfo)
    requires
        distinct_keys(peers_model(old(v)@), member_key()),
    ensures
        peers_model(final(v)@) == insert_member(peers_model(old(v)@), p@),
        distinct_keys(peers_model(final(v)@), member_key()),
{
    let ghost s = peers_model(v@);
    let mut i: usize = 0;
    while i < v.len()
        invariant
            0 <= i <= v@.len(),
            s == peers_model(v@),
            s == peers_model(old(v)@),
            distinct_keys(s, member_key()),
            forall|j: int| 0 <= j < i ==> member_key()(#[trigger] s[j]) != p@.id,
        decreases v@.len() - i,
    {
        if v[i].id == p.id {
            proof {
                lemma_first_idx_props(s, member_key(), p@.id);
                lemma_assoc_update(s, member_key(), member_key(), i as int, p@);
            }
            v.set(i, p);
            proof {
                assert(peers_model(v@) =~= s.update(i as int, p@));
            }
            return ;
        }
        i = i + 1;
    }
    proof {
        lemma_first_idx_props(s, member_key(), p@.id);
        lemma_assoc_push(s, member_key(), member_key(), p@);
    }
    v.push(p);
    proof {
        assert(peers_model(v@) =~= s.push(p@));
    }
}

/// Remove a member from a list as [`remove_member`] says.
fn remove_member_exec(v: &mut Vec<PeerInfo>, peer_id: PeerId)
    requires
        distinct_keys(peers_model(old(v)@), member_key()),
    ensures
        peers_model(final(v)@) == remove_member(peers_model(old(v)@), peer_id@),
        distinct_keys(peers_model(final(v)@), member_key()),
{
    let ghost s = peers_model(v@);
    let mut i: usize = 0;
    while i < v.len()
        invariant
            0 <= i <= v@.len(),
            s == peers_model(v@),
            s == peers_model(old(v)@),
            distinct_keys(s, member_key()),
            forall|j: int| 0 <= j < i ==> member_key()(#[trigger] s[j]) != peer_id@,
        decreases v@.len() - i,
    {
        if v[i].id == peer_id {
            proof {
                lemma_first_idx_props(s, member_key(), peer_id@);
                lemma_assoc_remove(s, member_key(), member_key(), i as int);
            }
            v.remove(i);
            proof {
                assert(peers_model(v@) =~= s.remove(i as int));
            }
            return ;
        }
        i = i + 1;
    }
    proof {
        lemma_first_idx_props(s, member_key(), peer_id@);
    }
}

/// Whether some member of `s` bears the identifier `pid`.
pub open spec fn has_member(s: Seq<PeerInfoModel>, pid: Seq<u8>) -> bool {
    exists|j: int| 0 <= j < s.len() && (#[trigger] s[j]).id == pid
}

/// The directory invariants: the two tables are mutually consistent,
/// no room is empty, and no room lists an identifier twice.
pub open spec fn directory_inv(m: DirectoryModel) -> bool {
    &&& forall|pid: Seq<u8>|
        #[trigger] m.peer_rooms.dom().contains(pid) ==> m.rooms.dom().contains(m.peer_rooms[pid])
            && has_member(m.rooms[m.peer_rooms[pid]], pid)
    &&& forall|code: Seq<u8>, j: int|
        #![trigger m.rooms.dom().contains(code), m.rooms[code][j]]
        m.rooms.dom().contains(code) && 0 <= j < m.rooms[code].len() ==> m.peer_rooms.dom().contains(
            m.rooms[code][j].id,
        ) && m.peer_rooms[m.rooms[code][j].id] == code
    &&& forall|code: Seq<u8>| #[trigger] m.rooms.dom().contains(code) ==> m.rooms[code].len() > 0
    &&& forall|code: Seq<u8>|
        #[trigger] m.rooms.dom().contains(code) ==> distinct_keys(m.rooms[code], member_key())
}

/// The invariants hold of the empty directory.
pub proof fn lemma_empty_inv()
    ensures
        directory_inv(DirectoryModel::empty()),
{
}

/// Fresh identifiers for a create: neither the code nor the peer
/// identifier is on file.
pub open spec fn fresh_for_create(m: DirectoryModel, code: Seq<u8>, pid: Seq<u8>) -> bool {
    !m.rooms.dom().contains(code) && !m.peer_rooms.dom().contains(pid)
}

/// A fresh identifier for a join: the peer identifier is not on file.
pub open spec fn fresh_for_join(m: DirectoryModel, pid: Seq<u8>) -> bool {
    !m.peer_rooms.dom().contains(pid)
}

/// A create with fresh identifiers preserves the invariants.
pub proof fn lemma_create_preserves_inv(m: DirectoryModel, code: Seq<u8>, peer: PeerInfoModel)
    requires
        directory_inv(m),
        fresh_for_create(m, code, peer.id),
    ensures
        directory_inv(spec_apply_create(m, code, peer)),
{
    let m2 = spec_apply_create(m, code, peer);
    assert(m2.rooms[code] == seq![peer]);
    assert(m2.rooms[code][0].id == peer.id);
    assert forall|pid: Seq<u8>| #[trigger] m2.peer_rooms.dom().contains(pid) implies m2
        .rooms
        .dom()
        .contains(m2.peer_rooms[pid]) && has_member(m2.rooms[m2.peer_rooms[pid]], pid) by {
        if pid == peer.id {
            assert(m2.rooms[code][0].id == pid);
        } else {
            assert(m.peer_rooms.dom().contains(pid));
            let c = m.peer_rooms[pid];
            assert(c != code);
            assert(m2.rooms[c] == m.rooms[c]);
        }
    }
    assert forall|code2: Seq<u8>, j: int|
        m2.rooms.dom().contains(code2) && 0 <= j < m2.rooms[code2].len() implies m2
        .peer_rooms
        .dom()
        .contains((#[trigger] m2.rooms[code2][j]).id) && m2.peer_rooms[m2.rooms[code2][j].id]
        == code2 by {
        if code2 == code {
            assert(j == 0);
            assert(m2.rooms[code2][j].id == peer.id);
        } else {
            assert(m2.rooms[code2] == m.rooms[code2]);
            assert(m.rooms.dom().contains(code2));
            let id = m.rooms[code2][j].id;
            assert(m.peer_rooms.dom().contains(id) && m.peer_rooms[id] == code2);
            assert(id != peer.id);
        }
    }
    assert forall|code2: Seq<u8>| #[trigger] m2.rooms.dom().contains(code2) implies m2
        .rooms[code2]
        .len() > 0 && distinct_keys(m2.rooms[code2], member_key()) by {
        if code2 != code {
            assert(m2.rooms[code2] == m.rooms[code2]);
            assert(m.rooms.dom().contains(code2));
        }
    }
}

/// A member list never lists an identifier that the reverse index
/// does not know; so a fresh joiner is absent from the pre-join
/// member list — the joiner is never its own audience.
pub proof fn lemma_join_snapshot_excludes_joiner(m: DirectoryModel, code: Seq<u8>, pid: Seq<u8>)
    requires
        directory_inv(m),
        m.rooms.dom().contains(code),
        fresh_for_join(m, pid),
    ensures
        forall|j: int| 0 <= j < m.rooms[code].len() ==> (#[trigger] m.rooms[code][j]).id != pid,
{
    assert forall|j: int| 0 <= j < m.rooms[code].len() implies (#[trigger] m.rooms[code][j]).id
        != pid by {
        if m.rooms[code][j].id == pid {
            assert(m.peer_rooms.dom().contains(m.rooms[code][j].id));
        }
    }
}

/// A join of a fresh peer into an existing room preserves the
/// invariants.
pub proof fn lemma_join_preserves_inv(m: DirectoryModel, code: Seq<u8>, peer: PeerInfoModel)
    requires
        directory_inv(m),
        m.rooms.dom().contains(code),
        fresh_for_join(m, peer.id),
    ensures
        directory_inv(spec_apply_join(m, code, peer)),
{
    let m2 = spec_apply_join(m, code, peer);
    let members = m.rooms[code];
    lemma_join_snapshot_excludes_joiner(m, code, peer.id);
    lemma_first_idx_props(members, member_key(), peer.id);
    assert(first_idx(members, member_key(), peer.id) == -1);
    let members2 = members.push(peer);
    assert(insert_member(members, peer) == members2);
    assert(m2.rooms[code] == members2);
    assert forall|pid: Seq<u8>| #[trigger] m2.peer_rooms.dom().contains(pid) implies m2
        .rooms
        .dom()
        .contains(m2.peer_rooms[pid]) && has_member(m2.rooms[m2.peer_rooms[pid]], pid) by {
        if pid == peer.id {
            assert(members2[members.len() as int].id == pid);
        } else {
            assert(m.peer_rooms.dom().contains(pid));
            let c = m.peer_rooms[pid];
            if c == code {
                let j = choose|j: int| 0 <= j < members.len() && (#[trigger] members[j]).id == pid;
                assert(members2[j].id == pid);
            } else {
                assert(m2.rooms[c] == m.rooms[c]);
            }
        }
    }
    assert forall|code2: Seq<u8>, j: int|
        m2.rooms.dom().contains(code2) && 0 <= j < m2.rooms[code2].len() implies m2
        .peer_rooms
        .dom()
        .contains((#[trigger] m2.rooms[code2][j]).id) && m2.peer_rooms[m2.rooms[code2][j].id]
        == code2 by {
        if code2 == code {
            if j < members.len() {
                assert(members2[j] == members[j]);
                assert(m.peer_rooms.dom().contains(members[j].id));
                assert(members[j].id != peer.id);
            } else {
                assert(members2[j] == peer);
            }
        } else {
            assert(m2.rooms[code2] == m.rooms[code2]);
            assert(m.rooms.dom().contains(code2));
            let id = m.rooms[code2][j].id;
            assert(m.peer_rooms.dom().contains(id) && m.peer_rooms[id] == code2);
            assert(id != peer.id);
        }
    }
    assert forall|code2: Seq<u8>| #[trigger] m2.rooms.dom().contains(code2) implies m2
        .rooms[code2]
        .len() > 0 && distinct_keys(m2.rooms[code2], member_key()) by {
        if code2 == code {
            assert forall|x: int, y: int|
                0 <= x < y < members2.len() implies member_key()(#[trigger] members2[x])
                != member_key()(#[trigger] members2[y]) by {
                if y < members.len() {
                    assert(members2[x] == members[x]);
                    assert(members2[y] == members[y]);
                } else {
                    assert(members2[x] == members[x]);
                    assert(members2[y] == peer);
                    assert(members[x].id != peer.id);
                }
            }
        } else {
            assert(m2.rooms[code2] == m.rooms[code2]);
            assert(m.rooms.dom().contains(code2));
        }
    }
}

/// A leave preserves the invariants, whatever its argument.
pub proof fn lemma_leave_preserves_inv(m: DirectoryModel, pid: Seq<u8>)
    requires
        directory_inv(m),
    ensures
        directory_inv(spec_apply_leave(m, pid)),
{
    if !m.peer_rooms.dom().contains(pid) {
        return ;
    }
    let code = m.peer_rooms[pid];
    let m2 = spec_apply_leave(m, pid);
    let members = m.rooms[code];
    lemma_first_idx_props(members, member_key(), pid);
    let fi = first_idx(members, member_key(), pid);
    assert(has_member(members, pid));
    assert(fi >= 0) by {
        if fi == -1 {
            let j = choose|j: int| 0 <= j < members.len() && (#[trigger] members[j]).id == pid;
            assert(member_key()(members[j]) == pid);
        }
    }
    let remaining = members.remove(fi);
    assert(remove_member(members, pid) == remaining);
    members.remove_ensures(fi);
    assert forall|j: int| 0 <= j < remaining.len() implies #[trigger] remaining[j] == (if j < fi {
        members[j]
    } else {
        members[j + 1]
    }) by {}
    // no member other than the leaver bears its identifier
    assert forall|j: int| 0 <= j < remaining.len() implies (#[trigger] remaining[j]).id != pid by {
        if j < fi {
            assert(member_key()(members[j]) != pid);
        } else {
            assert(distinct_keys(members, member_key()));
            assert(member_key()(members[fi]) == pid);
            assert(member_key()(members[j + 1]) != member_key()(members[fi]));
        }
    }
    if remaining.len() == 0 {
        // the room goes away; nobody else was in it
        assert forall|pid2: Seq<u8>| #[trigger] m2.peer_rooms.dom().contains(pid2) implies m2
            .rooms
            .dom()
            .contains(m2.peer_rooms[pid2]) && has_member(m2.rooms[m2.peer_rooms[pid2]], pid2) by {
            assert(pid2 != pid);
            let c = m.peer_rooms[pid2];
            if c == code {
                let j = choose|j: int|
                    0 <= j < members.len() && (#[trigger] members[j]).id == pid2;
                assert(members.len() == 1);
                assert(j == fi);
                assert(false);
            } else {
                assert(m2.rooms[c] == m.rooms[c]);
            }
        }
        assert forall|code2: Seq<u8>, j: int|
            m2.rooms.dom().contains(code2) && 0 <= j < m2.rooms[code2].len() implies m2
            .peer_rooms
            .dom()
            .contains((#[trigger] m2.rooms[code2][j]).id) && m2.peer_rooms[m2.rooms[code2][j].id]
            == code2 by {
            assert(code2 != code);
            assert(m2.rooms[code2] == m.rooms[code2]);
            assert(m.rooms.dom().contains(code2));
            let id = m.rooms[code2][j].id;
            assert(m.peer_rooms.dom().contains(id) && m.peer_rooms[id] == code2);
            assert(id != pid);
        }
        assert forall|code2: Seq<u8>| #[trigger] m2.rooms.dom().contains(code2) implies m2
            .rooms[code2]
            .len() > 0 && distinct_keys(m2.rooms[code2], member_key()) by {
            assert(code2 != code);
            assert(m2.rooms[code2] == m.rooms[code2]);
            assert(m.rooms.dom().contains(code2));
        }
    } else {
        assert forall|pid2: Seq<u8>| #[trigger] m2.peer_rooms.dom().contains(pid2) implies m2
            .rooms
            .dom()
            .contains(m2.peer_rooms[pid2]) && has_member(m2.rooms[m2.peer_rooms[pid2]], pid2) by {
            assert(pid2 != pid);
            let c = m.peer_rooms[pid2];
            if c == code {
                let j = choose|j: int|
                    0 <= j < members.len() && (#[trigger] members[j]).id == pid2;
                assert(j != fi);
                if j < fi {
                    assert(remaining[j].id == pid2);
                } else {
                    assert(remaining[j - 1].id == pid2);
                }
            } else {
                assert(m2.rooms[c] == m.rooms[c]);
            }
        }
        assert forall|code2: Seq<u8>, j: int|
            m2.rooms.dom().contains(code2) && 0 <= j < m2.rooms[code2].len() implies m2
            .peer_rooms
            .dom()
            .contains((#[trigger] m2.rooms[code2][j]).id) && m2.peer_rooms[m2.rooms[code2][j].id]
            == code2 by {
            if code2 == code {
                let id = remaining[j].id;
                assert(id != pid);
                let j0 = if j < fi {
                    j
                } else {
                    j + 1
                };
                assert(members[j0].id == id);
                assert(m.peer_rooms.dom().contains(id) && m.peer_rooms[id] == code);
            } else {
                assert(m2.rooms[code2] == m.rooms[code2]);
                assert(m.rooms.dom().contains(code2));
                let id = m.rooms[code2][j].id;
                assert(m.peer_rooms.dom().contains(id) && m.peer_rooms[id] == code2);
                assert(id != pid);
            }
        }
        assert forall|code2: Seq<u8>| #[trigger] m2.rooms.dom().contains(code2) implies m2
            .rooms[code2]
            .len() > 0 && distinct_keys(m2.rooms[code2], member_key()) by {
            if code2 == code {
                assert forall|x: int, y: int|
                    0 <= x < y < remaining.len() implies member_key()(#[trigger] remaining[x])
                    != member_key()(#[trigger] remaining[y]) by {
                    let x0 = if x < fi {
                        x
                    } else {
                        x + 1
                    };
                    let y0 = if y < fi {
                        y
                    } else {
                        y + 1
                    };
                    assert(remaining[x] == members[x0]);
                    assert(remaining[y] == members[y0]);
                    assert(x0 < y0);
                }
            } else {
                assert(m2.rooms[code2] == m.rooms[code2]);
                assert(m.rooms.dom().contains(code2));
            }
        }
    }
}

/// A second leave of the same peer is a no-op: the first clears the
/// reverse entry, so the second finds nothing to do.
pub proof fn lemma_leave_twice(m: DirectoryModel, pid: Seq<u8>)
    ensures
        spec_apply_leave(spec_apply_leave(m, pid), pid) == spec_apply_leave(m, pid),
{
    let m2 = spec_apply_leave(m, pid);
    assert(!m2.peer_rooms.dom().contains(pid));
}

/// One actor command, as mathematics.
pub ghost enum CommandModel {
    Create { code: Seq<u8>, peer: PeerInfoModel },
    Join { code: Seq<u8>, peer: PeerInfoModel },
    Leave { pid: Seq<u8> },
}

/// The step a command makes on the directory. A join to a code not
/// on file is refused and changes nothing.
pub open spec fn spec_step(m: DirectoryModel, c: CommandModel) -> DirectoryModel {
    match c {
        CommandModel::Create { code, peer } => spec_apply_create(m, code, peer),
        CommandModel::Join { code, peer } => if m.rooms.dom().contains(code) {
            spec_apply_join(m, code, peer)
        } else {
            m
        },
        CommandModel::Leave { pid } => spec_apply_leave(m, pid),
    }
}

/// Whether a command's minted identifiers are fresh for the state it
/// meets. Leaves need nothing.
pub open spec fn step_fresh(m: DirectoryModel, c: CommandModel) -> bool {
    match c {
        CommandModel::Create { code, peer } => fresh_for_create(m, code, peer.id),
        CommandModel::Join { code, peer } => fresh_for_join(m, peer.id),
        CommandModel::Leave { pid } => true,
    }
}

/// The directory after a sequence of commands.
pub open spec fn spec_run(m: DirectoryModel, cs: Seq<CommandModel>) -> DirectoryModel
    decreases cs.len(),
{
    if cs.len() == 0 {
        m
    } else {
        spec_run(spec_step(m, cs[0]), cs.drop_first())
    }
}

/// Whether every command of a sequence meets its state with fresh
/// identifiers.
pub open spec fn run_fresh(m: DirectoryModel, cs: Seq<CommandModel>) -> bool
    decreases cs.len(),
{
    cs.len() == 0 || (step_fresh(m, cs[0]) && run_fresh(spec_step(m, cs[0]), cs.drop_first()))
}

/// After any sequence of actor commands whose minted identifiers are
/// fresh, the directory invariants still hold: the two tables agree
/// and no empty room exists.
pub proof fn lemma_run_preserves_inv(m: DirectoryModel, cs: Seq<CommandModel>)
    requires
        directory_inv(m),
        run_fresh(m, cs),
    ensures
        directory_inv(spec_run(m, cs)),
    decreases cs.len(),
{
    if cs.len() > 0 {
        let m2 = spec_step(m, cs[0]);
        match cs[0] {
            CommandModel::Create { code, peer } => {
                lemma_create_preserves_inv(m, code, peer);
            },
            CommandModel::Join { code, peer } => {
                if m.rooms.dom().contains(code) {
                    lemma_join_preserves_inv(m, code, peer);
                }
            },
            CommandModel::Leave { pid } => {
                lemma_leave_preserves_inv(m, pid);
            },
        }
        lemma_run_preserves_inv(m2, cs.drop_first());
    }
}

} // verus!
