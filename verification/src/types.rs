//! Identifier types of the signaling service: room codes, peer
//! identifiers, and the peer record the directory hands around.

use vstd::prelude::*;
use vstd::std_specs::cmp::PartialEqSpec;
use vstd::string::StringSliceAdditionalSpecFns;
use vstd::utf8::{encode_utf8, valid_utf8};

verus! {

/// Fixed width of a room code.
pub const ROOM_CODE_LEN: usize = 8;

/// Fixed width of a generated peer identifier: `"peer_"` + 8 hex.
pub const PEER_ID_LEN: usize = 13;

/// Number of distinct room-code characters: `a`..`z` and `0`..`9`.
pub const ROOM_CODE_ALPHABET: u8 = 36;

/// Relies on rand::random_range: yields a value drawn from the given
/// range, which must be non-empty.
#[verifier::external_body]
fn random_index(bound: u8) -> (r: u8)
    requires
        0 < bound,
    ensures
        r < bound,
{
    rand::random_range(0..bound)
}

/// Relies on rand::random: draws a fresh 32-bit value. Nothing is
/// promised of it.
#[verifier::external_body]
fn random_u32() -> u32 {
    rand::random::<u32>()
}

/// Relies on String::from_utf8: succeeds exactly on valid UTF-8
/// input, and the returned characters encode back to the input bytes.
#[verifier::external_body]
fn string_from_utf8(v: Vec<u8>) -> (r: Option<String>)
    ensures
        r is Some <==> valid_utf8(v@),
        r matches Some(s) ==> encode_utf8(s@) == v@,
{
    String::from_utf8(v).ok()
}

/// Whether a byte is a room-code character: `a`..`z` or `0`..`9`.
pub open spec fn is_code_byte(b: u8) -> bool {
    (0x61 <= b <= 0x7A) || (0x30 <= b <= 0x39)
}

/// The room-code character with the given index in the alphabet
/// `abcdefghijklmnopqrstuvwxyz0123456789`.
pub open spec fn spec_code_byte(idx: u8) -> u8
    recommends
        idx < 36,
{
    if idx < 26 {
        (0x61 + idx) as u8
    } else {
        (0x30 + (idx - 26)) as u8
    }
}

/// The room-code character with the given alphabet index.
fn code_byte(idx: u8) -> (b: u8)
    requires
        idx < 36,
    ensures
        b == spec_code_byte(idx),
        is_code_byte(b),
{
    if idx < 26 {
        0x61 + idx
    } else {
        0x30 + (idx - 26)
    }
}

/// Whether a byte is a lowercase hex digit.
pub open spec fn is_hex_byte(b: u8) -> bool {
    (0x30 <= b <= 0x39) || (0x61 <= b <= 0x66)
}

/// The lowercase hex digit for a nibble, high digits as `a`..`f`.
pub open spec fn spec_hex_byte(nibble: u32) -> u8
    recommends
        nibble < 16,
{
    if nibble < 10 {
        (0x30 + nibble) as u8
    } else {
        (0x61 + (nibble - 10)) as u8
    }
}

/// The lowercase hex digit for a nibble.
pub fn hex_byte(nibble: u32) -> (b: u8)
    requires
        nibble < 16,
    ensures
        b == spec_hex_byte(nibble),
        is_hex_byte(b),
{
    if nibble < 10 {
        0x30 + (nibble as u8)
    } else {
        0x61 + ((nibble - 10) as u8)
    }
}

/// A room code: up to eight bytes, fixed eight when generated,
/// compared and rendered as bytes. Opaque equality.
#[derive(Clone, Copy, Debug, Hash)]
pub struct RoomCode {
    bytes: [u8; 8],
    len: u8,
}

impl View for RoomCode {
    type V = Seq<u8>;

    /// A room code is the sequence of its meaningful bytes.
    closed spec fn view(&self) -> Seq<u8> {
        self.bytes@.take(self.len as int)
    }
}

impl RoomCode {
    /// The slack beyond `len` stays zero, so codes with equal views
    /// are equal values.
    #[verifier::type_invariant]
    closed spec fn wf(self) -> bool {
        self.len <= 8 && (forall|j: int| self.len <= j < 8 ==> self.bytes@[j] == 0)
    }

    /// Generate a fresh eight-character code, uniformly random over
    /// `a`..`z` and `0`..`9`.
    pub fn generate() -> (r: RoomCode)
        ensures
            r@.len() == ROOM_CODE_LEN,
            forall|j: int| 0 <= j < 8 ==> is_code_byte(#[trigger] r@[j]),
    {
        let mut bytes = [0u8; 8];
        let mut i: usize = 0;
        while i < 8
            invariant
                0 <= i <= 8,
                forall|j: int| 0 <= j < i ==> is_code_byte(#[trigger] bytes@[j]),
            decreases 8 - i,
        {
            let idx = random_index(ROOM_CODE_ALPHABET);
            bytes[i] = code_byte(idx);
            i = i + 1;
        }
        let r = RoomCode { bytes, len: 8 };
        proof {
            assert(r@ =~= bytes@);
        }
        r
    }

    /// Coerce raw bytes into a code: up to eight bytes are taken,
    /// anything longer is cut off.
    pub fn from_bytes(src: &[u8]) -> (r: RoomCode)
        ensures
            r@ == if src@.len() <= 8 {
                src@
            } else {
                src@.take(8)
            },
    {
        let mut bytes = [0u8; 8];
        let len: usize = if src.len() < 8 {
            src.len()
        } else {
            8
        };
        let mut i: usize = 0;
        while i < len
            invariant
                0 <= i <= len,
                len <= 8,
                len <= src@.len(),
                forall|j: int| 0 <= j < i ==> bytes@[j] == src@[j],
                forall|j: int| i <= j < 8 ==> bytes@[j] == 0,
            decreases len - i,
        {
            bytes[i] = src[i];
            i = i + 1;
        }
        let r = RoomCode { bytes, len: len as u8 };
        proof {
            if src@.len() <= 8 {
                assert(r@ =~= src@);
            } else {
                assert(r@ =~= src@.take(8));
            }
        }
        r
    }

    /// The code as text. Codes made of valid UTF-8 bytes render as
    /// exactly those bytes; anything else renders empty.
    pub fn as_str(&self) -> (r: String)
        ensures
            valid_utf8(self@) ==> encode_utf8(r@) == self@,
            !valid_utf8(self@) ==> r@ == Seq::<char>::empty(),
    {
        proof {
            use_type_invariant(self);
        }
        let mut v: Vec<u8> = Vec::new();
        let len = self.len as usize;
        let mut i: usize = 0;
        while i < len
            invariant
                0 <= i <= len,
                len <= 8,
                self.wf(),
                len == self.len as int,
                v@ == self@.take(i as int),
            decreases len - i,
        {
            let b = self.bytes[i];
            v.push(b);
            proof {
                assert(v@ =~= self@.take(i + 1));
            }
            i = i + 1;
        }
        proof {
            assert(v@ =~= self@);
        }
        match string_from_utf8(v) {
            Some(s) => s,
            None => String::new(),
        }
    }

    /// The code's meaningful bytes.
    pub fn to_vec(&self) -> (r: Vec<u8>)
        ensures
            r@ == self@,
    {
        proof {
            use_type_invariant(self);
        }
        let mut v: Vec<u8> = Vec::new();
        let len = self.len as usize;
        let mut i: usize = 0;
        while i < len
            invariant
                0 <= i <= len,
                len <= 8,
                self.wf(),
                len == self.len as int,
                v@ == self@.take(i as int),
            decreases len - i,
        {
            v.push(self.bytes[i]);
            proof {
                assert(v@ =~= self@.take(i + 1));
            }
            i = i + 1;
        }
        proof {
            assert(v@ =~= self@);
        }
        v
    }
}

impl PartialEq for RoomCode {
    /// Byte-for-byte comparison of the meaningful bytes.
    fn eq(&self, other: &RoomCode) -> (r: bool) {
        proof {
            use_type_invariant(self);
            use_type_invariant(other);
        }
        if self.len != other.len {
            proof {
                assert(self@.len() != other@.len());
            }
            return false;
        }
        let mut i: usize = 0;
        while i < 8
            invariant
                0 <= i <= 8,
                self.wf(),
                other.wf(),
                self.len == other.len,
                forall|j: int| 0 <= j < i ==> self.bytes@[j] == other.bytes@[j],
            decreases 8 - i,
        {
            if self.bytes[i] != other.bytes[i] {
                proof {
                    if i < self.len {
                        assert(self@[i as int] != other@[i as int]);
                    }
                }
                return false;
            }
            i = i + 1;
        }
        proof {
            assert(self@ =~= other@);
        }
        true
    }
}

impl vstd::std_specs::cmp::PartialEqSpecImpl for RoomCode {
    open spec fn obeys_eq_spec() -> bool {
        true
    }

    open spec fn eq_spec(&self, other: &RoomCode) -> bool {
        self@ == other@
    }
}

impl Eq for RoomCode {

}

impl From<&str> for RoomCode {
    /// Coerce text into a code, taking at most its first eight bytes.
    fn from(s: &str) -> (r: RoomCode)
        ensures
            r@ == if s.spec_bytes().len() <= 8 {
                s.spec_bytes()
            } else {
                s.spec_bytes().take(8)
            },
    {
        RoomCode::from_bytes(s.as_bytes())
    }
}

impl vstd::std_specs::convert::FromSpecImpl<&str> for RoomCode {
    open spec fn obeys_from_spec() -> bool {
        false
    }

    open spec fn from_spec(s: &str) -> RoomCode {
        vstd::pervasive::arbitrary()
    }
}

/// A peer identifier: up to thirteen bytes; a generated one is
/// `"peer_"` followed by eight lowercase hex digits.
#[derive(Clone, Copy, Debug, Hash)]
pub struct PeerId {
    bytes: [u8; 13],
    len: u8,
}

impl View for PeerId {
    type V = Seq<u8>;

    /// A peer identifier is the sequence of its meaningful bytes.
    closed spec fn view(&self) -> Seq<u8> {
        self.bytes@.take(self.len as int)
    }
}

/// The bytes of the peer identifier minted from a 32-bit value:
/// `"peer_"`, then the value's eight nibbles, high nibble first, as
/// lowercase hex.
pub open spec fn spec_peer_id_bytes(value: u32) -> Seq<u8> {
    seq![0x70u8, 0x65, 0x65, 0x72, 0x5F] + Seq::new(
        8,
        |i: int| spec_hex_byte((value >> ((28 - 4 * i) as u32)) & 0xF),
    )
}

impl PeerId {
    /// The slack beyond `len` stays zero, so identifiers with equal
    /// views are equal values.
    #[verifier::type_invariant]
    closed spec fn wf(self) -> bool {
        self.len <= 13 && (forall|j: int| self.len <= j < 13 ==> self.bytes@[j] == 0)
    }

    /// Mint a fresh identifier from a random 32-bit value.
    pub fn generate() -> (r: PeerId)
        ensures
            exists|value: u32| r@ == spec_peer_id_bytes(value),
            r@.len() == PEER_ID_LEN,
    {
        let mut bytes = [0u8; 13];
        bytes[0] = 0x70;
        bytes[1] = 0x65;
        bytes[2] = 0x65;
        bytes[3] = 0x72;
        bytes[4] = 0x5F;
        let value = random_u32();
        let mut i: usize = 0;
        while i < 8
            invariant
                0 <= i <= 8,
                bytes@[0] == 0x70u8,
                bytes@[1] == 0x65u8,
                bytes@[2] == 0x65u8,
                bytes@[3] == 0x72u8,
                bytes@[4] == 0x5Fu8,
                forall|j: int|
                    5 <= j < 5 + i ==> #[trigger] bytes@[j] == spec_hex_byte(
                        (value >> ((28 - 4 * (j - 5)) as u32)) & 0xF,
                    ),
            decreases 8 - i,
        {
            let shift: u32 = 28 - 4 * (i as u32);
            let nibble: u32 = (value >> shift) & 0xF;
            proof {
                assert((value >> shift) & 0xF < 16) by (bit_vector);
            }
            bytes[5 + i] = hex_byte(nibble);
            i = i + 1;
        }
        let r = PeerId { bytes, len: 13 };
        proof {
            assert(r@ =~= spec_peer_id_bytes(value));
        }
        r
    }

    /// Coerce raw bytes into an identifier: up to thirteen bytes are
    /// taken, anything longer is cut off.
    pub fn from_bytes(src: &[u8]) -> (r: PeerId)
        ensures
            r@ == if src@.len() <= 13 {
                src@
            } else {
                src@.take(13)
            },
    {
        let mut bytes = [0u8; 13];
        let len: usize = if src.len() < 13 {
            src.len()
        } else {
            13
        };
        let mut i: usize = 0;
        while i < len
            invariant
                0 <= i <= len,
                len <= 13,
                len <= src@.len(),
                forall|j: int| 0 <= j < i ==> bytes@[j] == src@[j],
                forall|j: int| i <= j < 13 ==> bytes@[j] == 0,
            decreases len - i,
        {
            bytes[i] = src[i];
            i = i + 1;
        }
        let r = PeerId { bytes, len: len as u8 };
        proof {
            if src@.len() <= 13 {
                assert(r@ =~= src@);
            } else {
                assert(r@ =~= src@.take(13));
            }
        }
        r
    }

    /// The identifier as text. Identifiers made of valid UTF-8 bytes
    /// render as exactly those bytes; anything else renders empty.
    pub fn as_str(&self) -> (r: String)
        ensures
            valid_utf8(self@) ==> encode_utf8(r@) == self@,
            !valid_utf8(self@) ==> r@ == Seq::<char>::empty(),
    {
        proof {
            use_type_invariant(self);
        }
        let mut v: Vec<u8> = Vec::new();
        let len = self.len as usize;
        let mut i: usize = 0;
        while i < len
            invariant
                0 <= i <= len,
                len <= 13,
                self.wf(),
                len == self.len as int,
                v@ == self@.take(i as int),
            decreases len - i,
        {
            let b = self.bytes[i];
            v.push(b);
            proof {
                assert(v@ =~= self@.take(i + 1));
            }
            i = i + 1;
        }
        proof {
            assert(v@ =~= self@);
        }
        match string_from_utf8(v) {
            Some(s) => s,
            None => String::new(),
        }
    }

    /// The identifier's meaningful bytes.
    pub fn to_vec(&self) -> (r: Vec<u8>)
        ensures
            r@ == self@,
    {
        proof {
            use_type_invariant(self);
        }
        let mut v: Vec<u8> = Vec::new();
        let len = self.len as usize;
        let mut i: usize = 0;
        while i < len
            invariant
                0 <= i <= len,
                len <= 13,
                self.wf(),
                len == self.len as int,
                v@ == self@.take(i as int),
            decreases len - i,
        {
            v.push(self.bytes[i]);
            proof {
                assert(v@ =~= self@.take(i + 1));
            }
            i = i + 1;
        }
        proof {
            assert(v@ =~= self@);
        }
        v
    }
}

impl PartialEq for PeerId {
    /// Byte-for-byte comparison of the meaningful bytes.
    fn eq(&self, other: &PeerId) -> (r: bool) {
        proof {
            use_type_invariant(self);
            use_type_invariant(other);
        }
        if self.len != other.len {
            proof {
                assert(self@.len() != other@.len());
            }
            return false;
        }
        let mut i: usize = 0;
        while i < 13
            invariant
                0 <= i <= 13,
                self.wf(),
                other.wf(),
                self.len == other.len,
                forall|j: int| 0 <= j < i ==> self.bytes@[j] == other.bytes@[j],
            decreases 13 - i,
        {
            if self.bytes[i] != other.bytes[i] {
                proof {
                    if i < self.len {
                        assert(self@[i as int] != other@[i as int]);
                    }
                }
                return false;
            }
            i = i + 1;
        }
        proof {
            assert(self@ =~= other@);
        }
        true
    }
}

impl vstd::std_specs::cmp::PartialEqSpecImpl for PeerId {
    open spec fn obeys_eq_spec() -> bool {
        true
    }

    open spec fn eq_spec(&self, other: &PeerId) -> bool {
        self@ == other@
    }
}

impl Eq for PeerId {

}

impl From<&str> for PeerId {
    /// Coerce text into an identifier, taking at most its first
    /// thirteen bytes.
    fn from(s: &str) -> (r: PeerId)
        ensures
            r@ == if s.spec_bytes().len() <= 13 {
                s.spec_bytes()
            } else {
                s.spec_bytes().take(13)
            },
    {
        PeerId::from_bytes(s.as_bytes())
    }
}

impl vstd::std_specs::convert::FromSpecImpl<&str> for PeerId {
    open spec fn obeys_from_spec() -> bool {
        false
    }

    open spec fn from_spec(s: &str) -> PeerId {
        vstd::pervasive::arbitrary()
    }
}

/// What the directory publishes of one peer: its identifier and the
/// transport address the listener observed, rendered as text, if any.
#[derive(Debug)]
pub struct PeerInfo {
    pub id: PeerId,
    pub public_addr: Option<Vec<u8>>,
}

/// The mathematical content of a [`PeerInfo`].
#[verifier::ext_equal]
pub ghost struct PeerInfoModel {
    pub id: Seq<u8>,
    pub addr: Option<Seq<u8>>,
}

impl View for PeerInfo {
    type V = PeerInfoModel;

    open spec fn view(&self) -> PeerInfoModel {
        PeerInfoModel {
            id: self.id@,
            addr: match self.public_addr {
                Some(a) => Some(a@),
                None => None,
            },
        }
    }
}

impl Clone for PeerInfo {
    /// A clone carries the same identifier and address.
    fn clone(&self) -> (res: Self)
        ensures
            res@ == self@,
    {
        let public_addr = match &self.public_addr {
            Some(a) => {
                let mut c: Vec<u8> = Vec::new();
                let mut i: usize = 0;
                while i < a.len()
                    invariant
                        0 <= i <= a@.len(),
                        c@ == a@.take(i as int),
                    decreases a@.len() - i,
                {
                    c.push(a[i]);
                    proof {
                        assert(c@ =~= a@.take(i + 1));
                    }
                    i = i + 1;
                }
                proof {
                    assert(c@ =~= a@);
                }
                Some(c)
            },
            None => None,
        };
        let res = PeerInfo { id: self.id, public_addr };
        proof {
            assert(res@ =~= self@);
        }
        res
    }
}

/// Signaling domain errors surfaced to a client.
#[derive(Debug)]
pub enum SignalingError {
    /// No room is filed under the given code.
    RoomNotFound(RoomCode),
    /// The service itself failed; the reason is carried as text.
    Internal(String),
}

} // verus!
