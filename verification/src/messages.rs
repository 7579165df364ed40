//! The signaling wire vocabulary: tagged JSON objects carried one
//! per text frame, and the byte-level codec for them.
//!
//! The encoder pins every byte of every server message; the decoder
//! accepts the client vocabulary with arbitrary whitespace, field
//! order and unknown fields, as a tolerant JSON reader would.

use vstd::prelude::*;
use vstd::string::StringSliceAdditionalSpecFns;
use vstd::utf8::{encode_utf8, is_ascii_chars};

use crate::types::{spec_hex_byte, PeerId, PeerInfo, PeerInfoModel, RoomCode, SignalingError};
use crate::actor::peers_model;

verus! {

/// The bytes of an ASCII character sequence, one byte per character.
pub open spec fn s2b(s: Seq<char>) -> Seq<u8> {
    Seq::new(s.len(), |i: int| s[i] as u8)
}

/// Append a byte slice.
fn push_bytes(out: &mut Vec<u8>, src: &[u8])
    ensures
        final(out)@ == old(out)@ + src@,
{
    let mut i: usize = 0;
    while i < src.len()
        invariant
            0 <= i <= src@.len(),
            out@ == old(out)@ + src@.take(i as int),
        decreases src@.len() - i,
    {
        out.push(src[i]);
        proof {
            assert(old(out)@ + src@.take(i + 1) =~= (old(out)@ + src@.take(i as int)).push(
                src@[i as int],
            ));
        }
        i = i + 1;
    }
    proof {
        assert(out@ =~= old(out)@ + src@);
    }
}

/// Append an ASCII literal.
fn push_lit(out: &mut Vec<u8>, s: &str)
    requires
        is_ascii_chars(s@),
    ensures
        final(out)@ == old(out)@ + s2b(s@),
{
    proof {
        vstd::utf8::is_ascii_chars_encode_utf8(s@);
        assert(s.spec_bytes() =~= s2b(s@));
    }
    let b = s.as_bytes();
    push_bytes(out, b);
}

/// How one byte of a string renders inside a JSON string: quote,
/// backslash and the named controls escape to two characters, other
/// controls to a `\u00XX` form, and everything else to itself.
pub open spec fn esc_byte(b: u8) -> Seq<u8> {
    if b == 0x22 {
        seq![0x5Cu8, 0x22]
    } else if b == 0x5C {
        seq![0x5Cu8, 0x5C]
    } else if b == 0x08 {
        seq![0x5Cu8, 0x62]
    } else if b == 0x09 {
        seq![0x5Cu8, 0x74]
    } else if b == 0x0A {
        seq![0x5Cu8, 0x6E]
    } else if b == 0x0C {
        seq![0x5Cu8, 0x66]
    } else if b == 0x0D {
        seq![0x5Cu8, 0x72]
    } else if b < 0x20 {
        seq![0x5Cu8, 0x75, 0x30, 0x30, spec_hex_byte((b >> 4) as u32), spec_hex_byte((b & 0xF) as u32)]
    } else {
        seq![b]
    }
}

/// A byte sequence escaped for a JSON string, byte by byte.
pub open spec fn esc_bytes(s: Seq<u8>) -> Seq<u8>
    decreases s.len(),
{
    if s.len() == 0 {
        Seq::empty()
    } else {
        esc_byte(s[0]) + esc_bytes(s.drop_first())
    }
}

/// A JSON string: a quote, the escaped bytes, a quote.
pub open spec fn json_string(s: Seq<u8>) -> Seq<u8> {
    seq![0x22u8] + esc_bytes(s) + seq![0x22u8]
}

proof fn lemma_esc_bytes_snoc(s: Seq<u8>, b: u8)
    ensures
        esc_bytes(s.push(b)) == esc_bytes(s) + esc_byte(b),
    decreases s.len(),
{
    if s.len() == 0 {
        let sb = s.push(b);
        assert(sb.len() == 1);
        assert(sb[0] == b);
        assert(sb.drop_first() =~= Seq::<u8>::empty());
        assert(esc_bytes(sb) == esc_byte(b) + esc_bytes(sb.drop_first()));
        assert(esc_bytes(Seq::<u8>::empty()) == Seq::<u8>::empty());
        assert(esc_bytes(sb) =~= esc_byte(b));
        assert(esc_bytes(s) == Seq::<u8>::empty());
        assert(esc_bytes(s) + esc_byte(b) =~= esc_byte(b));
    } else {
        assert(s.push(b).drop_first() =~= s.drop_first().push(b));
        lemma_esc_bytes_snoc(s.drop_first(), b);
        assert(esc_bytes(s.push(b)) =~= esc_byte(s[0]) + (esc_bytes(s.drop_first()) + esc_byte(b)));
        assert(esc_byte(s[0]) + (esc_bytes(s.drop_first()) + esc_byte(b)) =~= (esc_byte(s[0])
            + esc_bytes(s.drop_first())) + esc_byte(b));
    }
}

/// Append one string, escaped and quoted, as JSON renders it.
pub fn push_json_string(out: &mut Vec<u8>, s: &[u8])
    ensures
        final(out)@ == old(out)@ + json_string(s@),
{
    out.push(0x22);
    let ghost base = out@;
    let mut i: usize = 0;
    while i < s.len()
        invariant
            0 <= i <= s@.len(),
            out@ == base + esc_bytes(s@.take(i as int)),
        decreases s@.len() - i,
    {
        let b = s[i];
        proof {
            assert(s@.take(i + 1) =~= s@.take(i as int).push(s@[i as int]));
            lemma_esc_bytes_snoc(s@.take(i as int), s@[i as int]);
        }
        if b == 0x22 {
            out.push(0x5C);
            out.push(0x22);
        } else if b == 0x5C {
            out.push(0x5C);
            out.push(0x5C);
        } else if b == 0x08 {
            out.push(0x5C);
            out.push(0x62);
        } else if b == 0x09 {
            out.push(0x5C);
            out.push(0x74);
        } else if b == 0x0A {
            out.push(0x5C);
            out.push(0x6E);
        } else if b == 0x0C {
            out.push(0x5C);
            out.push(0x66);
        } else if b == 0x0D {
            out.push(0x5C);
            out.push(0x72);
        } else if b < 0x20 {
            out.push(0x5C);
            out.push(0x75);
            out.push(0x30);
            out.push(0x30);
            proof {
                assert((b >> 4) < 16 && (b & 0xF) < 16) by (bit_vector);
            }
            out.push(crate::types::hex_byte((b >> 4) as u32));
            out.push(crate::types::hex_byte((b & 0xF) as u32));
        } else {
            out.push(b);
        }
        proof {
            assert(out@ =~= base + esc_bytes(s@.take(i + 1)));
        }
        i = i + 1;
    }
    out.push(0x22);
    proof {
        assert(s@.take(s@.len() as int) =~= s@);
        assert(out@ =~= old(out)@ + json_string(s@));
    }
}

/// Messages a client sends. The join code is carried as the raw
/// bytes of the decoded JSON string.
#[derive(Debug)]
pub enum ClientMessage {
    /// Create a new room and become its first peer.
    CreateRoom,
    /// Join an existing room by code.
    JoinRoom { code: Vec<u8> },
    /// Leave the current room.
    LeaveRoom,
}

/// The mathematical content of a [`ClientMessage`].
#[verifier::ext_equal]
pub ghost enum ClientMessageModel {
    CreateRoom,
    JoinRoom { code: Seq<u8> },
    LeaveRoom,
}

impl View for ClientMessage {
    type V = ClientMessageModel;

    open spec fn view(&self) -> ClientMessageModel {
        match self {
            ClientMessage::CreateRoom => ClientMessageModel::CreateRoom,
            ClientMessage::JoinRoom { code } => ClientMessageModel::JoinRoom { code: code@ },
            ClientMessage::LeaveRoom => ClientMessageModel::LeaveRoom,
        }
    }
}

/// Messages the server sends.
#[derive(Debug)]
pub enum ServerMessage {
    /// A room was created; its code and the creator's identifier.
    RoomCreated { code: RoomCode, your_id: PeerId },
    /// A room was joined; the joiner's identifier and the peers that
    /// were already present.
    RoomJoined { code: RoomCode, your_id: PeerId, peers: Vec<PeerInfo> },
    /// Someone else joined the recipient's room.
    PeerJoined { peer: PeerInfo },
    /// A request failed; a human-readable reason.
    Error { message: Vec<u8> },
}

/// One peer as JSON: its identifier and its address or `null`.
pub open spec fn spec_peer_info_json(p: PeerInfoModel) -> Seq<u8> {
    s2b("{\"id\":"@) + json_string(p.id) + s2b(",\"public_addr\":"@) + (match p.addr {
        Some(a) => json_string(a),
        None => s2b("null"@),
    }) + s2b("}"@)
}

/// The comma-separated items of a peer array.
pub open spec fn spec_peers_items(ps: Seq<PeerInfoModel>) -> Seq<u8>
    decreases ps.len(),
{
    if ps.len() == 0 {
        Seq::empty()
    } else if ps.len() == 1 {
        spec_peer_info_json(ps[0])
    } else {
        spec_peer_info_json(ps[0]) + s2b(","@) + spec_peers_items(ps.drop_first())
    }
}

/// A peer array as JSON.
pub open spec fn spec_peers_json(ps: Seq<PeerInfoModel>) -> Seq<u8> {
    s2b("["@) + spec_peers_items(ps) + s2b("]"@)
}

/// The exact bytes of a `room_created` reply.
pub open spec fn spec_room_created_json(code: Seq<u8>, your_id: Seq<u8>) -> Seq<u8> {
    s2b("{\"type\":\"room_created\",\"code\":"@) + json_string(code) + s2b(",\"your_id\":"@)
        + json_string(your_id) + s2b("}"@)
}

/// The exact bytes of a `room_joined` reply.
pub open spec fn spec_room_joined_json(
    code: Seq<u8>,
    your_id: Seq<u8>,
    peers: Seq<PeerInfoModel>,
) -> Seq<u8> {
    s2b("{\"type\":\"room_joined\",\"code\":"@) + json_string(code) + s2b(",\"your_id\":"@)
        + json_string(your_id) + s2b(",\"peers\":"@) + spec_peers_json(peers) + s2b("}"@)
}

/// The exact bytes of a `peer_joined` notification.
pub open spec fn spec_peer_joined_json(peer: PeerInfoModel) -> Seq<u8> {
    s2b("{\"type\":\"peer_joined\",\"peer\":"@) + spec_peer_info_json(peer) + s2b("}"@)
}

/// The exact bytes of an `error` reply.
pub open spec fn spec_error_json(message: Seq<u8>) -> Seq<u8> {
    s2b("{\"type\":\"error\",\"message\":"@) + json_string(message) + s2b("}"@)
}

/// The exact bytes of a server message on the wire: a JSON object
/// whose first member is the `"type"` tag, then the variant's fields
/// in declaration order.
pub open spec fn spec_server_msg(m: ServerMessage) -> Seq<u8> {
    match m {
        ServerMessage::RoomCreated { code, your_id } => spec_room_created_json(code@, your_id@),
        ServerMessage::RoomJoined { code, your_id, peers } => spec_room_joined_json(
            code@,
            your_id@,
            peers_model(peers@),
        ),
        ServerMessage::PeerJoined { peer } => spec_peer_joined_json(peer@),
        ServerMessage::Error { message } => spec_error_json(message@),
    }
}

proof fn lemma_peers_items_snoc(ps: Seq<PeerInfoModel>, p: PeerInfoModel)
    ensures
        spec_peers_items(ps.push(p)) == if ps.len() == 0 {
            spec_peer_info_json(p)
        } else {
            spec_peers_items(ps) + s2b(","@) + spec_peer_info_json(p)
        },
    decreases ps.len(),
{
    let sp = ps.push(p);
    if ps.len() == 0 {
        assert(sp.len() == 1);
        assert(sp[0] == p);
    } else {
        assert(sp.drop_first() =~= ps.drop_first().push(p));
        lemma_peers_items_snoc(ps.drop_first(), p);
        assert(sp[0] == ps[0]);
        assert(sp.len() == ps.len() + 1);
        if ps.len() == 1 {
            assert(spec_peers_items(sp) == spec_peer_info_json(ps[0]) + s2b(","@)
                + spec_peers_items(ps.drop_first().push(p)));
            assert(spec_peers_items(ps.drop_first().push(p)) == spec_peer_info_json(p));
            assert(spec_peers_items(ps) == spec_peer_info_json(ps[0]));
        } else {
            assert(spec_peers_items(sp) =~= (spec_peer_info_json(ps[0]) + s2b(","@)
                + spec_peers_items(ps.drop_first())) + s2b(","@) + spec_peer_info_json(p));
        }
    }
}

/// Append one peer as JSON.
fn push_peer_info(out: &mut Vec<u8>, p: &PeerInfo)
    ensures
        final(out)@ == old(out)@ + spec_peer_info_json(p@),
{
    proof {
        reveal_strlit("{\"id\":");
        reveal_strlit(",\"public_addr\":");
        reveal_strlit("null");
        reveal_strlit("}");
    }
    push_lit(out, "{\"id\":");
    let id_bytes = p.id.to_vec();
    push_json_string(out, id_bytes.as_slice());
    push_lit(out, ",\"public_addr\":");
    match &p.public_addr {
        Some(a) => {
            push_json_string(out, a.as_slice());
        },
        None => {
            push_lit(out, "null");
        },
    }
    push_lit(out, "}");
}

/// Append a peer list as a JSON array.
fn push_peers(out: &mut Vec<u8>, peers: &Vec<PeerInfo>)
    ensures
        final(out)@ == old(out)@ + spec_peers_json(peers_model(peers@)),
{
    proof {
        reveal_strlit("[");
        reveal_strlit(",");
        reveal_strlit("]");
    }
    push_lit(out, "[");
    let ghost base = out@;
    let ghost ps = peers_model(peers@);
    let mut i: usize = 0;
    while i < peers.len()
        invariant
            0 <= i <= peers@.len(),
            ps == peers_model(peers@),
            is_ascii_chars(","@),
            out@ == base + spec_peers_items(ps.take(i as int)),
        decreases peers@.len() - i,
    {
        proof {
            assert(ps.take(i + 1) =~= ps.take(i as int).push(ps[i as int]));
            lemma_peers_items_snoc(ps.take(i as int), ps[i as int]);
            assert(ps[i as int] == peers@[i as int]@);
        }
        if i > 0 {
            push_lit(out, ",");
        }
        push_peer_info(out, &peers[i]);
        proof {
            assert(out@ =~= base + spec_peers_items(ps.take(i + 1)));
        }
        i = i + 1;
    }
    proof {
        assert(ps.take(ps.len() as int) =~= ps);
    }
    push_lit(out, "]");
    proof {
        assert(out@ =~= old(out)@ + spec_peers_json(ps));
    }
}

/// Encode a server message to its exact wire bytes.
pub fn encode_server_message(m: &ServerMessage) -> (r: Vec<u8>)
    ensures
        r@ == spec_server_msg(*m),
{
    let mut out: Vec<u8> = Vec::new();
    match m {
        ServerMessage::RoomCreated { code, your_id } => {
            proof {
                reveal_strlit("{\"type\":\"room_created\",\"code\":");
                reveal_strlit(",\"your_id\":");
                reveal_strlit("}");
            }
            push_lit(&mut out, "{\"type\":\"room_created\",\"code\":");
            let cb = code.to_vec();
            push_json_string(&mut out, cb.as_slice());
            push_lit(&mut out, ",\"your_id\":");
            let ib = your_id.to_vec();
            push_json_string(&mut out, ib.as_slice());
            push_lit(&mut out, "}");
        },
        ServerMessage::RoomJoined { code, your_id, peers } => {
            proof {
                reveal_strlit("{\"type\":\"room_joined\",\"code\":");
                reveal_strlit(",\"your_id\":");
                reveal_strlit(",\"peers\":");
                reveal_strlit("}");
            }
            push_lit(&mut out, "{\"type\":\"room_joined\",\"code\":");
            let cb = code.to_vec();
            push_json_string(&mut out, cb.as_slice());
            push_lit(&mut out, ",\"your_id\":");
            let ib = your_id.to_vec();
            push_json_string(&mut out, ib.as_slice());
            push_lit(&mut out, ",\"peers\":");
            push_peers(&mut out, peers);
            push_lit(&mut out, "}");
        },
        ServerMessage::PeerJoined { peer } => {
            proof {
                reveal_strlit("{\"type\":\"peer_joined\",\"peer\":");
                reveal_strlit("}");
            }
            push_lit(&mut out, "{\"type\":\"peer_joined\",\"peer\":");
            push_peer_info(&mut out, peer);
            push_lit(&mut out, "}");
        },
        ServerMessage::Error { message } => {
            proof {
                reveal_strlit("{\"type\":\"error\",\"message\":");
                reveal_strlit("}");
            }
            push_lit(&mut out, "{\"type\":\"error\",\"message\":");
            push_json_string(&mut out, message.as_slice());
            push_lit(&mut out, "}");
        },
    }
    out
}

/// The reply text for a signaling error.
pub open spec fn spec_error_message(e: SignalingError) -> Seq<u8> {
    match e {
        SignalingError::RoomNotFound(code) => s2b("room not found: "@) + code@,
        SignalingError::Internal(reason) => s2b("internal error: "@) + encode_utf8(reason@),
    }
}

impl SignalingError {
    /// The error as reply text, as the `error` message carries it.
    pub fn message_bytes(&self) -> (r: Vec<u8>)
        ensures
            r@ == spec_error_message(*self),
    {
        let mut out: Vec<u8> = Vec::new();
        match self {
            SignalingError::RoomNotFound(code) => {
                proof {
                    reveal_strlit("room not found: ");
                }
                push_lit(&mut out, "room not found: ");
                let cb = code.to_vec();
                push_bytes(&mut out, cb.as_slice());
            },
            SignalingError::Internal(reason) => {
                proof {
                    reveal_strlit("internal error: ");
                }
                push_lit(&mut out, "internal error: ");
                push_bytes(&mut out, reason.as_str().as_bytes());
            },
        }
        out
    }
}

/// JSON whitespace.
pub open spec fn is_ws_byte(b: u8) -> bool {
    b == 0x20 || b == 0x09 || b == 0x0A || b == 0x0D
}

/// An ASCII digit.
pub open spec fn is_digit_byte(b: u8) -> bool {
    0x30 <= b <= 0x39
}

/// First index at or after `i` holding no whitespace.
pub open spec fn spec_skip_ws(s: Seq<u8>, i: int) -> int
    decreases s.len() - i,
{
    if 0 <= i < s.len() && is_ws_byte(s[i]) {
        spec_skip_ws(s, i + 1)
    } else {
        i
    }
}

/// First index at or after `i` holding no digit.
pub open spec fn spec_skip_digits(s: Seq<u8>, i: int) -> int
    decreases s.len() - i,
{
    if 0 <= i < s.len() && is_digit_byte(s[i]) {
        spec_skip_digits(s, i + 1)
    } else {
        i
    }
}

/// The value of a hex digit, or -1.
pub open spec fn spec_hex_val(b: u8) -> int {
    if 0x30 <= b <= 0x39 {
        b - 0x30
    } else if 0x61 <= b <= 0x66 {
        b - 0x61 + 10
    } else if 0x41 <= b <= 0x46 {
        b - 0x41 + 10
    } else {
        -1
    }
}

/// The value of the four hex digits at `i`, or -1.
pub open spec fn spec_hex4(s: Seq<u8>, i: int) -> int
    recommends
        0 <= i,
        i + 4 <= s.len(),
{
    let h0 = spec_hex_val(s[i]);
    let h1 = spec_hex_val(s[i + 1]);
    let h2 = spec_hex_val(s[i + 2]);
    let h3 = spec_hex_val(s[i + 3]);
    if h0 < 0 || h1 < 0 || h2 < 0 || h3 < 0 {
        -1
    } else {
        h0 * 0x1000 + h1 * 0x100 + h2 * 0x10 + h3
    }
}

/// Read a JSON string whose opening quote stands at `i`, from just
/// after `acc`'s worth of content: the index after the closing quote
/// and the unescaped bytes, or nothing on any malformed escape, a
/// raw control byte, or a missing close.
pub open spec fn spec_string_rest(s: Seq<u8>, i: int, acc: Seq<u8>) -> Option<(int, Seq<u8>)>
    decreases s.len() - i,
{
    if !(0 <= i < s.len()) {
        None
    } else {
        let b = s[i];
        if b == 0x22 {
            Some((i + 1, acc))
        } else if b == 0x5C {
            if i + 1 >= s.len() {
                None
            } else {
                let e = s[i + 1];
                if e == 0x22 {
                    spec_string_rest(s, i + 2, acc.push(0x22))
                } else if e == 0x5C {
                    spec_string_rest(s, i + 2, acc.push(0x5C))
                } else if e == 0x2F {
                    spec_string_rest(s, i + 2, acc.push(0x2F))
                } else if e == 0x62 {
                    spec_string_rest(s, i + 2, acc.push(0x08))
                } else if e == 0x66 {
                    spec_string_rest(s, i + 2, acc.push(0x0C))
                } else if e == 0x6E {
                    spec_string_rest(s, i + 2, acc.push(0x0A))
                } else if e == 0x72 {
                    spec_string_rest(s, i + 2, acc.push(0x0D))
                } else if e == 0x74 {
                    spec_string_rest(s, i + 2, acc.push(0x09))
                } else if e == 0x75 {
                    if s.len() - (i + 2) < 4 {
                        None
                    } else {
                        let h = spec_hex4(s, i + 2);
                        if h < 0 {
                            None
                        } else {
                            let c = h as u32;
                            if 0xD800 <= c <= 0xDBFF {
                                if s.len() - (i + 6) < 6 {
                                    None
                                } else if s[i + 6] == 0x5C && s[i + 7] == 0x75 {
                                    let h2 = spec_hex4(s, i + 8);
                                    if h2 < 0 {
                                        None
                                    } else {
                                        let c2 = h2 as u32;
                                        if 0xDC00 <= c2 <= 0xDFFF {
                                            let cp = (0x10000 + (c - 0xD800) * 0x400 + (c2
                                                - 0xDC00)) as u32;
                                            spec_string_rest(
                                                s,
                                                i + 12,
                                                acc + vstd::utf8::encode_scalar(cp),
                                            )
                                        } else {
                                            None
                                        }
                                    }
                                } else {
                                    None
                                }
                            } else if 0xDC00 <= c <= 0xDFFF {
                                None
                            } else {
                                spec_string_rest(s, i + 6, acc + vstd::utf8::encode_scalar(c))
                            }
                        }
                    }
                } else {
                    None
                }
            }
        } else if b < 0x20 {
            None
        } else {
            spec_string_rest(s, i + 1, acc.push(b))
        }
    }
}

/// Read the JSON string starting with the quote at `i`.
pub open spec fn spec_parse_string(s: Seq<u8>, i: int) -> Option<(int, Seq<u8>)> {
    if 0 <= i < s.len() && s[i] == 0x22 {
        spec_string_rest(s, i + 1, Seq::empty())
    } else {
        None
    }
}

/// Read past the JSON number starting at `i`: an optional minus, an
/// integer part without leading zeros, and optional fraction and
/// exponent parts.
pub open spec fn spec_skip_number(s: Seq<u8>, i: int) -> Option<int> {
    let j0 = if 0 <= i < s.len() && s[i] == 0x2D {
        i + 1
    } else {
        i
    };
    if !(0 <= j0 < s.len() && is_digit_byte(s[j0])) {
        None
    } else {
        let j1 = if s[j0] == 0x30 {
            j0 + 1
        } else {
            spec_skip_digits(s, j0)
        };
        let j2 = if 0 <= j1 < s.len() && s[j1] == 0x2E {
            let d = spec_skip_digits(s, j1 + 1);
            if d == j1 + 1 {
                -1
            } else {
                d
            }
        } else {
            j1
        };
        if j2 < 0 {
            None
        } else {
            let j3 = if 0 <= j2 < s.len() && (s[j2] == 0x65 || s[j2] == 0x45) {
                let k = if 0 <= j2 + 1 < s.len() && (s[j2 + 1] == 0x2B || s[j2 + 1] == 0x2D) {
                    j2 + 2
                } else {
                    j2 + 1
                };
                let d = spec_skip_digits(s, k);
                if d == k {
                    -1
                } else {
                    d
                }
            } else {
                j2
            };
            if j3 < 0 {
                None
            } else {
                Some(j3)
            }
        }
    }
}

/// Step past whitespace.
fn skip_ws(s: &[u8], i: usize) -> (r: usize)
    requires
        i <= s@.len(),
    ensures
        r == spec_skip_ws(s@, i as int),
        i <= r <= s@.len(),
{
    let mut p = i;
    while p < s.len() && (s[p] == 0x20 || s[p] == 0x09 || s[p] == 0x0A || s[p] == 0x0D)
        invariant
            i <= p <= s@.len(),
            spec_skip_ws(s@, i as int) == spec_skip_ws(s@, p as int),
        decreases s@.len() - p,
    {
        p = p + 1;
    }
    p
}

/// Step past digits.
fn skip_digits(s: &[u8], i: usize) -> (r: usize)
    requires
        i <= s@.len(),
    ensures
        r == spec_skip_digits(s@, i as int),
        i <= r <= s@.len(),
        i < s@.len() && is_digit_byte(s@[i as int]) ==> r > i,
{
    let mut p = i;
    while p < s.len() && 0x30 <= s[p] && s[p] <= 0x39
        invariant
            i <= p <= s@.len(),
            spec_skip_digits(s@, i as int) == spec_skip_digits(s@, p as int),
        decreases s@.len() - p,
    {
        p = p + 1;
    }
    p
}

/// The value of one hex digit, or -1.
fn hex_val(b: u8) -> (r: i32)
    ensures
        r as int == spec_hex_val(b),
{
    if 0x30 <= b && b <= 0x39 {
        (b - 0x30) as i32
    } else if 0x61 <= b && b <= 0x66 {
        (b - 0x61) as i32 + 10
    } else if 0x41 <= b && b <= 0x46 {
        (b - 0x41) as i32 + 10
    } else {
        -1
    }
}

/// The value of the four hex digits at `i`, or -1.
fn hex4(s: &[u8], i: usize) -> (r: i32)
    requires
        i + 4 <= s@.len(),
    ensures
        r as int == spec_hex4(s@, i as int),
        -1 <= r <= 0xFFFF,
{
    let h0 = hex_val(s[i]);
    let h1 = hex_val(s[i + 1]);
    let h2 = hex_val(s[i + 2]);
    let h3 = hex_val(s[i + 3]);
    if h0 < 0 || h1 < 0 || h2 < 0 || h3 < 0 {
        -1
    } else {
        h0 * 0x1000 + h1 * 0x100 + h2 * 0x10 + h3
    }
}

/// Read the JSON string starting with the quote at `i`, unescaped.
pub fn parse_string(s: &[u8], i: usize) -> (r: Option<(usize, Vec<u8>)>)
    requires
        i <= s@.len(),
    ensures
        ({
            let sp = spec_parse_string(s@, i as int);
            &&& r is Some <==> sp is Some
            &&& r matches Some(p) ==> sp == Some((p.0 as int, p.1@)) && i < p.0 <= s@.len()
        }),
{
    if !(i < s.len() && s[i] == 0x22) {
        return None;
    }
    let mut acc: Vec<u8> = Vec::new();
    let mut p: usize = i + 1;
    loop
        invariant
            i + 1 <= p <= s@.len(),
            i < s@.len(),
            spec_parse_string(s@, i as int) == spec_string_rest(s@, p as int, acc@),
        decreases s@.len() - p,
    {
        if p >= s.len() {
            return None;
        }
        let b = s[p];
        if b == 0x22 {
            return Some((p + 1, acc));
        } else if b == 0x5C {
            if p + 1 >= s.len() {
                return None;
            }
            let e = s[p + 1];
            if e == 0x22 {
                acc.push(0x22);
                p = p + 2;
            } else if e == 0x5C {
                acc.push(0x5C);
                p = p + 2;
            } else if e == 0x2F {
                acc.push(0x2F);
                p = p + 2;
            } else if e == 0x62 {
                acc.push(0x08);
                p = p + 2;
            } else if e == 0x66 {
                acc.push(0x0C);
                p = p + 2;
            } else if e == 0x6E {
                acc.push(0x0A);
                p = p + 2;
            } else if e == 0x72 {
                acc.push(0x0D);
                p = p + 2;
            } else if e == 0x74 {
                acc.push(0x09);
                p = p + 2;
            } else if e == 0x75 {
                if s.len() - (p + 2) < 4 {
                    return None;
                }
                let h = hex4(s, p + 2);
                if h < 0 {
                    return None;
                }
                let c = h as u32;
                if 0xD800 <= c && c <= 0xDBFF {
                    if s.len() - (p + 6) < 6 {
                        return None;
                    }
                    if !(s[p + 6] == 0x5C && s[p + 7] == 0x75) {
                        return None;
                    }
                    let h2 = hex4(s, p + 8);
                    if h2 < 0 {
                        return None;
                    }
                    let c2 = h2 as u32;
                    if !(0xDC00 <= c2 && c2 <= 0xDFFF) {
                        return None;
                    }
                    let cp: u32 = 0x10000 + (c - 0xD800) * 0x400 + (c2 - 0xDC00);
                    let ghost acc0 = acc@;
                    acc.push(0xF0 | (((cp >> 18) & 0x7) as u8));
                    acc.push(0x80 | (((cp >> 12) & 0x3F) as u8));
                    acc.push(0x80 | (((cp >> 6) & 0x3F) as u8));
                    acc.push(0x80 | ((cp & 0x3F) as u8));
                    proof {
                        assert(0x10000 <= cp <= 0x10FFFF);
                        assert(vstd::utf8::has_width_4_encoding(cp));
                        assert(!vstd::utf8::has_width_1_encoding(cp)
                            && !vstd::utf8::has_width_2_encoding(cp)
                            && !vstd::utf8::has_width_3_encoding(cp));
                        assert(acc@ =~= acc0 + vstd::utf8::encode_scalar(cp));
                    }
                    p = p + 12;
                } else if 0xDC00 <= c && c <= 0xDFFF {
                    return None;
                } else {
                    let ghost acc0 = acc@;
                    if c < 0x80 {
                        acc.push((c & 0x7F) as u8);
                    } else if c < 0x800 {
                        acc.push(0xC0 | (((c >> 6) & 0x1F) as u8));
                        acc.push(0x80 | ((c & 0x3F) as u8));
                    } else {
                        acc.push(0xE0 | (((c >> 12) & 0x0F) as u8));
                        acc.push(0x80 | (((c >> 6) & 0x3F) as u8));
                        acc.push(0x80 | ((c & 0x3F) as u8));
                    }
                    proof {
                        if c < 0x80 {
                            assert((c & 0x7F) == c) by (bit_vector)
                                requires
                                    c < 0x80,
                            ;
                            assert(acc@ =~= acc0 + vstd::utf8::encode_scalar(c));
                        } else if c < 0x800 {
                            assert(acc@ =~= acc0 + vstd::utf8::encode_scalar(c));
                        } else {
                            assert(acc@ =~= acc0 + vstd::utf8::encode_scalar(c));
                        }
                    }
                    p = p + 6;
                }
            } else {
                return None;
            }
        } else if b < 0x20 {
            return None;
        } else {
            acc.push(b);
            p = p + 1;
        }
    }
}

/// Read past the JSON number starting at `i`.
fn skip_number(s: &[u8], i: usize) -> (r: Option<usize>)
    requires
        i <= s@.len(),
    ensures
        ({
            let sp = spec_skip_number(s@, i as int);
            &&& r is Some <==> sp is Some
            &&& r matches Some(j) ==> sp == Some(j as int) && i < j <= s@.len()
        }),
{
    let j0: usize = if i < s.len() && s[i] == 0x2D {
        i + 1
    } else {
        i
    };
    if !(j0 < s.len() && 0x30 <= s[j0] && s[j0] <= 0x39) {
        return None;
    }
    let j1: usize = if s[j0] == 0x30 {
        j0 + 1
    } else {
        skip_digits(s, j0)
    };
    let j2: usize = if j1 < s.len() && s[j1] == 0x2E {
        let d = skip_digits(s, j1 + 1);
        if d == j1 + 1 {
            return None;
        }
        d
    } else {
        j1
    };
    let j3: usize = if j2 < s.len() && (s[j2] == 0x65 || s[j2] == 0x45) {
        let k: usize = if j2 + 1 < s.len() && (s[j2 + 1] == 0x2B || s[j2 + 1] == 0x2D) {
            j2 + 2
        } else {
            j2 + 1
        };
        let d = skip_digits(s, k);
        if d == k {
            return None;
        }
        d
    } else {
        j2
    };
    Some(j3)
}

/// How deeply containers may nest before a value is refused.
pub const MAX_NESTING: u32 = 128;

/// Read past the JSON value starting at `i`, whatever its kind, with
/// `depth` the container budget left.
pub open spec fn spec_skip_value(s: Seq<u8>, i: int, depth: int) -> Option<int>
    decreases s.len() - i, 0int,
{
    if !(0 <= i < s.len()) {
        None
    } else {
        let b = s[i];
        if b == 0x22 {
            match spec_parse_string(s, i) {
                None => None,
                Some(r) => Some(r.0),
            }
        } else if b == 0x7B {
            if depth <= 0 {
                None
            } else {
                let j = spec_skip_ws(s, i + 1);
                if !(i < j && j <= s.len()) {
                    None
                } else if j < s.len() && s[j] == 0x7D {
                    Some(j + 1)
                } else {
                    spec_skip_members(s, j, depth - 1)
                }
            }
        } else if b == 0x5B {
            if depth <= 0 {
                None
            } else {
                let j = spec_skip_ws(s, i + 1);
                if !(i < j && j <= s.len()) {
                    None
                } else if j < s.len() && s[j] == 0x5D {
                    Some(j + 1)
                } else {
                    spec_skip_items(s, j, depth - 1)
                }
            }
        } else if b == 0x74 {
            if s.len() - i >= 4 && s[i + 1] == 0x72 && s[i + 2] == 0x75 && s[i + 3] == 0x65 {
                Some(i + 4)
            } else {
                None
            }
        } else if b == 0x66 {
            if s.len() - i >= 5 && s[i + 1] == 0x61 && s[i + 2] == 0x6C && s[i + 3] == 0x73 && s[i
                + 4] == 0x65 {
                Some(i + 5)
            } else {
                None
            }
        } else if b == 0x6E {
            if s.len() - i >= 4 && s[i + 1] == 0x75 && s[i + 2] == 0x6C && s[i + 3] == 0x6C {
                Some(i + 4)
            } else {
                None
            }
        } else if b == 0x2D || is_digit_byte(b) {
            spec_skip_number(s, i)
        } else {
            None
        }
    }
}

/// Read past an object's members, the first of which starts at `i`.
pub open spec fn spec_skip_members(s: Seq<u8>, i: int, depth: int) -> Option<int>
    decreases s.len() - i, 1int,
{
    if !(0 <= i < s.len() && s[i] == 0x22) {
        None
    } else {
        match spec_parse_string(s, i) {
            None => None,
            Some(ks) => {
                if !(i < ks.0 && ks.0 <= s.len()) {
                    None
                } else {
                    let j2 = spec_skip_ws(s, ks.0);
                    if !(j2 < s.len() && s[j2] == 0x3A) {
                        None
                    } else {
                        let j3 = spec_skip_ws(s, j2 + 1);
                        if !(i < j3 && j3 <= s.len()) {
                            None
                        } else {
                            match spec_skip_value(s, j3, depth) {
                                None => None,
                                Some(end) => {
                                    if !(j3 < end && end <= s.len()) {
                                        None
                                    } else {
                                        let w = spec_skip_ws(s, end);
                                        if w < s.len() && s[w] == 0x2C {
                                            let next = spec_skip_ws(s, w + 1);
                                            if !(i < next && end < next && next <= s.len()) {
                                                None
                                            } else {
                                                spec_skip_members(s, next, depth)
                                            }
                                        } else if w < s.len() && s[w] == 0x7D {
                                            Some(w + 1)
                                        } else {
                                            None
                                        }
                                    }
                                },
                            }
                        }
                    }
                }
            },
        }
    }
}

/// Read past an array's items, the first of which starts at `i`.
pub open spec fn spec_skip_items(s: Seq<u8>, i: int, depth: int) -> Option<int>
    decreases s.len() - i, 1int,
{
    if !(0 <= i < s.len()) {
        None
    } else {
        match spec_skip_value(s, i, depth) {
            None => None,
            Some(end) => {
                if !(i < end && end <= s.len()) {
                    None
                } else {
                    let w = spec_skip_ws(s, end);
                    if w < s.len() && s[w] == 0x2C {
                        let next = spec_skip_ws(s, w + 1);
                        if !(i < next && next <= s.len()) {
                            None
                        } else {
                            spec_skip_items(s, next, depth)
                        }
                    } else if w < s.len() && s[w] == 0x5D {
                        Some(w + 1)
                    } else {
                        None
                    }
                }
            },
        }
    }
}

/// Read past the JSON value starting at `i`.
fn skip_value(s: &[u8], i: usize, depth: u32) -> (r: Option<usize>)
    requires
        i <= s@.len(),
    ensures
        ({
            let sp = spec_skip_value(s@, i as int, depth as int);
            &&& r is Some <==> sp is Some
            &&& r matches Some(j) ==> sp == Some(j as int) && i < j <= s@.len()
        }),
    decreases s@.len() - i, 0int,
{
    if !(i < s.len()) {
        return None;
    }
    let b = s[i];
    if b == 0x22 {
        match parse_string(s, i) {
            None => None,
            Some(r) => Some(r.0),
        }
    } else if b == 0x7B {
        if depth == 0 {
            return None;
        }
        let j = skip_ws(s, i + 1);
        if j < s.len() && s[j] == 0x7D {
            Some(j + 1)
        } else {
            skip_members(s, j, depth - 1)
        }
    } else if b == 0x5B {
        if depth == 0 {
            return None;
        }
        let j = skip_ws(s, i + 1);
        if j < s.len() && s[j] == 0x5D {
            Some(j + 1)
        } else {
            skip_items(s, j, depth - 1)
        }
    } else if b == 0x74 {
        if s.len() - i >= 4 && s[i + 1] == 0x72 && s[i + 2] == 0x75 && s[i + 3] == 0x65 {
            Some(i + 4)
        } else {
            None
        }
    } else if b == 0x66 {
        if s.len() - i >= 5 && s[i + 1] == 0x61 && s[i + 2] == 0x6C && s[i + 3] == 0x73 && s[i + 4]
            == 0x65 {
            Some(i + 5)
        } else {
            None
        }
    } else if b == 0x6E {
        if s.len() - i >= 4 && s[i + 1] == 0x75 && s[i + 2] == 0x6C && s[i + 3] == 0x6C {
            Some(i + 4)
        } else {
            None
        }
    } else if b == 0x2D || (0x30 <= b && b <= 0x39) {
        skip_number(s, i)
    } else {
        None
    }
}

/// Read past an object's members, the first of which starts at `i`.
fn skip_members(s: &[u8], i: usize, depth: u32) -> (r: Option<usize>)
    requires
        i <= s@.len(),
    ensures
        ({
            let sp = spec_skip_members(s@, i as int, depth as int);
            &&& r is Some <==> sp is Some
            &&& r matches Some(j) ==> sp == Some(j as int) && i < j <= s@.len()
        }),
    decreases s@.len() - i, 1int,
{
    let ghost goal = spec_skip_members(s@, i as int, depth as int);
    let mut cur: usize = i;
    loop
        invariant
            i <= cur <= s@.len(),
            goal == spec_skip_members(s@, cur as int, depth as int),
            goal == spec_skip_members(s@, i as int, depth as int),
        decreases s@.len() - cur,
    {
        if !(cur < s.len() && s[cur] == 0x22) {
            return None;
        }
        let ks = match parse_string(s, cur) {
            None => {
                return None;
            },
            Some(ks) => ks,
        };
        let j2 = skip_ws(s, ks.0);
        if !(j2 < s.len() && s[j2] == 0x3A) {
            return None;
        }
        let j3 = skip_ws(s, j2 + 1);
        let end = match skip_value(s, j3, depth) {
            None => {
                return None;
            },
            Some(end) => end,
        };
        let w = skip_ws(s, end);
        if w < s.len() && s[w] == 0x2C {
            let next = skip_ws(s, w + 1);
            cur = next;
        } else if w < s.len() && s[w] == 0x7D {
            return Some(w + 1);
        } else {
            return None;
        }
    }
}

/// Read past an array's items, the first of which starts at `i`.
fn skip_items(s: &[u8], i: usize, depth: u32) -> (r: Option<usize>)
    requires
        i <= s@.len(),
    ensures
        ({
            let sp = spec_skip_items(s@, i as int, depth as int);
            &&& r is Some <==> sp is Some
            &&& r matches Some(j) ==> sp == Some(j as int) && i < j <= s@.len()
        }),
    decreases s@.len() - i, 1int,
{
    let ghost goal = spec_skip_items(s@, i as int, depth as int);
    let mut cur: usize = i;
    loop
        invariant
            i <= cur <= s@.len(),
            goal == spec_skip_items(s@, cur as int, depth as int),
            goal == spec_skip_items(s@, i as int, depth as int),
        decreases s@.len() - cur,
    {
        if !(cur < s.len()) {
            return None;
        }
        let end = match skip_value(s, cur, depth) {
            None => {
                return None;
            },
            Some(end) => end,
        };
        let w = skip_ws(s, end);
        if w < s.len() && s[w] == 0x2C {
            let next = skip_ws(s, w + 1);
            cur = next;
        } else if w < s.len() && s[w] == 0x5D {
            return Some(w + 1);
        } else {
            return None;
        }
    }
}

/// What the scan has seen of one expected field so far.
#[derive(Debug)]
pub enum FieldVal {
    /// The key has not appeared.
    Missing,
    /// The key appeared once, with a string value.
    Text(Vec<u8>),
    /// The key appeared once, with a value of another kind.
    NonText,
    /// The key appeared more than once.
    Duplicate,
}

/// The mathematical content of a [`FieldVal`].
#[verifier::ext_equal]
pub ghost enum FieldModel {
    Missing,
    Text(Seq<u8>),
    NonText,
    Duplicate,
}

impl View for FieldVal {
    type V = FieldModel;

    open spec fn view(&self) -> FieldModel {
        match self {
            FieldVal::Missing => FieldModel::Missing,
            FieldVal::Text(v) => FieldModel::Text(v@),
            FieldVal::NonText => FieldModel::NonText,
            FieldVal::Duplicate => FieldModel::Duplicate,
        }
    }
}

/// Scan the members of the top-level object, the first of which
/// starts at `i`, recording what the `type` and `code` keys carried.
/// A repeated or non-string `type` refuses the whole message; other
/// values are read past and ignored.
pub open spec fn spec_client_members(
    s: Seq<u8>,
    i: int,
    typ: FieldModel,
    code: FieldModel,
) -> Option<(int, FieldModel, FieldModel)>
    decreases s.len() - i, 1int,
{
    if !(0 <= i < s.len() && s[i] == 0x22) {
        None
    } else {
        match spec_parse_string(s, i) {
            None => None,
            Some(ks) => {
                if !(i < ks.0 && ks.0 <= s.len()) {
                    None
                } else {
                    let j2 = spec_skip_ws(s, ks.0);
                    if !(j2 < s.len() && s[j2] == 0x3A) {
                        None
                    } else {
                        let j3 = spec_skip_ws(s, j2 + 1);
                        if !(i < j3 && j3 <= s.len()) {
                            None
                        } else if ks.1 == s2b("type"@) {
                            if !(typ is Missing) {
                                None
                            } else if j3 < s.len() && s[j3] == 0x22 {
                                match spec_parse_string(s, j3) {
                                    None => None,
                                    Some(vs) => if !(j3 < vs.0 && vs.0 <= s.len()) {
                                        None
                                    } else {
                                        spec_member_tail(s, vs.0, FieldModel::Text(vs.1), code)
                                    },
                                }
                            } else {
                                None
                            }
                        } else if ks.1 == s2b("code"@) {
                            if code is Missing && j3 < s.len() && s[j3] == 0x22 {
                                match spec_parse_string(s, j3) {
                                    None => None,
                                    Some(vs) => if !(j3 < vs.0 && vs.0 <= s.len()) {
                                        None
                                    } else {
                                        spec_member_tail(s, vs.0, typ, FieldModel::Text(vs.1))
                                    },
                                }
                            } else {
                                match spec_skip_value(s, j3, MAX_NESTING as int) {
                                    None => None,
                                    Some(end) => if !(j3 < end && end <= s.len()) {
                                        None
                                    } else if code is Missing {
                                        spec_member_tail(s, end, typ, FieldModel::NonText)
                                    } else {
                                        spec_member_tail(s, end, typ, FieldModel::Duplicate)
                                    },
                                }
                            }
                        } else {
                            match spec_skip_value(s, j3, MAX_NESTING as int) {
                                None => None,
                                Some(end) => if !(j3 < end && end <= s.len()) {
                                    None
                                } else {
                                    spec_member_tail(s, end, typ, code)
                                },
                            }
                        }
                    }
                }
            },
        }
    }
}

/// After a member's value, which ended just before `end`: a comma
/// leads to the next member, a closing brace ends the object.
pub open spec fn spec_member_tail(
    s: Seq<u8>,
    end: int,
    typ: FieldModel,
    code: FieldModel,
) -> Option<(int, FieldModel, FieldModel)>
    decreases s.len() - end, 0int,
{
    if !(0 <= end <= s.len()) {
        None
    } else {
        let w = spec_skip_ws(s, end);
        if w < s.len() && s[w] == 0x2C {
            let next = spec_skip_ws(s, w + 1);
            if !(end < next && next <= s.len()) {
                None
            } else {
                spec_client_members(s, next, typ, code)
            }
        } else if w < s.len() && s[w] == 0x7D {
            Some((w + 1, typ, code))
        } else {
            None
        }
    }
}

/// Put the gathered fields together: the tag picks the message, and
/// a join demands a string `code` that appeared exactly once.
pub open spec fn spec_assemble(typ: FieldModel, code: FieldModel) -> Option<ClientMessageModel> {
    match typ {
        FieldModel::Text(t) => if t == s2b("create_room"@) {
            Some(ClientMessageModel::CreateRoom)
        } else if t == s2b("join_room"@) {
            match code {
                FieldModel::Text(c) => Some(ClientMessageModel::JoinRoom { code: c }),
                _ => None,
            }
        } else if t == s2b("leave_room"@) {
            Some(ClientMessageModel::LeaveRoom)
        } else {
            None
        },
        _ => None,
    }
}

/// What decoding a text frame yields: the client message of a JSON
/// object with a recognized tag, or nothing for anything malformed,
/// untagged or unknown. Whitespace, member order and unknown members
/// are free; nothing may follow the object.
pub open spec fn spec_decode_client(s: Seq<u8>) -> Option<ClientMessageModel> {
    let i = spec_skip_ws(s, 0);
    if !(0 <= i < s.len() && s[i] == 0x7B) {
        None
    } else {
        let j = spec_skip_ws(s, i + 1);
        if !(j <= s.len()) {
            None
        } else {
            let scanned = if j < s.len() && s[j] == 0x7D {
                Some((j + 1, FieldModel::Missing, FieldModel::Missing))
            } else {
                spec_client_members(s, j, FieldModel::Missing, FieldModel::Missing)
            };
            match scanned {
                None => None,
                Some(res) => {
                    let w = spec_skip_ws(s, res.0);
                    if w != s.len() {
                        None
                    } else {
                        spec_assemble(res.1, res.2)
                    }
                },
            }
        }
    }
}

/// Whether a byte slice spells an ASCII literal.
fn bytes_eq_lit(v: &[u8], lit: &str) -> (r: bool)
    requires
        is_ascii_chars(lit@),
    ensures
        r <==> v@ == s2b(lit@),
{
    proof {
        vstd::utf8::is_ascii_chars_encode_utf8(lit@);
        assert(lit.spec_bytes() =~= s2b(lit@));
    }
    let b = lit.as_bytes();
    if v.len() != b.len() {
        proof {
            assert(v@.len() != s2b(lit@).len());
        }
        return false;
    }
    let mut i: usize = 0;
    while i < v.len()
        invariant
            0 <= i <= v@.len(),
            v@.len() == b@.len(),
            b@ == s2b(lit@),
            forall|j: int| 0 <= j < i ==> v@[j] == b@[j],
        decreases v@.len() - i,
    {
        if v[i] != b[i] {
            return false;
        }
        i = i + 1;
    }
    proof {
        assert(v@ =~= s2b(lit@));
    }
    true
}

/// Scan the top-level object's members, starting at the first one.
fn scan_members(s: &[u8], j: usize) -> (r: Option<(usize, FieldVal, FieldVal)>)
    requires
        j <= s@.len(),
    ensures
        ({
            let sp = spec_client_members(s@, j as int, FieldModel::Missing, FieldModel::Missing);
            &&& r is Some <==> sp is Some
            &&& r matches Some(p) ==> sp == Some((p.0 as int, p.1@, p.2@)) && p.0 <= s@.len()
        }),
{
    proof {
        reveal_strlit("type");
        reveal_strlit("code");
    }
    let ghost goal = spec_client_members(s@, j as int, FieldModel::Missing, FieldModel::Missing);
    let mut typ = FieldVal::Missing;
    let mut code = FieldVal::Missing;
    let mut cur: usize = j;
    loop
        invariant
            j <= cur <= s@.len(),
            is_ascii_chars("type"@),
            is_ascii_chars("code"@),
            goal == spec_client_members(s@, cur as int, typ@, code@),
            goal == spec_client_members(s@, j as int, FieldModel::Missing, FieldModel::Missing),
        decreases s@.len() - cur,
    {
        if !(cur < s.len() && s[cur] == 0x22) {
            return None;
        }
        let ks = match parse_string(s, cur) {
            None => {
                return None;
            },
            Some(ks) => ks,
        };
        let j2 = skip_ws(s, ks.0);
        if !(j2 < s.len() && s[j2] == 0x3A) {
            return None;
        }
        let j3 = skip_ws(s, j2 + 1);
        let member_end: usize;
        if bytes_eq_lit(ks.1.as_slice(), "type") {
            match typ {
                FieldVal::Missing => {},
                _ => {
                    return None;
                },
            }
            if !(j3 < s.len() && s[j3] == 0x22) {
                return None;
            }
            let vs = match parse_string(s, j3) {
                None => {
                    return None;
                },
                Some(vs) => vs,
            };
            typ = FieldVal::Text(vs.1);
            member_end = vs.0;
        } else if bytes_eq_lit(ks.1.as_slice(), "code") {
            let code_missing = match code {
                FieldVal::Missing => true,
                _ => false,
            };
            if code_missing && j3 < s.len() && s[j3] == 0x22 {
                let vs = match parse_string(s, j3) {
                    None => {
                        return None;
                    },
                    Some(vs) => vs,
                };
                code = FieldVal::Text(vs.1);
                member_end = vs.0;
            } else {
                let e = match skip_value(s, j3, MAX_NESTING) {
                    None => {
                        return None;
                    },
                    Some(e) => e,
                };
                if code_missing {
                    code = FieldVal::NonText;
                } else {
                    code = FieldVal::Duplicate;
                }
                member_end = e;
            }
        } else {
            let e = match skip_value(s, j3, MAX_NESTING) {
                None => {
                    return None;
                },
                Some(e) => e,
            };
            member_end = e;
        }
        let w = skip_ws(s, member_end);
        if w < s.len() && s[w] == 0x2C {
            let next = skip_ws(s, w + 1);
            cur = next;
        } else if w < s.len() && s[w] == 0x7D {
            return Some((w + 1, typ, code));
        } else {
            return None;
        }
    }
}

/// Decode one text frame as a client message.
pub fn decode_client_message(s: &[u8]) -> (r: Option<ClientMessage>)
    ensures
        r is Some <==> spec_decode_client(s@) is Some,
        r matches Some(m) ==> spec_decode_client(s@) == Some(m@),
{
    proof {
        reveal_strlit("create_room");
        reveal_strlit("join_room");
        reveal_strlit("leave_room");
    }
    let i = skip_ws(s, 0);
    if !(i < s.len() && s[i] == 0x7B) {
        return None;
    }
    let j = skip_ws(s, i + 1);
    let scanned: (usize, FieldVal, FieldVal);
    if j < s.len() && s[j] == 0x7D {
        scanned = (j + 1, FieldVal::Missing, FieldVal::Missing);
    } else {
        scanned = match scan_members(s, j) {
            None => {
                return None;
            },
            Some(p) => p,
        };
    }
    let w = skip_ws(s, scanned.0);
    if w != s.len() {
        return None;
    }
    let t = match scanned.1 {
        FieldVal::Text(t) => t,
        _ => {
            return None;
        },
    };
    if bytes_eq_lit(t.as_slice(), "create_room") {
        Some(ClientMessage::CreateRoom)
    } else if bytes_eq_lit(t.as_slice(), "join_room") {
        match scanned.2 {
            FieldVal::Text(c) => Some(ClientMessage::JoinRoom { code: c }),
            _ => None,
        }
    } else if bytes_eq_lit(t.as_slice(), "leave_room") {
        Some(ClientMessage::LeaveRoom)
    } else {
        None
    }
}

} // verus!
