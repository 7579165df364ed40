//! The per-connection protocol: the liveness (ping/pong) state
//! machine and the dispatch decisions a connection handler makes.
//! The surrounding task performs the I/O these decisions call for.

use vstd::prelude::*;
use vstd::string::StringSliceAdditionalSpecFns;
use vstd::utf8::is_ascii_chars;

use crate::messages::{
    decode_client_message, encode_server_message, s2b, spec_decode_client, spec_error_json,
    spec_error_message, spec_room_created_json, spec_room_joined_json, ClientMessage,
    ServerMessage,
};
use crate::actor::peers_model;
use crate::types::{PeerId, PeerInfo, RoomCode, SignalingError};

verus! {

/// Default signaling port.
pub const DEFAULT_SIGNALING_PORT: u16 = 3479;

/// Seconds between liveness pings.
pub const PING_INTERVAL_SECS: u64 = 30;

/// Seconds a peer has to answer a ping before it is dropped.
pub const PONG_TIMEOUT_SECS: u64 = 10;

/// What a liveness event asks the connection's task to do.
#[derive(Clone, Copy, Debug, PartialEq, Eq, Structural)]
pub enum LivenessAction {
    /// Send a ping control frame and arm the pong deadline.
    SendPing,
    /// Close the connection.
    Disconnect,
}

/// What one connection holds between events: the peer identity it
/// registered with the room directory, if any, and whether a ping
/// awaits its pong.
pub struct ConnectionState {
    pub current_peer_id: Option<PeerId>,
    pub waiting_for_pong: bool,
}

impl ConnectionState {
    /// A freshly accepted connection: no peer identity, no
    /// outstanding ping.
    pub fn new() -> (r: ConnectionState)
        ensures
            r.current_peer_id is None,
            !r.waiting_for_pong,
    {
        ConnectionState { current_peer_id: None, waiting_for_pong: false }
    }

    /// The periodic liveness tick. A ping still unanswered from the
    /// previous interval closes the connection; otherwise a new ping
    /// goes out and its pong is now awaited.
    pub fn on_ping_tick(&mut self) -> (a: LivenessAction)
        ensures
            old(self).waiting_for_pong ==> a is Disconnect && final(self).waiting_for_pong == old(
                self,
            ).waiting_for_pong,
            !old(self).waiting_for_pong ==> a is SendPing && final(self).waiting_for_pong,
            final(self).current_peer_id == old(self).current_peer_id,
    {
        if self.waiting_for_pong {
            LivenessAction::Disconnect
        } else {
            self.waiting_for_pong = true;
            LivenessAction::SendPing
        }
    }

    /// The pong deadline passed with no pong: the connection that
    /// answered no ping within the timeout is closed.
    pub fn on_pong_deadline(&self) -> (a: LivenessAction)
        ensures
            a is Disconnect,
    {
        LivenessAction::Disconnect
    }

    /// A pong arrived: nothing is awaited any more and the deadline
    /// is disarmed.
    pub fn on_pong(&mut self)
        ensures
            !final(self).waiting_for_pong,
            final(self).current_peer_id == old(self).current_peer_id,
    {
        self.waiting_for_pong = false;
    }

    /// Surrender the registered peer identity, if any: what a leave
    /// request and the teardown path hand to the room directory.
    pub fn take_peer_id(&mut self) -> (r: Option<PeerId>)
        ensures
            r == old(self).current_peer_id,
            final(self).current_peer_id is None,
            final(self).waiting_for_pong == old(self).waiting_for_pong,
    {
        let r = self.current_peer_id;
        self.current_peer_id = None;
        r
    }

    /// The room directory answered a create request: remember the
    /// granted identity and build the reply frame.
    pub fn on_create_result(&mut self, r: Result<(RoomCode, PeerId), SignalingError>) -> (reply:
        Vec<u8>)
        ensures
            r matches Ok(ok) ==> final(self).current_peer_id == Some(ok.1) && reply@
                == spec_room_created_json(ok.0@, ok.1@),
            r matches Err(e) ==> final(self).current_peer_id == old(self).current_peer_id && reply@
                == spec_error_json(spec_error_message(e)),
            final(self).waiting_for_pong == old(self).waiting_for_pong,
    {
        match r {
            Ok((code, peer_id)) => {
                self.current_peer_id = Some(peer_id);
                encode_server_message(&ServerMessage::RoomCreated { code, your_id: peer_id })
            },
            Err(e) => {
                let message = e.message_bytes();
                encode_server_message(&ServerMessage::Error { message })
            },
        }
    }

    /// The room directory answered a join request: remember the
    /// granted identity and build the reply frame listing the peers
    /// that were already present.
    pub fn on_join_result(
        &mut self,
        code: RoomCode,
        r: Result<(PeerId, Vec<PeerInfo>), SignalingError>,
    ) -> (reply: Vec<u8>)
        ensures
            r matches Ok(ok) ==> final(self).current_peer_id == Some(ok.0) && reply@
                == spec_room_joined_json(code@, ok.0@, peers_model(ok.1@)),
            r matches Err(e) ==> final(self).current_peer_id == old(self).current_peer_id && reply@
                == spec_error_json(spec_error_message(e)),
            final(self).waiting_for_pong == old(self).waiting_for_pong,
    {
        match r {
            Ok((peer_id, peers)) => {
                self.current_peer_id = Some(peer_id);
                encode_server_message(
                    &ServerMessage::RoomJoined { code, your_id: peer_id, peers },
                )
            },
            Err(e) => {
                let message = e.message_bytes();
                encode_server_message(&ServerMessage::Error { message })
            },
        }
    }
}

/// Classify one inbound text frame: the decoded client message to
/// act on, or — for a frame the vocabulary does not admit — the
/// `error` reply to send back, with the connection kept open.
pub fn classify_text(bytes: &[u8]) -> (r: Result<ClientMessage, Vec<u8>>)
    ensures
        r matches Ok(m) ==> spec_decode_client(bytes@) == Some(m@),
        r matches Err(reply) ==> spec_decode_client(bytes@) is None && reply@ == spec_error_json(
            s2b("Invalid message: unrecognized or malformed JSON"@),
        ),
{
    match decode_client_message(bytes) {
        Some(m) => Ok(m),
        None => {
            proof {
                reveal_strlit("Invalid message: unrecognized or malformed JSON");
            }
            let reply = error_reply("Invalid message: unrecognized or malformed JSON");
            Err(reply)
        },
    }
}

/// Build an `error` reply from ASCII text.
fn error_reply(message: &str) -> (r: Vec<u8>)
    requires
        is_ascii_chars(message@),
    ensures
        r@ == spec_error_json(s2b(message@)),
{
    proof {
        vstd::utf8::is_ascii_chars_encode_utf8(message@);
        assert(message.spec_bytes() =~= s2b(message@));
    }
    let b = message.as_bytes();
    let mut message_vec: Vec<u8> = Vec::new();
    let mut i: usize = 0;
    while i < b.len()
        invariant
            0 <= i <= b@.len(),
            message_vec@ == b@.take(i as int),
        decreases b@.len() - i,
    {
        message_vec.push(b[i]);
        proof {
            assert(message_vec@ =~= b@.take(i + 1));
        }
        i = i + 1;
    }
    proof {
        assert(message_vec@ =~= b@);
    }
    encode_server_message(&ServerMessage::Error { message: message_vec })
}

} // verus!
