//! The STUN server's per-datagram work: classifying the client
//! address, the copy of a datagram into a fixed worker slot, and the
//! request handler that turns one datagram into one response.

use vstd::prelude::*;

use crate::protocol::{
    lemma_parse_of_built_response, lemma_response_round_trip, spec_binding_response, spec_parse,
    spec_parse_response, Ipv4Endpoint, MessageType, StunError, StunRequest, StunResponse,
    BINDING_RESPONSE_SIZE,
};

verus! {

/// Default STUN port.
pub const DEFAULT_PORT: u16 = 3478;

/// Size of the owned slot a datagram prefix is copied into.
pub const WORK_SLOT_SIZE: usize = 64;

/// A client transport address as the handler needs it: an IPv4
/// endpoint, or the bare fact that the client spoke IPv6.
#[derive(Clone, Copy, Debug)]
pub enum ClientAddr {
    V4(Ipv4Endpoint),
    V6,
}

/// One unit of work handed from the receiver to a worker: a fixed
/// 64-byte slot holding the datagram prefix, the byte count, and the
/// client address.
pub struct WorkItem {
    pub data: [u8; 64],
    pub len: usize,
    pub client_addr: ClientAddr,
}

impl WorkItem {
    /// The datagram bytes this item carries.
    pub open spec fn payload(&self) -> Seq<u8> {
        self.data@.take(self.len as int)
    }

    /// Copy a received datagram into an owned slot. The receive
    /// buffer is at most [`WORK_SLOT_SIZE`] bytes, so nothing is lost
    /// here; longer datagrams were already truncated at the socket.
    pub fn from_datagram(datagram: &[u8], client_addr: ClientAddr) -> (w: WorkItem)
        requires
            datagram@.len() <= WORK_SLOT_SIZE,
        ensures
            w.payload() == datagram@,
            w.len == datagram@.len(),
            w.client_addr == client_addr,
    {
        let mut data = [0u8; 64];
        let len = datagram.len();
        let mut i: usize = 0;
        while i < len
            invariant
                0 <= i <= len,
                len == datagram@.len() <= 64,
                forall|j: int| 0 <= j < i ==> data@[j] == datagram@[j],
            decreases len - i,
        {
            data[i] = datagram[i];
            i = i + 1;
        }
        let w = WorkItem { data, len, client_addr };
        proof {
            assert(w.payload() =~= datagram@);
        }
        w
    }
}

/// What handling a datagram yields: the response bytes to send back,
/// or the error that silences it. Only a binding request from an IPv4
/// client is answered.
pub open spec fn spec_handle_request(data: Seq<u8>, client_addr: ClientAddr) -> Result<
    Seq<u8>,
    StunError,
> {
    match spec_parse(data) {
        Err(e) => Err(e),
        Ok(h) => if !(h.0 is BindingRequest) {
            Err(StunError::UnsupportedMessageType(h.0))
        } else {
            match client_addr {
                ClientAddr::V6 => Err(StunError::Ipv6NotSupported),
                ClientAddr::V4(ep) => Ok(spec_binding_response(h.1, ep)),
            }
        },
    }
}

/// For every datagram that parses as a binding request, from any
/// IPv4 client, handling succeeds with the 32-byte binding response
/// that echoes the request's transaction identifier, parses back
/// under the same header rules, and decodes through the XOR mapping
/// to exactly the client's address octets and port.
pub proof fn lemma_binding_request_answered(data: Seq<u8>, ep: Ipv4Endpoint)
    requires
        spec_parse(data) matches Ok(h) && h.0 is BindingRequest,
    ensures
        ({
            let xid = spec_parse(data)->Ok_0.1;
            let resp = spec_binding_response(xid, ep);
            &&& spec_handle_request(data, ClientAddr::V4(ep)) == Ok::<Seq<u8>, StunError>(resp)
            &&& resp.len() == BINDING_RESPONSE_SIZE
            &&& spec_parse(resp) == Ok::<(MessageType, Seq<u8>), StunError>(
                (MessageType::BindingResponse, xid),
            )
            &&& spec_parse_response(resp) == Some((xid, ep.octets@, ep.port))
        }),
{
    let xid = spec_parse(data)->Ok_0.1;
    assert(xid.len() == 12);
    lemma_parse_of_built_response(xid, ep);
    lemma_response_round_trip(xid, ep);
}

/// Handle one STUN datagram: parse it, reject anything but a binding
/// request from an IPv4 client, and otherwise write the 32-byte
/// binding response into `response_buf`.
pub fn handle_request(data: &[u8], client_addr: ClientAddr, response_buf: &mut [u8; 32]) -> (r:
    Result<usize, StunError>)
    ensures
        r is Ok <==> spec_handle_request(data@, client_addr) is Ok,
        r matches Ok(n) ==> n == BINDING_RESPONSE_SIZE && (spec_handle_request(data@, client_addr)
            matches Ok(resp) && final(response_buf)@ == resp),
        r matches Err(e) ==> (spec_handle_request(data@, client_addr) matches Err(e2) && e == e2)
            && final(response_buf)@ == old(response_buf)@,
{
    let request = match StunRequest::parse(data) {
        Ok(req) => req,
        Err(e) => {
            return Err(e);
        },
    };

    if !request.is_binding_request() {
        return Err(StunError::UnsupportedMessageType(request.msg_type));
    }

    let addr_v4 = match client_addr {
        ClientAddr::V4(v4) => v4,
        ClientAddr::V6 => {
            return Err(StunError::Ipv6NotSupported);
        },
    };

    let response = StunResponse::binding_response(request.transaction_id.as_slice(), addr_v4);
    let bytes = response.as_bytes();
    let mut i: usize = 0;
    while i < 32
        invariant
            0 <= i <= 32,
            bytes@.len() == 32,
            forall|j: int| 0 <= j < i ==> response_buf@[j] == bytes@[j],
        decreases 32 - i,
    {
        response_buf[i] = bytes[i];
        i = i + 1;
    }
    proof {
        assert(response_buf@ =~= bytes@);
    }
    Ok(BINDING_RESPONSE_SIZE)
}

} // verus!
