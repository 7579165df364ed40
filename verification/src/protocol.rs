//! STUN wire codec (RFC 5389 subset): header parsing and construction
//! of binding responses carrying an XOR-MAPPED-ADDRESS attribute.

use vstd::prelude::*;

verus! {

/// STUN magic cookie (RFC 5389), big-endian 32-bit.
pub const MAGIC_COOKIE: u32 = 0x2112A442;

/// Fixed STUN header size in bytes.
pub const HEADER_SIZE: usize = 20;

/// Binding response size: 20 (header) + 12 (XOR-MAPPED-ADDRESS for IPv4).
pub const BINDING_RESPONSE_SIZE: usize = 32;

/// Length of the opaque transaction identifier.
pub const TRANSACTION_ID_LEN: usize = 12;

/// STUN message types recognized by the codec.
#[derive(Clone, Copy, Debug, PartialEq, Eq, Structural)]
pub enum MessageType {
    BindingRequest,
    BindingResponse,
    BindingErrorResponse,
}

impl MessageType {
    /// The message type encoded by a 16-bit wire value, if recognized.
    pub open spec fn spec_from_u16(value: u16) -> Option<MessageType> {
        if value == 0x0001 {
            Some(MessageType::BindingRequest)
        } else if value == 0x0101 {
            Some(MessageType::BindingResponse)
        } else if value == 0x0111 {
            Some(MessageType::BindingErrorResponse)
        } else {
            None
        }
    }

    pub fn from_u16(value: u16) -> (r: Option<MessageType>)
        ensures
            r == MessageType::spec_from_u16(value),
    {
        match value {
            0x0001 => Some(MessageType::BindingRequest),
            0x0101 => Some(MessageType::BindingResponse),
            0x0111 => Some(MessageType::BindingErrorResponse),
            _ => None,
        }
    }

    /// The 16-bit wire value of a message type.
    pub open spec fn spec_to_u16(self) -> u16 {
        match self {
            MessageType::BindingRequest => 0x0001,
            MessageType::BindingResponse => 0x0101,
            MessageType::BindingErrorResponse => 0x0111,
        }
    }

    pub fn to_u16(self) -> (r: u16)
        ensures
            r == self.spec_to_u16(),
    {
        match self {
            MessageType::BindingRequest => 0x0001,
            MessageType::BindingResponse => 0x0101,
            MessageType::BindingErrorResponse => 0x0111,
        }
    }
}

/// STUN protocol errors. Every rejected datagram is classified by
/// exactly one of these variants.
#[derive(Clone, Copy, Debug, PartialEq, Eq, Structural)]
#[allow(inconsistent_fields)]
pub enum StunError {
    /// Fewer bytes than the fixed header needs.
    MessageTooShort { expected: usize, actual: usize },
    /// The third word of the header is not the magic cookie.
    InvalidMagicCookie { expected: u32, actual: u32 },
    /// The leading 16-bit type is not in the recognized vocabulary.
    UnknownMessageType(u16),
    /// Recognized on the wire, but not served by this server.
    UnsupportedMessageType(MessageType),
    /// The client did not speak over IPv4.
    Ipv6NotSupported,
}

/// Big-endian 16-bit value of two consecutive bytes.
pub open spec fn spec_be16(d: Seq<u8>, i: int) -> u16
    recommends
        0 <= i,
        i + 2 <= d.len(),
{
    ((d[i] as int) * 0x100 + (d[i + 1] as int)) as u16
}

/// Big-endian 32-bit value of four consecutive bytes.
pub open spec fn spec_be32(d: Seq<u8>, i: int) -> u32
    recommends
        0 <= i,
        i + 4 <= d.len(),
{
    ((d[i] as int) * 0x1000000 + (d[i + 1] as int) * 0x10000 + (d[i + 2] as int) * 0x100 + (d[i
        + 3] as int)) as u32
}

/// What parsing a datagram yields: the recognized type and the
/// 12-byte transaction identifier, or the error that rejects it.
pub open spec fn spec_parse(d: Seq<u8>) -> Result<(MessageType, Seq<u8>), StunError> {
    if d.len() < HEADER_SIZE {
        Err(
            StunError::MessageTooShort {
                expected: HEADER_SIZE,
                actual: d.len() as usize,
            },
        )
    } else {
        let raw = spec_be16(d, 0);
        match MessageType::spec_from_u16(raw) {
            None => Err(StunError::UnknownMessageType(raw)),
            Some(msg_type) => {
                let cookie = spec_be32(d, 4);
                if cookie != MAGIC_COOKIE {
                    Err(
                        StunError::InvalidMagicCookie {
                            expected: MAGIC_COOKIE,
                            actual: cookie,
                        },
                    )
                } else {
                    Ok((msg_type, d.subrange(8, 20)))
                }
            },
        }
    }
}

/// A parsed STUN request header. The transaction identifier is held
/// by value so the request outlives the receive buffer.
#[derive(Clone, Copy, Debug)]
pub struct StunRequest {
    pub msg_type: MessageType,
    pub transaction_id: [u8; 12],
}

impl StunRequest {
    /// Parse a STUN header from raw bytes.
    ///
    /// The length field is not validated and any attributes after the
    /// header are ignored: only header presence is required.
    pub fn parse(data: &[u8]) -> (r: Result<StunRequest, StunError>)
        ensures
            r matches Ok(req) ==> spec_parse(data@) matches Ok(h) && req.msg_type == h.0
                && req.transaction_id@ == h.1,
            r matches Err(e) ==> spec_parse(data@) matches Err(e2) && e == e2,
    {
        if data.len() < HEADER_SIZE {
            return Err(
                StunError::MessageTooShort {
                    expected: HEADER_SIZE,
                    actual: data.len(),
                },
            );
        }
        let raw: u16 = (data[0] as u16) * 0x100 + (data[1] as u16);
        let msg_type = match MessageType::from_u16(raw) {
            Some(t) => t,
            None => {
                return Err(StunError::UnknownMessageType(raw));
            },
        };
        let cookie: u32 = (data[4] as u32) * 0x1000000 + (data[5] as u32) * 0x10000 + (data[
            6
        ] as u32) * 0x100 + (data[7] as u32);
        if cookie != MAGIC_COOKIE {
            return Err(
                StunError::InvalidMagicCookie {
                    expected: MAGIC_COOKIE,
                    actual: cookie,
                },
            );
        }
        let mut transaction_id = [0u8; 12];
        let mut i: usize = 0;
        while i < 12
            invariant
                0 <= i <= 12,
                data@.len() >= 20,
                forall|j: int| 0 <= j < i ==> transaction_id@[j] == data@[8 + j],
            decreases 12 - i,
        {
            transaction_id[i] = data[8 + i];
            i = i + 1;
        }
        proof {
            assert(transaction_id@ =~= data@.subrange(8, 20));
        }
        Ok(StunRequest { msg_type, transaction_id })
    }

    /// Whether this request asks for a binding.
    pub fn is_binding_request(&self) -> (r: bool)
        ensures
            r <==> self.msg_type is BindingRequest,
    {
        self.msg_type == MessageType::BindingRequest
    }
}

/// An IPv4 transport address as the server observes it: four address
/// octets in network order and a port.
#[derive(Clone, Copy, Debug)]
pub struct Ipv4Endpoint {
    pub octets: [u8; 4],
    pub port: u16,
}

/// The 32 bytes of a binding response: header with type 0x0101,
/// length 12 and the magic cookie, the echoed transaction identifier,
/// then the XOR-MAPPED-ADDRESS attribute. The port is XOR'd with the
/// upper 16 cookie bits, each address octet with the matching cookie
/// byte.
pub open spec fn spec_binding_response(xid: Seq<u8>, client: Ipv4Endpoint) -> Seq<u8>
    recommends
        xid.len() == 12,
{
    seq![0x01u8, 0x01, 0x00, 0x0C, 0x21, 0x12, 0xA4, 0x42] + xid + seq![
        0x00u8,
        0x20,
        0x00,
        0x08,
        0x00,
        0x01,
        ((client.port ^ 0x2112) >> 8) as u8,
        ((client.port ^ 0x2112) & 0xFF) as u8,
        client.octets[0] ^ 0x21,
        client.octets[1] ^ 0x12,
        client.octets[2] ^ 0xA4,
        client.octets[3] ^ 0x42,
    ]
}

/// A built binding response, exactly [`BINDING_RESPONSE_SIZE`] bytes.
#[derive(Clone, Copy, Debug)]
pub struct StunResponse {
    buffer: [u8; 32],
}

impl View for StunResponse {
    type V = Seq<u8>;

    closed spec fn view(&self) -> Seq<u8> {
        self.buffer@
    }
}

impl StunResponse {
    /// Build the binding response that echoes `transaction_id` and
    /// carries `client_addr` XOR'd with the magic cookie.
    pub fn binding_response(transaction_id: &[u8], client_addr: Ipv4Endpoint) -> (r: StunResponse)
        requires
            transaction_id@.len() == 12,
        ensures
            r@ == spec_binding_response(transaction_id@, client_addr),
            r@.len() == BINDING_RESPONSE_SIZE,
    {
        let mut buffer = [0u8; 32];
        buffer[0] = 0x01;
        buffer[1] = 0x01;
        buffer[2] = 0x00;
        buffer[3] = 0x0C;
        buffer[4] = 0x21;
        buffer[5] = 0x12;
        buffer[6] = 0xA4;
        buffer[7] = 0x42;
        let mut i: usize = 0;
        while i < 12
            invariant
                0 <= i <= 12,
                transaction_id@.len() == 12,
                buffer@.len() == 32,
                buffer@[0] == 0x01u8,
                buffer@[1] == 0x01u8,
                buffer@[2] == 0x00u8,
                buffer@[3] == 0x0Cu8,
                buffer@[4] == 0x21u8,
                buffer@[5] == 0x12u8,
                buffer@[6] == 0xA4u8,
                buffer@[7] == 0x42u8,
                forall|j: int| 0 <= j < i ==> buffer@[8 + j] == transaction_id@[j],
            decreases 12 - i,
        {
            buffer[8 + i] = transaction_id[i];
            i = i + 1;
        }
        buffer[20] = 0x00;
        buffer[21] = 0x20;
        buffer[22] = 0x00;
        buffer[23] = 0x08;
        buffer[24] = 0x00;
        buffer[25] = 0x01;
        let xor_port: u16 = client_addr.port ^ 0x2112;
        buffer[26] = (xor_port >> 8) as u8;
        buffer[27] = (xor_port & 0xFF) as u8;
        buffer[28] = client_addr.octets[0] ^ 0x21;
        buffer[29] = client_addr.octets[1] ^ 0x12;
        buffer[30] = client_addr.octets[2] ^ 0xA4;
        buffer[31] = client_addr.octets[3] ^ 0x42;
        let r = StunResponse { buffer };
        proof {
            assert(r@ =~= spec_binding_response(transaction_id@, client_addr));
        }
        r
    }

    /// The response bytes.
    pub fn as_bytes(&self) -> (r: &[u8])
        ensures
            r@ == self@,
    {
        self.buffer.as_slice()
    }
}

/// What decoding a binding response yields, if its header and
/// attribute header are exactly those the builder writes: the echoed
/// transaction identifier, the four recovered address octets, and the
/// recovered port.
pub open spec fn spec_parse_response(d: Seq<u8>) -> Option<(Seq<u8>, Seq<u8>, u16)> {
    if d.len() == 32 && d[0] == 0x01u8 && d[1] == 0x01u8 && d[2] == 0x00u8 && d[3] == 0x0Cu8
        && spec_be32(d, 4) == MAGIC_COOKIE && d[20] == 0x00u8 && d[21] == 0x20u8 && d[22] == 0x00u8
        && d[23] == 0x08u8 && d[24] == 0x00u8 && d[25] == 0x01u8 {
        Some(
            (
                d.subrange(8, 20),
                seq![d[28] ^ 0x21, d[29] ^ 0x12, d[30] ^ 0xA4, d[31] ^ 0x42],
                (((d[26] as u16) << 8) | (d[27] as u16)) ^ 0x2112,
            ),
        )
    } else {
        None
    }
}

/// Decode a binding response built by this codec, recovering the
/// transaction identifier and the mapped address.
pub fn parse_response(data: &[u8]) -> (r: Option<(StunRequest, Ipv4Endpoint)>)
    ensures
        r is Some <==> spec_parse_response(data@) is Some,
        r matches Some(p) ==> spec_parse_response(data@) matches Some(s) && p.0.msg_type
            is BindingResponse && p.0.transaction_id@ == s.0 && p.1.octets@ == s.1 && p.1.port
            == s.2,
{
    if data.len() != 32 {
        return None;
    }
    if !(data[0] == 0x01 && data[1] == 0x01 && data[2] == 0x00 && data[3] == 0x0C) {
        return None;
    }
    let cookie: u32 = (data[4] as u32) * 0x1000000 + (data[5] as u32) * 0x10000 + (data[
        6
    ] as u32) * 0x100 + (data[7] as u32);
    if cookie != MAGIC_COOKIE {
        return None;
    }
    if !(data[20] == 0x00 && data[21] == 0x20 && data[22] == 0x00 && data[23] == 0x08 && data[24]
        == 0x00 && data[25] == 0x01) {
        return None;
    }
    let mut transaction_id = [0u8; 12];
    let mut i: usize = 0;
    while i < 12
        invariant
            0 <= i <= 12,
            data@.len() == 32,
            forall|j: int| 0 <= j < i ==> transaction_id@[j] == data@[8 + j],
        decreases 12 - i,
    {
        transaction_id[i] = data[8 + i];
        i = i + 1;
    }
    proof {
        assert(transaction_id@ =~= data@.subrange(8, 20));
    }
    let mut octets = [0u8; 4];
    octets[0] = data[28] ^ 0x21;
    octets[1] = data[29] ^ 0x12;
    octets[2] = data[30] ^ 0xA4;
    octets[3] = data[31] ^ 0x42;
    let port: u16 = (((data[26] as u16) << 8) | (data[27] as u16)) ^ 0x2112;
    proof {
        assert(octets@ =~= spec_parse_response(data@).unwrap().1);
    }
    Some(
        (
            StunRequest { msg_type: MessageType::BindingResponse, transaction_id },
            Ipv4Endpoint { octets, port },
        ),
    )
}

/// The XOR of the encoded port bytes undoes to the original port.
proof fn lemma_port_xor_undo(p: u16)
    by (bit_vector)
    ensures
        (((((p ^ 0x2112) >> 8) as u8 as u16) << 8) | (((p ^ 0x2112) & 0xFF) as u8 as u16))
            ^ 0x2112 == p,
{
}

/// The XOR of an address octet with a cookie byte undoes itself.
proof fn lemma_octet_xor_undo(o: u8, c: u8)
    by (bit_vector)
    ensures
        (o ^ c) ^ c == o,
{
}

/// A response built from a transaction identifier and an IPv4
/// endpoint decodes back to exactly that identifier, those octets and
/// that port.
pub proof fn lemma_response_round_trip(xid: Seq<u8>, client: Ipv4Endpoint)
    requires
        xid.len() == 12,
    ensures
        spec_parse_response(spec_binding_response(xid, client)) == Some(
            (xid, client.octets@, client.port),
        ),
{
    let d = spec_binding_response(xid, client);
    assert(d.len() == 32);
    assert(d.subrange(8, 20) =~= xid);
    lemma_port_xor_undo(client.port);
    lemma_octet_xor_undo(client.octets[0], 0x21);
    lemma_octet_xor_undo(client.octets[1], 0x12);
    lemma_octet_xor_undo(client.octets[2], 0xA4);
    lemma_octet_xor_undo(client.octets[3], 0x42);
    assert(spec_parse_response(d).unwrap().1 =~= client.octets@);
}

/// Every datagram shorter than the fixed header is rejected as too
/// short, and with exactly that error.
pub proof fn lemma_short_datagram_rejected(d: Seq<u8>)
    requires
        d.len() < HEADER_SIZE,
    ensures
        spec_parse(d) == Err::<(MessageType, Seq<u8>), StunError>(
            StunError::MessageTooShort { expected: HEADER_SIZE, actual: d.len() as usize },
        ),
{
}

/// Parsing a built binding response succeeds and round-trips the
/// message type, the transaction identifier and the cookie check.
pub proof fn lemma_parse_of_built_response(xid: Seq<u8>, client: Ipv4Endpoint)
    requires
        xid.len() == 12,
    ensures
        spec_parse(spec_binding_response(xid, client)) == Ok::<_, StunError>(
            (MessageType::BindingResponse, xid),
        ),
{
    let d = spec_binding_response(xid, client);
    assert(d.len() == 32);
    assert(spec_be16(d, 0) == 0x0101);
    assert(spec_be32(d, 4) == MAGIC_COOKIE);
    assert(d.subrange(8, 20) =~= xid);
}

} // verus!
