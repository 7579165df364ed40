use carapace::protocol::{MessageType, StunError, StunRequest, StunResponse, Ipv4Endpoint};
use carapace::protocol::parse_response;
use carapace::server::{handle_request, ClientAddr, WorkItem};

fn binding_request(xid: &[u8; 12]) -> Vec<u8> {
    let mut d = vec![0x00, 0x01, 0x00, 0x00, 0x21, 0x12, 0xA4, 0x42];
    d.extend_from_slice(xid);
    d
}

#[test]
fn binding_request_happy_path() {
    let mut xid = [0u8; 12];
    xid.copy_from_slice(b"BENCHMARK123");
    let data = binding_request(&xid);
    let client = ClientAddr::V4(Ipv4Endpoint { octets: [192, 168, 1, 100], port: 12345 });
    let mut buf = [0u8; 32];
    let n = handle_request(data.as_slice(), client, &mut buf).unwrap();
    assert_eq!(n, 32);
    assert_eq!(&buf[0..2], &[0x01, 0x01]);
    assert_eq!(&buf[2..4], &[0x00, 0x0C]);
    assert_eq!(&buf[4..8], &[0x21, 0x12, 0xA4, 0x42]);
    assert_eq!(&buf[8..20], b"BENCHMARK123");
    assert_eq!(&buf[20..26], &[0x00, 0x20, 0x00, 0x08, 0x00, 0x01]);
    assert_eq!(&buf[26..28], &[0x11, 0x2B]);
    assert_eq!(&buf[28..32], &[0xE1, 0xBA, 0xA5, 0x26]);
}

#[test]
fn bad_cookie_no_response() {
    let mut data = binding_request(b"BENCHMARK123");
    data[4] = 0x00;
    data[5] = 0x00;
    data[6] = 0x00;
    data[7] = 0x00;
    let client = ClientAddr::V4(Ipv4Endpoint { octets: [192, 168, 1, 100], port: 12345 });
    let mut buf = [0u8; 32];
    let r = handle_request(data.as_slice(), client, &mut buf);
    assert!(matches!(
        r,
        Err(StunError::InvalidMagicCookie { expected: 0x2112A442, actual: 0 })
    ));
    assert_eq!(buf, [0u8; 32]);
}

#[test]
fn short_datagrams_rejected() {
    for len in [0usize, 1, 19] {
        let data = vec![0u8; len];
        let r = StunRequest::parse(data.as_slice());
        match r {
            Err(StunError::MessageTooShort { expected, actual }) => {
                assert_eq!(expected, 20);
                assert_eq!(actual, len);
            }
            other => panic!("expected MessageTooShort, got {:?}", other),
        }
    }
}

#[test]
fn unknown_message_type_rejected() {
    let mut data = binding_request(b"BENCHMARK123");
    data[0] = 0x77;
    data[1] = 0x77;
    let r = StunRequest::parse(data.as_slice());
    assert!(matches!(r, Err(StunError::UnknownMessageType(0x7777))));
}

#[test]
fn recognized_but_unsupported_type() {
    let mut data = binding_request(b"BENCHMARK123");
    data[0] = 0x01;
    data[1] = 0x01;
    let parsed = StunRequest::parse(data.as_slice()).unwrap();
    assert!(!parsed.is_binding_request());
    assert_eq!(parsed.msg_type, MessageType::BindingResponse);
    let client = ClientAddr::V4(Ipv4Endpoint { octets: [1, 2, 3, 4], port: 1 });
    let mut buf = [0u8; 32];
    let r = handle_request(data.as_slice(), client, &mut buf);
    assert!(matches!(
        r,
        Err(StunError::UnsupportedMessageType(MessageType::BindingResponse))
    ));
}

#[test]
fn ipv6_clients_get_no_response() {
    let data = binding_request(b"BENCHMARK123");
    let mut buf = [0u8; 32];
    let r = handle_request(data.as_slice(), ClientAddr::V6, &mut buf);
    assert!(matches!(r, Err(StunError::Ipv6NotSupported)));
}

#[test]
fn message_type_wire_values() {
    assert_eq!(MessageType::from_u16(0x0001), Some(MessageType::BindingRequest));
    assert_eq!(MessageType::from_u16(0x0101), Some(MessageType::BindingResponse));
    assert_eq!(MessageType::from_u16(0x0111), Some(MessageType::BindingErrorResponse));
    assert_eq!(MessageType::from_u16(0x0002), None);
    assert_eq!(MessageType::BindingRequest.to_u16(), 0x0001);
    assert_eq!(MessageType::BindingResponse.to_u16(), 0x0101);
    assert_eq!(MessageType::BindingErrorResponse.to_u16(), 0x0111);
}

#[test]
fn build_then_parse_recovers_everything() {
    let xid = *b"abcdefghijkl";
    let ep = Ipv4Endpoint { octets: [10, 0, 0, 7], port: 60000 };
    let resp = StunResponse::binding_response(&xid, ep);
    let bytes = resp.as_bytes();
    assert_eq!(bytes.len(), 32);

    let header = StunRequest::parse(bytes).unwrap();
    assert_eq!(header.msg_type, MessageType::BindingResponse);
    assert_eq!(&header.transaction_id, &xid);

    let (req, back) = parse_response(bytes).unwrap();
    assert_eq!(&req.transaction_id, &xid);
    assert_eq!(back.octets, [10, 0, 0, 7]);
    assert_eq!(back.port, 60000);
}

#[test]
fn work_item_copies_datagram() {
    let data = binding_request(b"BENCHMARK123");
    let w = WorkItem::from_datagram(
        data.as_slice(),
        ClientAddr::V4(Ipv4Endpoint { octets: [9, 9, 9, 9], port: 9 }),
    );
    assert_eq!(w.len, 20);
    assert_eq!(&w.data[..20], data.as_slice());
}

#[test]
fn worker_queue_overflow_drops_but_answers_are_well_formed() {
    const CAPACITY: usize = 1024;
    let mut queue: Vec<WorkItem> = Vec::new();
    let client = ClientAddr::V4(Ipv4Endpoint { octets: [192, 168, 1, 100], port: 12345 });
    let mut dropped = 0usize;
    for k in 0..2000u32 {
        let mut xid = [0u8; 12];
        xid[..4].copy_from_slice(&k.to_be_bytes());
        let data = binding_request(&xid);
        if queue.len() < CAPACITY {
            queue.push(WorkItem::from_datagram(data.as_slice(), client));
        } else {
            dropped += 1;
        }
    }
    assert!(dropped > 0);
    let mut responses = 0usize;
    for w in &queue {
        let mut buf = [0u8; 32];
        let n = handle_request(&w.data[..w.len], w.client_addr, &mut buf).unwrap();
        assert_eq!(n, 32);
        assert_eq!(&buf[0..2], &[0x01, 0x01]);
        assert_eq!(&buf[4..8], &[0x21, 0x12, 0xA4, 0x42]);
        assert_eq!(&buf[8..20], &w.data[8..20]);
        responses += 1;
    }
    assert!(responses < 2000);
    assert_eq!(responses + dropped, 2000);
}
