use chat_relay::codec::{
    decode_client_bound, decode_server_bound, encode_client_bound, encode_server_bound,
    frame_payload, parse_frame_length,
};
use chat_relay::messages::{
    ClientBoundMessage, Envelope, PeerDescription, PeerPublicKey, ServerBoundMessage,
};

fn desc(name: &str, id: u128) -> PeerDescription {
    PeerDescription {
        name: name.to_string(),
        id,
    }
}

fn key(modulus: &[u8], exponent: &[u8]) -> PeerPublicKey {
    PeerPublicKey {
        modulus: modulus.to_vec(),
        exponent: exponent.to_vec(),
    }
}

fn envelope() -> Envelope {
    Envelope {
        encrypted_key: vec![1, 2, 3],
        nonce: vec![9; 12],
        ciphertext: vec![4, 5, 6, 7],
    }
}

#[test]
fn advertise_exact_bytes() {
    let m = ServerBoundMessage::Advertise("hi".to_string());
    let bytes = encode_server_bound(&m);
    let expected = vec![
        0, 0, 0, 0, // tag 0 as u32 little-endian
        2, 0, 0, 0, 0, 0, 0, 0, // byte count as u64 little-endian
        b'h', b'i',
    ];
    assert_eq!(bytes, expected);
}

#[test]
fn set_uuid_exact_bytes() {
    let m = ClientBoundMessage::SetUuid(1);
    let bytes = encode_client_bound(&m);
    let mut expected = vec![0, 0, 0, 0];
    expected.extend_from_slice(&[1, 0, 0, 0, 0, 0, 0, 0, 0, 0, 0, 0, 0, 0, 0, 0]);
    assert_eq!(bytes, expected);
}

#[test]
fn client_bound_round_trips() {
    let messages = vec![
        ClientBoundMessage::SetUuid(0x0102030405060708090a0b0c0d0e0f10),
        ClientBoundMessage::ClientList(vec![]),
        ClientBoundMessage::ClientList(vec![desc("alice", 7), desc("", 8)]),
        ClientBoundMessage::NewClient(desc("bob", 42)),
        ClientBoundMessage::ClientDisconnected(42),
        ClientBoundMessage::ConnectionRequest(desc("alice", 7), key(&[1, 2], &[3])),
        ClientBoundMessage::ConnectionResponse(desc("", 9), key(&[255], &[1, 0, 1])),
        ClientBoundMessage::Message(desc("carol", 11), envelope()),
    ];
    for m in messages {
        let bytes = encode_client_bound(&m);
        let back = decode_client_bound(&bytes).expect("round trip must decode");
        assert_eq!(back, m);
    }
}

#[test]
fn server_bound_round_trips() {
    let messages = vec![
        ServerBoundMessage::Advertise(String::new()),
        ServerBoundMessage::Advertise("Anonymous Turtle \u{1F422}".to_string()),
        ServerBoundMessage::ConnectionRequest(desc("", 3), key(&[1, 2, 3], &[1, 0, 1])),
        ServerBoundMessage::ConnectionResponse(desc("dave", 4), key(&[9], &[7])),
        ServerBoundMessage::Message(desc("", 5), envelope()),
    ];
    for m in messages {
        let bytes = encode_server_bound(&m);
        let back = decode_server_bound(&bytes).expect("round trip must decode");
        assert_eq!(back, m);
    }
}

#[test]
fn empty_name_is_valid() {
    let m = ClientBoundMessage::NewClient(desc("", 1));
    let bytes = encode_client_bound(&m);
    assert_eq!(decode_client_bound(&bytes).unwrap(), m);
}

#[test]
fn frame_has_length_then_payload() {
    let m = ServerBoundMessage::Advertise("abc".to_string());
    let payload = encode_server_bound(&m);
    let frame = frame_payload(&payload);
    assert_eq!(frame.len(), 8 + payload.len());
    let header = frame[..8].to_vec();
    assert_eq!(parse_frame_length(&header), payload.len() as u64);
    assert_eq!(&frame[8..], &payload[..]);
}

#[test]
fn truncated_payload_is_refused() {
    let m = ClientBoundMessage::SetUuid(77);
    let mut bytes = encode_client_bound(&m);
    bytes.pop();
    assert!(decode_client_bound(&bytes).is_err());
}

#[test]
fn unknown_tag_is_refused() {
    let bytes = vec![9, 0, 0, 0, 1, 2, 3];
    assert!(decode_client_bound(&bytes).is_err());
    assert!(decode_server_bound(&bytes).is_err());
}

#[test]
fn trailing_bytes_are_refused() {
    let m = ClientBoundMessage::ClientDisconnected(5);
    let mut bytes = encode_client_bound(&m);
    bytes.push(0);
    assert!(decode_client_bound(&bytes).is_err());
}

#[test]
fn invalid_utf8_name_is_refused() {
    // Advertise with a 1-byte "string" holding a lone continuation byte.
    let bytes = vec![
        0, 0, 0, 0, // tag 0
        1, 0, 0, 0, 0, 0, 0, 0, // one byte follows
        0x80,
    ];
    assert!(decode_server_bound(&bytes).is_err());
}

#[test]
fn empty_buffer_is_refused() {
    let bytes: Vec<u8> = Vec::new();
    assert!(decode_client_bound(&bytes).is_err());
}
