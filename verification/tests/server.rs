use chat_relay::messages::{ClientBoundMessage, Envelope, PeerDescription, PeerPublicKey, ServerBoundMessage};
use chat_relay::server::ServerDirectory;

const ID_A: u128 = 0xA;
const ID_B: u128 = 0xB;
const ID_C: u128 = 0xC;

fn some_key() -> PeerPublicKey {
    PeerPublicKey {
        modulus: vec![1, 2, 3],
        exponent: vec![1, 0, 1],
    }
}

fn some_envelope() -> Envelope {
    Envelope {
        encrypted_key: vec![1],
        nonce: vec![2; 12],
        ciphertext: vec![3, 4],
    }
}

#[test]
fn join_gets_uuid_then_empty_snapshot() {
    let mut dir = ServerDirectory::new();
    let msgs = dir.accept(ID_A).unwrap();
    assert_eq!(msgs.len(), 2);
    assert_eq!(msgs[0], ClientBoundMessage::SetUuid(ID_A));
    assert_eq!(msgs[1], ClientBoundMessage::ClientList(vec![]));
}

#[test]
fn duplicate_accept_is_refused() {
    let mut dir = ServerDirectory::new();
    dir.accept(ID_A).unwrap();
    assert!(dir.accept(ID_A).is_err());
    assert!(dir.has_peer(ID_A));
}

#[test]
fn named_peer_is_in_snapshot_unnamed_is_not() {
    let mut dir = ServerDirectory::new();
    dir.accept(ID_A).unwrap();
    dir.accept(ID_B).unwrap();
    // A advertises; B stays unnamed.
    dir.handle_message(ID_A, ServerBoundMessage::Advertise("alice".to_string()));
    let msgs = dir.accept(ID_C).unwrap();
    let expected = vec![PeerDescription {
        name: "alice".to_string(),
        id: ID_A,
    }];
    assert_eq!(msgs[1], ClientBoundMessage::ClientList(expected));
}

#[test]
fn advertise_broadcasts_to_all_including_sender() {
    let mut dir = ServerDirectory::new();
    dir.accept(ID_A).unwrap();
    dir.accept(ID_B).unwrap();
    let deliveries = dir.handle_message(ID_B, ServerBoundMessage::Advertise("bob".to_string()));
    assert_eq!(deliveries.len(), 2);
    let recipients: Vec<u128> = deliveries.iter().map(|d| d.recipient).collect();
    assert!(recipients.contains(&ID_A));
    assert!(recipients.contains(&ID_B));
    for d in &deliveries {
        assert_eq!(
            d.message,
            ClientBoundMessage::NewClient(PeerDescription {
                name: "bob".to_string(),
                id: ID_B,
            })
        );
    }
}

#[test]
fn request_is_rewritten_to_sender_identity() {
    let mut dir = ServerDirectory::new();
    dir.accept(ID_A).unwrap();
    dir.accept(ID_B).unwrap();
    dir.handle_message(ID_A, ServerBoundMessage::Advertise("alice".to_string()));
    // The body claims a bogus description; the server must substitute A's.
    let bogus = PeerDescription {
        name: "mallory".to_string(),
        id: ID_B,
    };
    let deliveries = dir.handle_message(
        ID_A,
        ServerBoundMessage::ConnectionRequest(bogus, some_key()),
    );
    assert_eq!(deliveries.len(), 1);
    assert_eq!(deliveries[0].recipient, ID_B);
    assert_eq!(
        deliveries[0].message,
        ClientBoundMessage::ConnectionRequest(
            PeerDescription {
                name: "alice".to_string(),
                id: ID_A,
            },
            some_key(),
        )
    );
}

#[test]
fn unnamed_sender_forwards_with_empty_name() {
    let mut dir = ServerDirectory::new();
    dir.accept(ID_A).unwrap();
    dir.accept(ID_B).unwrap();
    let deliveries = dir.handle_message(
        ID_A,
        ServerBoundMessage::ConnectionResponse(
            PeerDescription {
                name: String::new(),
                id: ID_B,
            },
            some_key(),
        ),
    );
    assert_eq!(deliveries.len(), 1);
    assert_eq!(
        deliveries[0].message,
        ClientBoundMessage::ConnectionResponse(
            PeerDescription {
                name: String::new(),
                id: ID_A,
            },
            some_key(),
        )
    );
}

#[test]
fn forward_to_absent_target_is_dropped() {
    let mut dir = ServerDirectory::new();
    dir.accept(ID_A).unwrap();
    let deliveries = dir.handle_message(
        ID_A,
        ServerBoundMessage::Message(
            PeerDescription {
                name: String::new(),
                id: 0xDEAD,
            },
            some_envelope(),
        ),
    );
    assert!(deliveries.is_empty());
    assert!(dir.has_peer(ID_A));
}

#[test]
fn envelope_is_relayed_untouched() {
    let mut dir = ServerDirectory::new();
    dir.accept(ID_A).unwrap();
    dir.accept(ID_B).unwrap();
    let deliveries = dir.handle_message(
        ID_A,
        ServerBoundMessage::Message(
            PeerDescription {
                name: String::new(),
                id: ID_B,
            },
            some_envelope(),
        ),
    );
    assert_eq!(deliveries.len(), 1);
    match &deliveries[0].message {
        ClientBoundMessage::Message(d, env) => {
            assert_eq!(d.id, ID_A);
            assert_eq!(*env, some_envelope());
        }
        other => panic!("expected a data message, got {:?}", other),
    }
}

#[test]
fn disconnect_removes_and_broadcasts() {
    let mut dir = ServerDirectory::new();
    dir.accept(ID_A).unwrap();
    dir.accept(ID_B).unwrap();
    dir.accept(ID_C).unwrap();
    let deliveries = dir.disconnect(ID_A);
    assert!(!dir.has_peer(ID_A));
    assert!(dir.has_peer(ID_B));
    assert!(dir.has_peer(ID_C));
    assert_eq!(deliveries.len(), 2);
    for d in &deliveries {
        assert_eq!(d.message, ClientBoundMessage::ClientDisconnected(ID_A));
    }
    let recipients: Vec<u128> = deliveries.iter().map(|d| d.recipient).collect();
    assert!(recipients.contains(&ID_B));
    assert!(recipients.contains(&ID_C));
}

#[test]
fn rejoining_after_disconnect_is_allowed() {
    let mut dir = ServerDirectory::new();
    dir.accept(ID_A).unwrap();
    dir.disconnect(ID_A);
    assert!(dir.accept(ID_A).is_ok());
}
