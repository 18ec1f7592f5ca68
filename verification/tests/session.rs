use chat_relay::crypto::{generate_keypair, seal_message};
use chat_relay::messages::{
    ClientBoundMessage, PeerDescription, PeerPublicKey, ServerBoundMessage,
};
use chat_relay::server::ServerDirectory;
use chat_relay::session::{ClientSession, OpenOutcome, SendError, UiEvent};

const ID_A: u128 = 0xA1;
const ID_B: u128 = 0xB2;

fn session() -> ClientSession {
    ClientSession::new(generate_keypair().unwrap())
}

fn desc(name: &str, id: u128) -> PeerDescription {
    PeerDescription {
        name: name.to_string(),
        id,
    }
}

fn some_key() -> PeerPublicKey {
    PeerPublicKey {
        modulus: vec![5, 6],
        exponent: vec![1, 0, 1],
    }
}

#[test]
fn set_uuid_is_stored() {
    let mut s = session();
    assert_eq!(s.apply_inbound(ClientBoundMessage::SetUuid(ID_A)), UiEvent::Silent);
    assert_eq!(s.own_id, Some(ID_A));
}

#[test]
fn client_list_replaces_peer_list() {
    let mut s = session();
    s.apply_inbound(ClientBoundMessage::NewClient(desc("old", 1)));
    s.apply_inbound(ClientBoundMessage::ClientList(vec![
        desc("alice", ID_A),
        desc("bob", ID_B),
    ]));
    assert_eq!(s.peer_list, vec![desc("alice", ID_A), desc("bob", ID_B)]);
}

#[test]
fn new_client_is_appended() {
    let mut s = session();
    s.apply_inbound(ClientBoundMessage::NewClient(desc("alice", ID_A)));
    s.apply_inbound(ClientBoundMessage::NewClient(desc("bob", ID_B)));
    assert_eq!(s.peer_list, vec![desc("alice", ID_A), desc("bob", ID_B)]);
}

#[test]
fn disconnect_removes_list_entry_but_keeps_pairing() {
    let mut s = session();
    s.apply_inbound(ClientBoundMessage::NewClient(desc("alice", ID_A)));
    s.apply_inbound(ClientBoundMessage::ConnectionResponse(
        desc("alice", ID_A),
        some_key(),
    ));
    assert_eq!(s.open_channel(ID_A), OpenOutcome::Switched);
    s.apply_inbound(ClientBoundMessage::ClientDisconnected(ID_A));
    assert!(s.peer_list.is_empty());
    // Pairings and the current channel survive a departure.
    assert_eq!(s.pairings.len(), 1);
    assert_eq!(s.current_channel, Some(ID_A));
}

#[test]
fn duplicate_request_is_suppressed() {
    let mut s = session();
    let first = s.apply_inbound(ClientBoundMessage::ConnectionRequest(
        desc("alice", ID_A),
        some_key(),
    ));
    assert_eq!(first, UiEvent::RequestReceived);
    assert_eq!(s.pending.len(), 1);
    let second = s.apply_inbound(ClientBoundMessage::ConnectionRequest(
        desc("alice again", ID_A),
        PeerPublicKey {
            modulus: vec![7],
            exponent: vec![3],
        },
    ));
    assert_eq!(second, UiEvent::Silent);
    assert_eq!(s.pending.len(), 1);
    assert_eq!(s.pending[0].desc, desc("alice", ID_A));
    assert_eq!(s.pending[0].key, some_key());
}

#[test]
fn open_without_pairing_sends_request() {
    let mut s = session();
    match s.open_channel(ID_B) {
        OpenOutcome::RequestSent(ServerBoundMessage::ConnectionRequest(d, k)) => {
            assert_eq!(d, desc("", ID_B));
            assert_eq!(k, s.keypair.public_key());
        }
        other => panic!("expected a request, got {:?}", other),
    }
    assert_eq!(s.current_channel, None);
    assert!(s.pairings.is_empty());
}

#[test]
fn repeated_open_on_pairing_only_moves_channel() {
    let mut s = session();
    s.apply_inbound(ClientBoundMessage::ConnectionResponse(
        desc("bob", ID_B),
        some_key(),
    ));
    assert_eq!(s.open_channel(ID_B), OpenOutcome::Switched);
    assert_eq!(s.current_channel, Some(ID_B));
    // Opening again produces no traffic and changes nothing.
    assert_eq!(s.open_channel(ID_B), OpenOutcome::AlreadyCurrent);
    assert_eq!(s.current_channel, Some(ID_B));
    assert_eq!(s.pairings.len(), 1);
}

#[test]
fn accept_unknown_request_is_refused() {
    let mut s = session();
    assert!(s.accept_request(ID_A).is_err());
}

#[test]
fn accept_consumes_request_and_records_pairing() {
    let mut s = session();
    s.apply_inbound(ClientBoundMessage::ConnectionRequest(
        desc("alice", ID_A),
        some_key(),
    ));
    let msg = s.accept_request(ID_A).unwrap();
    match msg {
        ServerBoundMessage::ConnectionResponse(d, k) => {
            assert_eq!(d, desc("", ID_A));
            assert_eq!(k, s.keypair.public_key());
        }
        other => panic!("expected an acceptance, got {:?}", other),
    }
    assert!(s.pending.is_empty());
    assert_eq!(s.pairings.len(), 1);
    assert_eq!(s.pairings[0].id, ID_A);
    assert_eq!(s.pairings[0].key, some_key());
}

#[test]
fn send_without_channel_is_refused() {
    let s = session();
    assert_eq!(
        s.send_text(&"hello".to_string()),
        Err(SendError::NoChannelSelected)
    );
}

#[test]
fn unusable_pairing_key_fails_to_encrypt() {
    let mut s = session();
    // An even public exponent is not an RSA key, so sealing must fail.
    let bad = PeerPublicKey {
        modulus: vec![0x80; 256],
        exponent: vec![4],
    };
    s.apply_inbound(ClientBoundMessage::ConnectionResponse(
        desc("bob", ID_B),
        bad,
    ));
    assert_eq!(s.open_channel(ID_B), OpenOutcome::Switched);
    assert_eq!(
        s.send_text(&"hello".to_string()),
        Err(SendError::EncryptionFailed)
    );
}

#[test]
fn pairing_handshake_and_encrypted_delivery() {
    // Bob's client and the directory, wired by hand. Alice's side is driven
    // at the message level — exactly the messages `open_channel` and
    // `send_text` are proved to produce, which keeps this test to one
    // (slow) key generation; those functions have tests of their own.
    let mut dir = ServerDirectory::new();
    let mut bob = session();

    dir.accept(ID_A).unwrap();
    dir.handle_message(ID_A, ServerBoundMessage::Advertise("alice".to_string()));
    for m in dir.accept(ID_B).unwrap() {
        bob.apply_inbound(m);
    }
    assert_eq!(bob.own_id, Some(ID_B));
    // Bob's snapshot already lists alice.
    assert_eq!(bob.peer_list, vec![desc("alice", ID_A)]);

    // Alice asks to pair with Bob. Her key is opaque bytes to everyone here:
    // nothing in this exchange encrypts to it.
    let request = ServerBoundMessage::ConnectionRequest(desc("", ID_B), some_key());
    let mut deliveries = dir.handle_message(ID_A, request);
    assert_eq!(deliveries.len(), 1);
    assert_eq!(deliveries[0].recipient, ID_B);
    assert_eq!(
        bob.apply_inbound(deliveries.remove(0).message),
        UiEvent::RequestReceived
    );

    // Bob accepts; the response carries Bob's real public key to Alice.
    let response = bob.accept_request(ID_A).unwrap();
    let mut deliveries = dir.handle_message(ID_B, response);
    assert_eq!(deliveries.len(), 1);
    assert_eq!(deliveries[0].recipient, ID_A);
    let bob_pk = match deliveries.remove(0).message {
        ClientBoundMessage::ConnectionResponse(d, k) => {
            assert_eq!(d.id, ID_B);
            k
        }
        other => panic!("expected an acceptance, got {:?}", other),
    };
    assert_eq!(bob_pk, bob.keypair.public_key());

    // Alice seals text under Bob's key; Bob reads it under Alice's name.
    let env = seal_message(&bob_pk, &b"hi".to_vec()).unwrap();
    let data = ServerBoundMessage::Message(desc("", ID_B), env);
    let mut deliveries = dir.handle_message(ID_A, data);
    assert_eq!(deliveries.len(), 1);
    assert_eq!(deliveries[0].recipient, ID_B);
    match bob.apply_inbound(deliveries.remove(0).message) {
        UiEvent::Text { name, body } => {
            assert_eq!(name, "alice");
            assert_eq!(body, "hi");
        }
        other => panic!("expected text, got {:?}", other),
    }
}

#[test]
fn unknown_sender_text_shows_fallback_name() {
    // As above, but nobody advertises, so the sender resolves to "Unknown".
    let mut dir = ServerDirectory::new();
    let mut bob = session();
    dir.accept(ID_A).unwrap();
    for m in dir.accept(ID_B).unwrap() {
        bob.apply_inbound(m);
    }
    let request = ServerBoundMessage::ConnectionRequest(desc("", ID_B), some_key());
    let mut del = dir.handle_message(ID_A, request);
    bob.apply_inbound(del.remove(0).message);
    let response = bob.accept_request(ID_A).unwrap();
    let mut del = dir.handle_message(ID_B, response);
    let bob_pk = match del.remove(0).message {
        ClientBoundMessage::ConnectionResponse(_, k) => k,
        other => panic!("expected an acceptance, got {:?}", other),
    };

    let env = seal_message(&bob_pk, &b"psst".to_vec()).unwrap();
    let mut del = dir.handle_message(ID_A, ServerBoundMessage::Message(desc("", ID_B), env));
    match bob.apply_inbound(del.remove(0).message) {
        UiEvent::Text { name, body } => {
            assert_eq!(name, "Unknown");
            assert_eq!(body, "psst");
        }
        other => panic!("expected text, got {:?}", other),
    }
}

#[test]
fn garbage_envelope_is_undecipherable() {
    let mut s = session();
    let env = chat_relay::messages::Envelope {
        encrypted_key: vec![1, 2, 3],
        nonce: vec![0; 12],
        ciphertext: vec![4, 5, 6],
    };
    let before_len = s.pairings.len();
    let r = s.apply_inbound(ClientBoundMessage::Message(desc("alice", ID_A), env));
    assert_eq!(r, UiEvent::Undecipherable);
    assert_eq!(s.pairings.len(), before_len);
}
