use chat_relay::crypto::{generate_keypair, seal_message, KeyPair};
use chat_relay::messages::PeerPublicKey;

fn keypair() -> KeyPair {
    generate_keypair().expect("2048-bit key generation must succeed")
}

#[test]
fn envelope_round_trip() {
    let kp = keypair();
    let pk = kp.public_key();
    let plaintext = b"hi".to_vec();
    let env = seal_message(&pk, &plaintext).expect("sealing to a fresh key must succeed");
    let opened = kp.open_message(&env).expect("a sealed envelope must open");
    assert_eq!(opened, plaintext);
}

#[test]
fn empty_plaintext_round_trip() {
    let kp = keypair();
    let pk = kp.public_key();
    let plaintext = Vec::new();
    let env = seal_message(&pk, &plaintext).unwrap();
    assert_eq!(kp.open_message(&env).unwrap(), plaintext);
}

#[test]
fn envelope_shape() {
    let kp = keypair();
    let pk = kp.public_key();
    let env = seal_message(&pk, &b"shape".to_vec()).unwrap();
    // 2048-bit RSA ciphertext, 96-bit GCM nonce, body plus 16-byte tag.
    assert_eq!(env.encrypted_key.len(), 256);
    assert_eq!(env.nonce.len(), 12);
    assert_eq!(env.ciphertext.len(), 5 + 16);
}

#[test]
fn tampered_ciphertext_is_refused() {
    let kp = keypair();
    let pk = kp.public_key();
    let mut env = seal_message(&pk, &b"secret".to_vec()).unwrap();
    env.ciphertext[0] ^= 0xFF;
    assert!(kp.open_message(&env).is_err());
}

#[test]
fn tampered_session_key_is_refused() {
    let kp = keypair();
    let mut env = seal_message(&kp.public_key(), &b"secret".to_vec()).unwrap();
    env.encrypted_key[0] ^= 0xFF;
    assert!(kp.open_message(&env).is_err());
}

#[test]
fn unusable_key_is_reported() {
    // An even public exponent is not an RSA key.
    let bad = PeerPublicKey {
        modulus: vec![0x80; 256],
        exponent: vec![4],
    };
    assert!(seal_message(&bad, &b"x".to_vec()).is_err());
}

#[test]
fn fresh_session_keys_differ() {
    let kp = keypair();
    let pk = kp.public_key();
    let env1 = seal_message(&pk, &b"same text".to_vec()).unwrap();
    let env2 = seal_message(&pk, &b"same text".to_vec()).unwrap();
    assert_ne!(env1.encrypted_key, env2.encrypted_key);
    assert_ne!(env1.nonce, env2.nonce);
}
