//! The hybrid encryption path. Every text message travels under a fresh
//! 32-byte session key: the body is AES-256-GCM under that key and a fresh
//! 12-byte nonce, and the session key itself is RSA-encrypted (PKCS#1 v1.5)
//! under the recipient's public key. The server relays envelopes but never
//! holds a session key.
use vstd::prelude::*;

use crate::messages::{Envelope, EnvelopeView, PeerPublicKey};

verus! {

/// Error for a cryptographic step that failed: an unusable key, an oversized
/// message, or a ciphertext that does not decrypt.
#[derive(Debug, Clone, Copy, PartialEq, Eq, Structural)]
pub struct CryptoError;

/// What PKCS#1 v1.5 decryption under the private key whose public components
/// are `modulus` and `exponent` returns for `ciphertext`: the recovered bytes,
/// or nothing when the ciphertext does not decrypt under that key. The
/// decryption function is determined by the public components, and
/// `rsa::RsaPrivateKey::decrypt` computes it deterministically.
pub uninterp spec fn rsa_dec(modulus: Seq<u8>, exponent: Seq<u8>, ciphertext: Seq<u8>) -> Option<
    Seq<u8>,
>;

/// Whether PKCS#1 v1.5 encryption under the public key with these components
/// accepts a message of this length: the components must form an acceptable
/// key and the message must be at most the modulus size minus 11 bytes. This
/// is a deterministic function of the components and the length alone.
pub uninterp spec fn rsa_encrypt_ok(modulus: Seq<u8>, exponent: Seq<u8>, len: int) -> bool;

/// What AES-256-GCM encryption returns (ciphertext with its tag) for a 32-byte
/// key, a 12-byte nonce, and a plaintext: a deterministic function of the
/// three.
pub uninterp spec fn aes_enc(key: Seq<u8>, nonce: Seq<u8>, plaintext: Seq<u8>) -> Seq<u8>;

#[verifier::external_type_specification]
#[verifier::external_body]
pub struct ExRsaPrivateKey(rsa::RsaPrivateKey);

/// A client's long-term RSA-2048 keypair, generated once at startup. The
/// fields only ever come from [`generate_keypair`], so the stored modulus and
/// exponent are the public components of the stored private key.
pub struct KeyPair {
    secret: rsa::RsaPrivateKey,
    modulus: Vec<u8>,
    exponent: Vec<u8>,
}

/// An envelope that decrypts to `plaintext` under the private key with the
/// given public components: some 32-byte session key comes out of its first
/// field, and the body is the AES-GCM encryption of the plaintext under that
/// session key and the envelope's nonce.
pub open spec fn opens_to(
    modulus: Seq<u8>,
    exponent: Seq<u8>,
    env: EnvelopeView,
    plaintext: Seq<u8>,
) -> bool {
    exists|k: Seq<u8>|
        k.len() == 32 && rsa_dec(modulus, exponent, env.encrypted_key) == Some(k) && env.ciphertext
            == #[trigger] aes_enc(k, env.nonce, plaintext)
}

/// An envelope as [`seal_message`] builds it for the key with the given public
/// components and the given plaintext: it decrypts back to the plaintext, its
/// nonce has the cipher's size, and the plaintext fits the cipher.
pub open spec fn sealed_for(
    modulus: Seq<u8>,
    exponent: Seq<u8>,
    env: EnvelopeView,
    plaintext: Seq<u8>,
) -> bool {
    &&& plaintext.len() <= 0xFFFFFFFF
    &&& env.nonce.len() == 12
    &&& opens_to(modulus, exponent, env, plaintext)
}

/// Relies on `rand::rngs::OsRng::fill_bytes`, a draw from the operating
/// system's cryptographic generator: nothing holds of the bytes but their
/// count.
#[verifier::external_body]
fn random_bytes(n: usize) -> (r: Vec<u8>)
    ensures
        r@.len() == n,
{
    let mut v = vec![0u8; n];
    rand::RngCore::fill_bytes(&mut rand::rngs::OsRng, v.as_mut_slice());
    v
}

/// Relies on `rsa::RsaPrivateKey::new` for 2048-bit key generation (the
/// modulus is exactly 2048 bits and the exponent 65537, so PKCS#1 v1.5
/// encryption under the key accepts messages up to 256 - 11 bytes) and on
/// `PublicKeyParts::n` / `PublicKeyParts::e` for the public components.
#[verifier::external_body]
pub fn generate_keypair() -> (r: Result<KeyPair, CryptoError>)
    ensures
        r matches Ok(kp) ==> forall|l: int|
            0 <= l <= 245 ==> rsa_encrypt_ok(kp.spec_modulus(), kp.spec_exponent(), l),
{
    let mut rng = rand::thread_rng();
    match rsa::RsaPrivateKey::new(&mut rng, 2048) {
        Ok(secret) => {
            let public = rsa::RsaPublicKey::from(&secret);
            let modulus = rsa::traits::PublicKeyParts::n(&public).to_bytes_be();
            let exponent = rsa::traits::PublicKeyParts::e(&public).to_bytes_be();
            Ok(KeyPair { secret, modulus, exponent })
        },
        Err(_) => Err(CryptoError),
    }
}

/// Relies on `rsa::RsaPublicKey::new` and `rsa::RsaPublicKey::encrypt` with
/// PKCS#1 v1.5 padding: success depends only on the key components and the
/// message length, and the private key matching the components decrypts the
/// result back to the message.
#[verifier::external_body]
fn rsa_encrypt(key: &PeerPublicKey, plaintext: &Vec<u8>) -> (r: Result<Vec<u8>, CryptoError>)
    ensures
        r is Ok <==> rsa_encrypt_ok(key@.modulus, key@.exponent, plaintext@.len() as int),
        r matches Ok(c) ==> rsa_dec(key@.modulus, key@.exponent, c@) == Some(plaintext@),
{
    let n = rsa::BigUint::from_bytes_be(&key.modulus);
    let e = rsa::BigUint::from_bytes_be(&key.exponent);
    let pk = match rsa::RsaPublicKey::new(n, e) {
        Ok(pk) => pk,
        Err(_) => {
            return Err(CryptoError);
        },
    };
    match pk.encrypt(&mut rand::rngs::OsRng, rsa::Pkcs1v15Encrypt, plaintext.as_slice()) {
        Ok(c) => Ok(c),
        Err(_) => Err(CryptoError),
    }
}

/// Relies on `aes_gcm::Aes256Gcm` through `KeyInit::new_from_slice` (a 32-byte
/// key is never rejected) and `Aead::encrypt`: for a fixed key and nonce the
/// ciphertext is a deterministic function of the plaintext, and encryption
/// accepts any plaintext up to the GCM length cap, far above 2^32 bytes.
#[verifier::external_body]
fn aes_encrypt(key: &Vec<u8>, nonce: &Vec<u8>, plaintext: &Vec<u8>) -> (r: Result<
    Vec<u8>,
    CryptoError,
>)
    requires
        key@.len() == 32,
        nonce@.len() == 12,
    ensures
        r matches Ok(c) ==> c@ == aes_enc(key@, nonce@, plaintext@),
        plaintext@.len() <= 0xFFFFFFFF ==> r is Ok,
{
    let cipher = match aes_gcm::KeyInit::new_from_slice(key.as_slice()) {
        Ok(c) => c,
        Err(_) => {
            return Err(CryptoError);
        },
    };
    let cipher: aes_gcm::Aes256Gcm = cipher;
    match aes_gcm::aead::Aead::encrypt(
        &cipher,
        aes_gcm::Nonce::from_slice(nonce.as_slice()),
        plaintext.as_slice(),
    ) {
        Ok(c) => Ok(c),
        Err(_) => Err(CryptoError),
    }
}

/// Relies on `Aes256Gcm` decryption (`Aead::decrypt`) being the exact inverse
/// of encryption under a fixed key and nonce: it succeeds precisely on the
/// ciphertexts encryption produces, and returns the plaintext that produced
/// them.
#[verifier::external_body]
fn aes_decrypt(key: &Vec<u8>, nonce: &Vec<u8>, ciphertext: &Vec<u8>) -> (r: Result<
    Vec<u8>,
    CryptoError,
>)
    requires
        key@.len() == 32,
        nonce@.len() == 12,
    ensures
        r matches Ok(p) ==> ciphertext@ == aes_enc(key@, nonce@, p@),
        r is Err ==> forall|p: Seq<u8>|
            p.len() <= 0xFFFFFFFF ==> ciphertext@ != aes_enc(key@, nonce@, p),
        r matches Ok(q) ==> forall|p: Seq<u8>|
            p.len() <= 0xFFFFFFFF && ciphertext@ == aes_enc(key@, nonce@, p) ==> q@ == p,
{
    let cipher = match aes_gcm::KeyInit::new_from_slice(key.as_slice()) {
        Ok(c) => c,
        Err(_) => {
            return Err(CryptoError);
        },
    };
    let cipher: aes_gcm::Aes256Gcm = cipher;
    match aes_gcm::aead::Aead::decrypt(
        &cipher,
        aes_gcm::Nonce::from_slice(nonce.as_slice()),
        ciphertext.as_slice(),
    ) {
        Ok(p) => Ok(p),
        Err(_) => Err(CryptoError),
    }
}

impl KeyPair {
    /// The stored modulus, as the contracts speak of it.
    pub closed spec fn spec_modulus(&self) -> Seq<u8> {
        self.modulus@
    }

    /// The stored public exponent, as the contracts speak of it.
    pub closed spec fn spec_exponent(&self) -> Seq<u8> {
        self.exponent@
    }

    /// The public half of the keypair, as sent to other peers.
    pub fn public_key(&self) -> (r: PeerPublicKey)
        ensures
            r@.modulus == self.spec_modulus(),
            r@.exponent == self.spec_exponent(),
    {
        PeerPublicKey { modulus: self.modulus.clone(), exponent: self.exponent.clone() }
    }

    /// Relies on `rsa::RsaPrivateKey::decrypt` with PKCS#1 v1.5 padding, a
    /// deterministic function of the key and the ciphertext; `rsa_dec` names
    /// its result for the key with these public components. A `KeyPair` only
    /// ever comes from [`generate_keypair`], so the stored private key is the
    /// one matching the stored components.
    #[verifier::external_body]
    fn rsa_decrypt(&self, ciphertext: &Vec<u8>) -> (r: Result<Vec<u8>, CryptoError>)
        ensures
            r matches Ok(k) ==> rsa_dec(self.spec_modulus(), self.spec_exponent(), ciphertext@)
                == Some(k@),
            r is Err ==> rsa_dec(self.spec_modulus(), self.spec_exponent(), ciphertext@) is None,
    {
        match self.secret.decrypt(rsa::Pkcs1v15Encrypt, ciphertext.as_slice()) {
            Ok(k) => Ok(k),
            Err(_) => Err(CryptoError),
        }
    }

    /// Open one inbound envelope: RSA-decrypt the session key, then AES-GCM
    /// decrypt the body. Every envelope sealed for this keypair opens to
    /// exactly the plaintext it was sealed over, and nothing opens unless some
    /// session key decrypts out of it and authenticates the body.
    pub fn open_message(&self, env: &Envelope) -> (r: Result<Vec<u8>, CryptoError>)
        ensures
            forall|pt: Seq<u8>|
                sealed_for(self.spec_modulus(), self.spec_exponent(), env@, pt) ==> (r matches Ok(b)
                    && b@ == pt),
            r matches Ok(b) ==> opens_to(self.spec_modulus(), self.spec_exponent(), env@, b@),
    {
        let k = match self.rsa_decrypt(&env.encrypted_key) {
            Ok(k) => k,
            Err(e) => {
                return Err(e);
            },
        };
        if k.len() != 32 || env.nonce.len() != 12 {
            return Err(CryptoError);
        }
        match aes_decrypt(&k, &env.nonce, &env.ciphertext) {
            Ok(p) => {
                proof {
                    assert(k@.len() == 32 && rsa_dec(
                        self.spec_modulus(),
                        self.spec_exponent(),
                        env@.encrypted_key,
                    ) == Some(k@) && env@.ciphertext == aes_enc(k@, env@.nonce, p@));
                }
                Ok(p)
            },
            Err(e) => Err(e),
        }
    }
}

/// Seal one outbound plaintext for the holder of `recipient`: draw a fresh
/// 32-byte session key and 12-byte nonce, AES-GCM encrypt the plaintext under
/// them, and RSA-encrypt the session key under the recipient's public key.
/// Fails exactly when the recipient's key does not accept a 32-byte message.
pub fn seal_message(recipient: &PeerPublicKey, plaintext: &Vec<u8>) -> (r: Result<
    Envelope,
    CryptoError,
>)
    requires
        plaintext@.len() <= 0xFFFFFFFF,
    ensures
        r matches Ok(env) ==> sealed_for(recipient@.modulus, recipient@.exponent, env@, plaintext@),
        r is Ok <==> rsa_encrypt_ok(recipient@.modulus, recipient@.exponent, 32),
{
    let session_key = random_bytes(32);
    let nonce = random_bytes(12);
    let ciphertext = match aes_encrypt(&session_key, &nonce, plaintext) {
        Ok(c) => c,
        Err(e) => {
            return Err(e);
        },
    };
    let encrypted_key = match rsa_encrypt(recipient, &session_key) {
        Ok(c) => c,
        Err(e) => {
            return Err(e);
        },
    };
    let env = Envelope { encrypted_key, nonce, ciphertext };
    proof {
        assert(sealed_for(recipient@.modulus, recipient@.exponent, env@, plaintext@)) by {
            assert(env@.ciphertext == aes_enc(session_key@, env@.nonce, plaintext@));
        }
    }
    Ok(env)
}

} // verus!
