//! The shared message schema: the two tagged unions that cross the wire, and
//! the plain data they carry. The declared order of the enum variants is the
//! wire ABI (tags are zero-based ordinals), so it must not be rearranged.
use vstd::prelude::*;

verus! {

/// A server-assigned opaque 128-bit peer identifier, unique within a run.
pub type PeerId = u128;

/// A peer as shown in directories: a friendly name (empty when the peer has
/// not advertised one) and its identifier.
#[derive(Debug, Clone, PartialEq, Eq)]
pub struct PeerDescription {
    pub name: String,
    pub id: PeerId,
}

/// Mathematical value of a `PeerDescription`.
pub ghost struct DescView {
    pub name: Seq<char>,
    pub id: PeerId,
}

impl View for PeerDescription {
    type V = DescView;

    open spec fn view(&self) -> DescView {
        DescView { name: self.name@, id: self.id }
    }
}

/// An RSA public key in its structured wire representation: modulus and
/// public exponent, each as big-endian big-integer bytes.
#[derive(Debug, Clone, PartialEq, Eq)]
pub struct PeerPublicKey {
    pub modulus: Vec<u8>,
    pub exponent: Vec<u8>,
}

/// Mathematical value of a `PeerPublicKey`.
pub ghost struct KeyView {
    pub modulus: Seq<u8>,
    pub exponent: Seq<u8>,
}

impl View for PeerPublicKey {
    type V = KeyView;

    open spec fn view(&self) -> KeyView {
        KeyView { modulus: self.modulus@, exponent: self.exponent@ }
    }
}

/// One encrypted text message: the session key under the recipient's RSA key,
/// the AES-GCM nonce, and the AES-GCM ciphertext (tag included).
#[derive(Debug, Clone, PartialEq, Eq)]
pub struct Envelope {
    pub encrypted_key: Vec<u8>,
    pub nonce: Vec<u8>,
    pub ciphertext: Vec<u8>,
}

/// Mathematical value of an `Envelope`.
pub ghost struct EnvelopeView {
    pub encrypted_key: Seq<u8>,
    pub nonce: Seq<u8>,
    pub ciphertext: Seq<u8>,
}

impl View for Envelope {
    type V = EnvelopeView;

    open spec fn view(&self) -> EnvelopeView {
        EnvelopeView {
            encrypted_key: self.encrypted_key@,
            nonce: self.nonce@,
            ciphertext: self.ciphertext@,
        }
    }
}

/// Messages the server sends to a client.
#[derive(Debug, Clone, PartialEq, Eq)]
pub enum ClientBoundMessage {
    SetUuid(PeerId),
    ClientList(Vec<PeerDescription>),
    NewClient(PeerDescription),
    ClientDisconnected(PeerId),
    ConnectionRequest(PeerDescription, PeerPublicKey),
    ConnectionResponse(PeerDescription, PeerPublicKey),
    Message(PeerDescription, Envelope),
}

/// Mathematical value of a `ClientBoundMessage`.
pub ghost enum ClientBoundView {
    SetUuid(PeerId),
    ClientList(Seq<DescView>),
    NewClient(DescView),
    ClientDisconnected(PeerId),
    ConnectionRequest(DescView, KeyView),
    ConnectionResponse(DescView, KeyView),
    Message(DescView, EnvelopeView),
}

impl View for ClientBoundMessage {
    type V = ClientBoundView;

    open spec fn view(&self) -> ClientBoundView {
        match self {
            ClientBoundMessage::SetUuid(id) => ClientBoundView::SetUuid(*id),
            ClientBoundMessage::ClientList(l) => ClientBoundView::ClientList(
                l@.map_values(|d: PeerDescription| d@),
            ),
            ClientBoundMessage::NewClient(d) => ClientBoundView::NewClient(d@),
            ClientBoundMessage::ClientDisconnected(id) => ClientBoundView::ClientDisconnected(*id),
            ClientBoundMessage::ConnectionRequest(d, k) => ClientBoundView::ConnectionRequest(
                d@,
                k@,
            ),
            ClientBoundMessage::ConnectionResponse(d, k) => ClientBoundView::ConnectionResponse(
                d@,
                k@,
            ),
            ClientBoundMessage::Message(d, e) => ClientBoundView::Message(d@, e@),
        }
    }
}

/// Messages a client sends to the server.
#[derive(Debug, Clone, PartialEq, Eq)]
pub enum ServerBoundMessage {
    Advertise(String),
    ConnectionRequest(PeerDescription, PeerPublicKey),
    ConnectionResponse(PeerDescription, PeerPublicKey),
    Message(PeerDescription, Envelope),
}

/// Mathematical value of a `ServerBoundMessage`.
pub ghost enum ServerBoundView {
    Advertise(Seq<char>),
    ConnectionRequest(DescView, KeyView),
    ConnectionResponse(DescView, KeyView),
    Message(DescView, EnvelopeView),
}

impl View for ServerBoundMessage {
    type V = ServerBoundView;

    open spec fn view(&self) -> ServerBoundView {
        match self {
            ServerBoundMessage::Advertise(n) => ServerBoundView::Advertise(n@),
            ServerBoundMessage::ConnectionRequest(d, k) => ServerBoundView::ConnectionRequest(
                d@,
                k@,
            ),
            ServerBoundMessage::ConnectionResponse(d, k) => ServerBoundView::ConnectionResponse(
                d@,
                k@,
            ),
            ServerBoundMessage::Message(d, e) => ServerBoundView::Message(d@, e@),
        }
    }
}

} // verus!
