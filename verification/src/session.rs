//! The peer client's session state machine: directory awareness, the pairing
//! handshake, channel selection, and the text-message path. Sockets and the
//! terminal live outside the library: inbound messages are handed in, and
//! every outbound message is handed back to be written to the wire.
use vstd::prelude::*;
use vstd::string::{StrSliceExecFns, StringExecFns};
use vstd::utf8::{decode_utf8, encode_utf8, valid_utf8};

use crate::crypto::{opens_to, rsa_encrypt_ok, sealed_for, seal_message, KeyPair};
use crate::messages::{
    ClientBoundMessage, ClientBoundView, DescView, EnvelopeView, KeyView, PeerDescription, PeerId,
    PeerPublicKey, ServerBoundMessage, ServerBoundView,
};

verus! {

/// An inbound pairing request not yet accepted: who asks, and with which key.
pub struct PendingRequest {
    pub desc: PeerDescription,
    pub key: PeerPublicKey,
}

/// Mathematical value of a `PendingRequest`.
pub ghost struct PendingView {
    pub desc: DescView,
    pub key: KeyView,
}

impl View for PendingRequest {
    type V = PendingView;

    open spec fn view(&self) -> PendingView {
        PendingView { desc: self.desc@, key: self.key@ }
    }
}

/// An established pairing: the remote peer and its public key.
pub struct Pairing {
    pub id: PeerId,
    pub key: PeerPublicKey,
}

/// Mathematical value of a `Pairing`.
pub ghost struct PairingView {
    pub id: PeerId,
    pub key: KeyView,
}

impl View for Pairing {
    type V = PairingView;

    open spec fn view(&self) -> PairingView {
        PairingView { id: self.id, key: self.key@ }
    }
}

/// What one inbound message means for the user interface.
#[derive(Debug, PartialEq, Eq)]
pub enum UiEvent {
    /// Nothing to show.
    Silent,
    /// A new pairing request waits to be accepted.
    RequestReceived,
    /// A pairing request of ours was accepted.
    PairingEstablished,
    /// A decrypted text message from the named peer.
    Text { name: String, body: String },
    /// An inbound envelope that failed to decrypt or to decode; dropped.
    Undecipherable,
}

/// What opening a channel to a peer amounted to.
#[derive(Debug, PartialEq, Eq)]
pub enum OpenOutcome {
    /// The pairing exists and was already the current channel.
    AlreadyCurrent,
    /// The pairing exists; the current channel now points at it.
    Switched,
    /// No pairing yet: this request must go to the server.
    RequestSent(ServerBoundMessage),
}

/// Why a text message could not be sent.
#[derive(Debug, Clone, Copy, PartialEq, Eq, Structural)]
pub enum SendError {
    /// No current channel is selected.
    NoChannelSelected,
    /// The remote key rejected the session key.
    EncryptionFailed,
}

/// Error for accepting a request from a peer that has none pending.
#[derive(Debug, Clone, Copy, PartialEq, Eq, Structural)]
pub struct UnknownRequestError;

/// No two pending requests come from one originator.
pub open spec fn unique_pending(s: Seq<PendingView>) -> bool {
    forall|i: int, j: int|
        0 <= i < s.len() && 0 <= j < s.len() && #[trigger] s[i].desc.id == #[trigger] s[j].desc.id
            ==> i == j
}

/// Some pending request comes from this originator.
pub open spec fn spec_pending_has(s: Seq<PendingView>, id: PeerId) -> bool {
    exists|i: int| 0 <= i < s.len() && #[trigger] s[i].desc.id == id
}

/// The key offered by this originator's pending request.
pub open spec fn spec_pending_key(s: Seq<PendingView>, id: PeerId) -> KeyView {
    let i = choose|i: int| 0 <= i < s.len() && #[trigger] s[i].desc.id == id;
    s[i].key
}

/// No two pairings name one peer.
pub open spec fn unique_pairings(s: Seq<PairingView>) -> bool {
    forall|i: int, j: int|
        0 <= i < s.len() && 0 <= j < s.len() && #[trigger] s[i].id == #[trigger] s[j].id ==> i == j
}

/// Some pairing names this peer.
pub open spec fn spec_pairing_has(s: Seq<PairingView>, id: PeerId) -> bool {
    exists|i: int| 0 <= i < s.len() && #[trigger] s[i].id == id
}

/// The key held for this peer's pairing.
pub open spec fn spec_pairing_key(s: Seq<PairingView>, id: PeerId) -> KeyView {
    let i = choose|i: int| 0 <= i < s.len() && #[trigger] s[i].id == id;
    s[i].key
}

/// The pairings after recording `key` for `id`: the existing pairing is
/// overwritten, or a new one is appended.
pub open spec fn spec_upsert_pairing(s: Seq<PairingView>, id: PeerId, key: KeyView) -> Seq<
    PairingView,
> {
    if spec_pairing_has(s, id) {
        Seq::new(
            s.len(),
            |i: int|
                if s[i].id == id {
                    PairingView { id, key }
                } else {
                    s[i]
                },
        )
    } else {
        s.push(PairingView { id, key })
    }
}

/// The peer list after a departure: entries with that identifier dropped.
pub open spec fn spec_remove_desc(s: Seq<DescView>, id: PeerId) -> Seq<DescView>
    decreases s.len(),
{
    if s.len() == 0 {
        Seq::empty()
    } else {
        let rest = spec_remove_desc(s.drop_first(), id);
        if s[0].id == id {
            rest
        } else {
            seq![s[0]] + rest
        }
    }
}

/// The pending requests after one is consumed: entries from that originator
/// dropped.
pub open spec fn spec_remove_pending(s: Seq<PendingView>, id: PeerId) -> Seq<PendingView>
    decreases s.len(),
{
    if s.len() == 0 {
        Seq::empty()
    } else {
        let rest = spec_remove_pending(s.drop_first(), id);
        if s[0].desc.id == id {
            rest
        } else {
            seq![s[0]] + rest
        }
    }
}

/// Law: a peer list that has applied an arrival delta contains the arriving
/// peer's description — together with the directory snapshot carried by
/// `ClientList`, every peer that advertised before or after a client joined
/// ends up in that client's list once the delivery lands.
pub proof fn lemma_arrival_listed(peers: Seq<DescView>, d: DescView)
    ensures
        peers.push(d).contains(d),
{
    assert(peers.push(d)[peers.len() as int] == d);
}

/// A shown message body is a true decryption: some valid-UTF-8 plaintext
/// opens out of the envelope under the keypair with these public components,
/// and the body shows exactly its characters.
pub open spec fn body_opens_envelope(
    modulus: Seq<u8>,
    exponent: Seq<u8>,
    env: EnvelopeView,
    body: Seq<char>,
) -> bool {
    exists|pt: Seq<u8>|
        valid_utf8(pt) && body == decode_utf8(pt) && #[trigger] opens_to(modulus, exponent, env, pt)
}

/// The name shown for a peer: its first entry in the peer list, or "Unknown".
pub open spec fn spec_display_name(peers: Seq<DescView>, id: PeerId) -> Seq<char>
    decreases peers.len(),
{
    if peers.len() == 0 {
        "Unknown"@
    } else if peers[0].id == id {
        peers[0].name
    } else {
        spec_display_name(peers.drop_first(), id)
    }
}

proof fn lemma_remove_desc_push(s: Seq<DescView>, d: DescView, id: PeerId)
    ensures
        spec_remove_desc(s.push(d), id) == spec_remove_desc(s, id) + (if d.id == id {
            Seq::empty()
        } else {
            seq![d]
        }),
    decreases s.len(),
{
    let tail = (if d.id == id {
        Seq::<DescView>::empty()
    } else {
        seq![d]
    });
    if s.len() == 0 {
        assert(s.push(d)[0] == d);
        assert(s.push(d).drop_first() =~= Seq::<DescView>::empty());
        assert(spec_remove_desc(s.push(d).drop_first(), id) =~= Seq::<DescView>::empty());
        assert(spec_remove_desc(s, id) =~= Seq::<DescView>::empty());
        assert(spec_remove_desc(s.push(d), id) =~= spec_remove_desc(s, id) + tail);
    } else {
        assert(s.push(d)[0] == s[0]);
        assert(s.push(d).drop_first() =~= s.drop_first().push(d));
        lemma_remove_desc_push(s.drop_first(), d, id);
        if s[0].id != id {
            assert(seq![s[0]] + (spec_remove_desc(s.drop_first(), id) + tail) =~= (seq![s[0]]
                + spec_remove_desc(s.drop_first(), id)) + tail);
        }
    }
}

proof fn lemma_remove_pending_push(s: Seq<PendingView>, p: PendingView, id: PeerId)
    ensures
        spec_remove_pending(s.push(p), id) == spec_remove_pending(s, id) + (if p.desc.id == id {
            Seq::empty()
        } else {
            seq![p]
        }),
    decreases s.len(),
{
    let tail = (if p.desc.id == id {
        Seq::<PendingView>::empty()
    } else {
        seq![p]
    });
    if s.len() == 0 {
        assert(s.push(p)[0] == p);
        assert(s.push(p).drop_first() =~= Seq::<PendingView>::empty());
        assert(spec_remove_pending(s.push(p).drop_first(), id) =~= Seq::<PendingView>::empty());
        assert(spec_remove_pending(s, id) =~= Seq::<PendingView>::empty());
        assert(spec_remove_pending(s.push(p), id) =~= spec_remove_pending(s, id) + tail);
    } else {
        assert(s.push(p)[0] == s[0]);
        assert(s.push(p).drop_first() =~= s.drop_first().push(p));
        lemma_remove_pending_push(s.drop_first(), p, id);
        if s[0].desc.id != id {
            assert(seq![s[0]] + (spec_remove_pending(s.drop_first(), id) + tail) =~= (seq![s[0]]
                + spec_remove_pending(s.drop_first(), id)) + tail);
        }
    }
}

/// Every entry surviving a pending-removal was already present and comes from
/// another originator.
proof fn lemma_remove_pending_membership(s: Seq<PendingView>, id: PeerId)
    ensures
        forall|a: int|
            0 <= a < spec_remove_pending(s, id).len() ==> s.contains(
                #[trigger] spec_remove_pending(s, id)[a],
            ) && spec_remove_pending(s, id)[a].desc.id != id,
        unique_pending(s) ==> unique_pending(spec_remove_pending(s, id)),
    decreases s.len(),
{
    if s.len() == 0 {
    } else {
        assert forall|a: int, b: int|
            unique_pending(s) && 0 <= a < s.drop_first().len() && 0 <= b < s.drop_first().len()
                && #[trigger] s.drop_first()[a].desc.id == #[trigger] s.drop_first()[b].desc.id
            implies a == b by {
            if unique_pending(s) {
                assert(s[a + 1].desc.id == s[b + 1].desc.id);
            }
        }
        lemma_remove_pending_membership(s.drop_first(), id);
        let res = spec_remove_pending(s, id);
        let sub = spec_remove_pending(s.drop_first(), id);
        assert forall|a: int| 0 <= a < res.len() implies s.contains(#[trigger] res[a])
            && res[a].desc.id != id by {
            if s[0].desc.id == id {
                assert(res[a] == sub[a]);
                assert(s.drop_first().contains(sub[a]));
                let w = choose|w: int|
                    0 <= w < s.drop_first().len() && s.drop_first()[w] == sub[a];
                assert(s[w + 1] == sub[a]);
            } else {
                if a == 0 {
                    assert(res[0] == s[0]);
                } else {
                    assert(res[a] == sub[a - 1]);
                    assert(s.drop_first().contains(sub[a - 1]));
                    let w = choose|w: int|
                        0 <= w < s.drop_first().len() && s.drop_first()[w] == sub[a - 1];
                    assert(s[w + 1] == sub[a - 1]);
                }
            }
        }
        if unique_pending(s) {
            assert forall|a: int, b: int|
                0 <= a < res.len() && 0 <= b < res.len() && #[trigger] res[a].desc.id
                    == #[trigger] res[b].desc.id implies a == b by {
                if s[0].desc.id != id {
                    if a == 0 && b > 0 {
                        assert(res[b] == sub[b - 1]);
                        assert(s.drop_first().contains(sub[b - 1]));
                        let w = choose|w: int|
                            0 <= w < s.drop_first().len() && s.drop_first()[w] == sub[b - 1];
                        assert(s[w + 1].desc.id == s[0].desc.id);
                    } else if b == 0 && a > 0 {
                        assert(res[a] == sub[a - 1]);
                        assert(s.drop_first().contains(sub[a - 1]));
                        let w = choose|w: int|
                            0 <= w < s.drop_first().len() && s.drop_first()[w] == sub[a - 1];
                        assert(s[w + 1].desc.id == s[0].desc.id);
                    } else if a > 0 && b > 0 {
                        assert(res[a] == sub[a - 1]);
                        assert(res[b] == sub[b - 1]);
                    }
                } else {
                    assert(res[a] == sub[a]);
                    assert(res[b] == sub[b]);
                }
            }
        }
    }
}

/// One peer client's whole local state.
pub struct ClientSession {
    /// The long-term RSA keypair generated at startup.
    pub keypair: KeyPair,
    /// The identifier the server assigned, once `SetUuid` arrives.
    pub own_id: Option<PeerId>,
    /// The local view of the directory.
    pub peer_list: Vec<PeerDescription>,
    /// Inbound pairing requests not yet accepted, at most one per originator.
    pub pending: Vec<PendingRequest>,
    /// Established pairings, one per remote peer.
    pub pairings: Vec<Pairing>,
    /// The pairing outbound text goes to, if one is selected.
    pub current_channel: Option<PeerId>,
}

impl ClientSession {
    /// The directory entries as mathematical values.
    pub open spec fn peer_views(&self) -> Seq<DescView> {
        self.peer_list@.map_values(|d: PeerDescription| d@)
    }

    /// The pending requests as mathematical values.
    pub open spec fn pending_views(&self) -> Seq<PendingView> {
        self.pending@.map_values(|p: PendingRequest| p@)
    }

    /// The pairings as mathematical values.
    pub open spec fn pairing_views(&self) -> Seq<PairingView> {
        self.pairings@.map_values(|p: Pairing| p@)
    }

    /// Pending requests and pairings are keyed, and the current channel always
    /// points at an established pairing.
    pub open spec fn wf(&self) -> bool {
        &&& unique_pending(self.pending_views())
        &&& unique_pairings(self.pairing_views())
        &&& (self.current_channel matches Some(c) ==> spec_pairing_has(self.pairing_views(), c))
    }

    /// A fresh session around a generated keypair: nothing known, nothing
    /// pending, no channel.
    pub fn new(keypair: KeyPair) -> (r: ClientSession)
        ensures
            r.wf(),
            r.keypair == keypair,
            r.own_id is None,
            r.peer_views() =~= Seq::<DescView>::empty(),
            r.pending_views() =~= Seq::<PendingView>::empty(),
            r.pairing_views() =~= Seq::<PairingView>::empty(),
            r.current_channel is None,
    {
        let s = ClientSession {
            keypair,
            own_id: None,
            peer_list: Vec::new(),
            pending: Vec::new(),
            pairings: Vec::new(),
            current_channel: None,
        };
        proof {
            assert(s.peer_views() =~= Seq::<DescView>::empty());
            assert(s.pending_views() =~= Seq::<PendingView>::empty());
            assert(s.pairing_views() =~= Seq::<PairingView>::empty());
        }
        s
    }

    /// Whether a pairing with this peer is established.
    pub fn has_pairing(&self, id: PeerId) -> (r: bool)
        ensures
            r == spec_pairing_has(self.pairing_views(), id),
    {
        let mut i: usize = 0;
        while i < self.pairings.len()
            invariant
                0 <= i <= self.pairings@.len(),
                self.pairing_views().len() == self.pairings@.len(),
                forall|j: int| 0 <= j < i ==> (#[trigger] self.pairing_views()[j]).id != id,
            decreases self.pairings@.len() - i,
        {
            if self.pairings[i].id == id {
                assert(self.pairing_views()[i as int].id == id);
                return true;
            }
            proof {
                assert(self.pairing_views()[i as int] == self.pairings@[i as int]@);
            }
            i = i + 1;
        }
        false
    }

    /// Record `key` as `id`'s pairing key, overwriting or appending.
    fn insert_pairing(&mut self, id: PeerId, key: PeerPublicKey)
        requires
            unique_pairings(old(self).pairing_views()),
        ensures
            final(self).pairing_views() == spec_upsert_pairing(
                old(self).pairing_views(),
                id,
                key@,
            ),
            unique_pairings(final(self).pairing_views()),
            spec_pairing_has(final(self).pairing_views(), id),
            spec_pairing_key(final(self).pairing_views(), id) == key@,
            forall|c: PeerId|
                spec_pairing_has(old(self).pairing_views(), c) ==> spec_pairing_has(
                    final(self).pairing_views(),
                    c,
                ),
            final(self).keypair == old(self).keypair,
            final(self).own_id == old(self).own_id,
            final(self).peer_list == old(self).peer_list,
            final(self).pending == old(self).pending,
            final(self).current_channel == old(self).current_channel,
    {
        let ghost before = self.pairing_views();
        let mut i: usize = 0;
        #[verifier::loop_isolation(false)]
        while i < self.pairings.len()
            invariant
                0 <= i <= before.len(),
                self.pairings@.len() == before.len(),
                self.pairing_views() == before,
                self.keypair == old(self).keypair,
                self.own_id == old(self).own_id,
                self.peer_list == old(self).peer_list,
                self.pending == old(self).pending,
                self.current_channel == old(self).current_channel,
                forall|j: int| 0 <= j < i ==> (#[trigger] before[j]).id != id,
            decreases before.len() - i,
        {
            proof {
                assert(self.pairing_views()[i as int] == self.pairings@[i as int]@);
            }
            if self.pairings[i].id == id {
                assert(before[i as int].id == id);
                assert(spec_pairing_has(before, id));
                self.pairings.set(i, Pairing { id, key });
                proof {
                    assert(self.pairing_views() =~= spec_upsert_pairing(before, id, key@));
                    assert(self.pairing_views()[i as int] == self.pairings@[i as int]@);
                    assert(self.pairing_views()[i as int].id == id);
                    assert(self.pairing_views()[i as int].key == key@);
                    assert forall|a: int, b: int|
                        0 <= a < self.pairing_views().len() && 0 <= b < self.pairing_views().len()
                            && #[trigger] self.pairing_views()[a].id
                            == #[trigger] self.pairing_views()[b].id implies a == b by {
                        assert(self.pairing_views()[a].id == before[a].id);
                        assert(self.pairing_views()[b].id == before[b].id);
                    }
                    let w = choose|w: int|
                        0 <= w < self.pairing_views().len()
                            && #[trigger] self.pairing_views()[w].id == id;
                    assert(w == i as int);
                    assert forall|c: PeerId|
                        spec_pairing_has(before, c) implies spec_pairing_has(
                        self.pairing_views(),
                        c,
                    ) by {
                        let v = choose|v: int|
                            0 <= v < before.len() && #[trigger] before[v].id == c;
                        assert(self.pairing_views()[v].id == c);
                    }
                }
                return ;
            }
            i = i + 1;
        }
        assert(!spec_pairing_has(before, id));
        self.pairings.push(Pairing { id, key });
        proof {
            assert(self.pairing_views() =~= before.push(PairingView { id, key: key@ }));
            assert forall|a: int, b: int|
                0 <= a < self.pairing_views().len() && 0 <= b < self.pairing_views().len()
                    && #[trigger] self.pairing_views()[a].id
                    == #[trigger] self.pairing_views()[b].id implies a == b by {
                if a < before.len() && b < before.len() {
                    assert(before[a].id == before[b].id);
                } else if a < before.len() && b == before.len() {
                    assert(spec_pairing_has(before, id));
                } else if b < before.len() && a == before.len() {
                    assert(spec_pairing_has(before, id));
                }
            }
            assert(self.pairing_views()[before.len() as int].id == id);
            let w = choose|w: int|
                0 <= w < self.pairing_views().len() && #[trigger] self.pairing_views()[w].id == id;
            assert(w == before.len() as int);
            assert forall|c: PeerId|
                spec_pairing_has(before, c) implies spec_pairing_has(self.pairing_views(), c) by {
                let v = choose|v: int| 0 <= v < before.len() && #[trigger] before[v].id == c;
                assert(self.pairing_views()[v].id == c);
            }
        }
    }

    /// The name shown for `id`: its first directory entry, or "Unknown".
    fn display_name(&self, id: PeerId) -> (r: String)
        ensures
            r@ == spec_display_name(self.peer_views(), id),
    {
        let ghost full = self.peer_views();
        proof {
            assert(full.skip(0) =~= full);
        }
        let mut i: usize = 0;
        while i < self.peer_list.len()
            invariant
                0 <= i <= full.len(),
                full == self.peer_views(),
                full.len() == self.peer_list@.len(),
                spec_display_name(full, id) == spec_display_name(full.skip(i as int), id),
            decreases full.len() - i,
        {
            proof {
                assert(full[i as int] == self.peer_list@[i as int]@);
                assert(full.skip(i as int)[0] == full[i as int]);
            }
            if self.peer_list[i].id == id {
                assert(spec_display_name(full.skip(i as int), id) == full[i as int].name);
                return self.peer_list[i].name.clone();
            }
            proof {
                assert(full.skip(i as int).drop_first() =~= full.skip(i as int + 1));
            }
            i = i + 1;
        }
        proof {
            assert(full.skip(full.len() as int) =~= Seq::<DescView>::empty());
        }
        let fallback = String::from_str("Unknown");
        fallback
    }

    /// Whether a request from this originator is pending.
    pub fn has_pending(&self, id: PeerId) -> (r: bool)
        ensures
            r == spec_pending_has(self.pending_views(), id),
    {
        let mut i: usize = 0;
        while i < self.pending.len()
            invariant
                0 <= i <= self.pending@.len(),
                self.pending_views().len() == self.pending@.len(),
                forall|j: int| 0 <= j < i ==> (#[trigger] self.pending_views()[j]).desc.id != id,
            decreases self.pending@.len() - i,
        {
            proof {
                assert(self.pending_views()[i as int] == self.pending@[i as int]@);
            }
            if self.pending[i].desc.id == id {
                assert(self.pending_views()[i as int].desc.id == id);
                return true;
            }
            i = i + 1;
        }
        false
    }

    /// One message from the server, applied to the local state. Directory
    /// deltas rewrite the peer list; a pairing request is recorded once per
    /// originator and a repeat is dropped; an acceptance records the pairing;
    /// a data envelope is decrypted and surfaced, or reported undecipherable.
    /// Departures do not clear pairings or the current channel.
    pub fn apply_inbound(&mut self, m: ClientBoundMessage) -> (r: UiEvent)
        requires
            old(self).wf(),
        ensures
            final(self).wf(),
            final(self).keypair == old(self).keypair,
            m@ matches ClientBoundView::SetUuid(id) ==> final(self).own_id == Some(id) && final(self).peer_list == old(self).peer_list && final(self).pending == old(self).pending && final(self).pairings == old(self).pairings && final(self).current_channel == old(self).current_channel && r is Silent,
            m@ matches ClientBoundView::ClientList(l) ==> final(self).peer_views() == l && final(self).own_id == old(self).own_id && final(self).pending == old(self).pending && final(self).pairings == old(self).pairings && final(self).current_channel == old(self).current_channel && r is Silent,
            m@ matches ClientBoundView::NewClient(d) ==> final(self).peer_views() == old(self).peer_views().push(d) && final(self).own_id == old(self).own_id && final(self).pending
                == old(self).pending && final(self).pairings == old(self).pairings && final(self).current_channel == old(self).current_channel && r is Silent,
            m@ matches ClientBoundView::ClientDisconnected(id) ==> final(self).peer_views()
                == spec_remove_desc(old(self).peer_views(), id) && final(self).own_id == old(self).own_id && final(self).pending == old(self).pending && final(self).pairings == old(self).pairings && final(self).current_channel == old(self).current_channel && r is Silent,
            m@ matches ClientBoundView::ConnectionRequest(d, k) ==> if spec_pending_has(
                old(self).pending_views(),
                d.id,
            ) {
                *final(self) == *old(self) && r is Silent
            } else {
                final(self).pending_views() == old(self).pending_views().push(
                    (PendingView { desc: d, key: k }),
                ) && final(self).own_id == old(self).own_id && final(self).peer_list == old(self).peer_list && final(self).pairings == old(self).pairings && final(self).current_channel == old(self).current_channel && r is RequestReceived
            },
            m@ matches ClientBoundView::ConnectionResponse(d, k) ==> final(self).pairing_views()
                == spec_upsert_pairing(old(self).pairing_views(), d.id, k) && final(self).own_id
                == old(self).own_id && final(self).peer_list == old(self).peer_list && final(self).pending == old(self).pending && final(self).current_channel == old(self).current_channel && r is PairingEstablished,
            m@ matches ClientBoundView::Message(d, e) ==> {
                &&& *final(self) == *old(self)
                &&& (r is Text || r is Undecipherable)
                &&& (forall|pt: Seq<u8>|
                    (sealed_for(
                        old(self).keypair.spec_modulus(),
                        old(self).keypair.spec_exponent(),
                        e,
                        pt,
                    ) && valid_utf8(pt)) ==> (r matches UiEvent::Text { name, body } && name@
                        == spec_display_name(old(self).peer_views(), d.id) && body@ == decode_utf8(
                        pt,
                    )))
                &&& (r matches UiEvent::Text { name, body } ==> name@ == spec_display_name(
                    old(self).peer_views(),
                    d.id,
                ) && body_opens_envelope(
                    old(self).keypair.spec_modulus(),
                    old(self).keypair.spec_exponent(),
                    e,
                    body@,
                ))
            },
    {
        match m {
            ClientBoundMessage::SetUuid(id) => {
                self.own_id = Some(id);
                UiEvent::Silent
            },
            ClientBoundMessage::ClientList(l) => {
                self.peer_list = l;
                UiEvent::Silent
            },
            ClientBoundMessage::NewClient(d) => {
                let ghost before = self.peer_views();
                self.peer_list.push(d);
                proof {
                    assert(self.peer_views() =~= before.push(d@));
                }
                UiEvent::Silent
            },
            ClientBoundMessage::ClientDisconnected(id) => {
                let ghost before = self.peer_views();
                let mut kept: Vec<PeerDescription> = Vec::new();
                proof {
                    assert(kept@.map_values(|dd: PeerDescription| dd@) =~= Seq::<
                        DescView,
                    >::empty());
                    assert(before.take(0) =~= Seq::<DescView>::empty());
                    assert(spec_remove_desc(before.take(0), id) =~= Seq::<DescView>::empty());
                }
                let mut i: usize = 0;
                while i < self.peer_list.len()
                    invariant
                        0 <= i <= before.len(),
                        self.peer_list@.len() == before.len(),
                        self.peer_views() == before,
                        kept@.map_values(|dd: PeerDescription| dd@) == spec_remove_desc(
                            before.take(i as int),
                            id,
                        ),
                    decreases before.len() - i,
                {
                    let ghost prev = kept@.map_values(|dd: PeerDescription| dd@);
                    proof {
                        assert(self.peer_views()[i as int] == self.peer_list@[i as int]@);
                    }
                    let keep = self.peer_list[i].id != id;
                    if keep {
                        let copy = PeerDescription {
                            name: self.peer_list[i].name.clone(),
                            id: self.peer_list[i].id,
                        };
                        proof {
                            assert(copy@ == before[i as int]);
                        }
                        kept.push(copy);
                        proof {
                            assert(kept@.map_values(|dd: PeerDescription| dd@) =~= prev.push(
                                before[i as int],
                            ));
                        }
                    }
                    proof {
                        lemma_remove_desc_push(before.take(i as int), before[i as int], id);
                        assert(before.take(i as int).push(before[i as int]) =~= before.take(i + 1));
                        if keep {
                            assert(kept@.map_values(|dd: PeerDescription| dd@) =~= spec_remove_desc(
                                before.take(i + 1),
                                id,
                            ));
                        } else {
                            assert(spec_remove_desc(before.take(i + 1), id) =~= prev);
                        }
                    }
                    i = i + 1;
                }
                proof {
                    assert(before.take(before.len() as int) =~= before);
                }
                self.peer_list = kept;
                UiEvent::Silent
            },
            ClientBoundMessage::ConnectionRequest(d, k) => {
                if self.has_pending(d.id) {
                    UiEvent::Silent
                } else {
                    let ghost before = self.pending_views();
                    let ghost dv = d@;
                    let ghost kv = k@;
                    self.pending.push(PendingRequest { desc: d, key: k });
                    proof {
                        assert(self.pending_views() =~= before.push(
                            (PendingView { desc: dv, key: kv }),
                        ));
                        assert forall|a: int, b: int|
                            0 <= a < self.pending_views().len() && 0 <= b
                                < self.pending_views().len()
                                && #[trigger] self.pending_views()[a].desc.id
                                == #[trigger] self.pending_views()[b].desc.id implies a == b by {
                            if a < before.len() && b < before.len() {
                                assert(before[a].desc.id == before[b].desc.id);
                            } else if a < before.len() && b == before.len() {
                                assert(spec_pending_has(before, dv.id));
                            } else if b < before.len() && a == before.len() {
                                assert(spec_pending_has(before, dv.id));
                            }
                        }
                    }
                    UiEvent::RequestReceived
                }
            },
            ClientBoundMessage::ConnectionResponse(d, k) => {
                self.insert_pairing(d.id, k);
                proof {
                    assert forall|c: PeerId|
                        self.current_channel matches Some(cc) && c == cc implies spec_pairing_has(
                        self.pairing_views(),
                        c,
                    ) by {}
                }
                UiEvent::PairingEstablished
            },
            ClientBoundMessage::Message(d, env) => {
                let name = self.display_name(d.id);
                match self.keypair.open_message(&env) {
                    Ok(bytes) => {
                        let ghost opened = bytes@;
                        match crate::codec::bytes_to_string(bytes) {
                            Some(body) => {
                                proof {
                                    assert(valid_utf8(opened));
                                    assert(body@ == decode_utf8(opened));
                                    assert(self.keypair == old(self).keypair);
                                    assert(opens_to(
                                        old(self).keypair.spec_modulus(),
                                        old(self).keypair.spec_exponent(),
                                        env@,
                                        opened,
                                    ));
                                    assert(body_opens_envelope(
                                        old(self).keypair.spec_modulus(),
                                        old(self).keypair.spec_exponent(),
                                        env@,
                                        body@,
                                    ));
                                }
                                UiEvent::Text { name, body }
                            },
                            None => UiEvent::Undecipherable,
                        }
                    },
                    Err(_) => UiEvent::Undecipherable,
                }
            },
        }
    }

    /// Open a channel to `target`. With a pairing established this is local:
    /// the current channel moves there and no traffic is produced. Without
    /// one, a pairing request carrying our public key must go to the server,
    /// and the state is untouched.
    pub fn open_channel(&mut self, target: PeerId) -> (r: OpenOutcome)
        requires
            old(self).wf(),
        ensures
            final(self).wf(),
            spec_pairing_has(old(self).pairing_views(), target) ==> {
                &&& final(self).current_channel == Some(target)
                &&& final(self).keypair == old(self).keypair
                &&& final(self).own_id == old(self).own_id
                &&& final(self).peer_list == old(self).peer_list
                &&& final(self).pending == old(self).pending
                &&& final(self).pairings == old(self).pairings
                &&& (r is Switched || r is AlreadyCurrent)
                &&& (r is AlreadyCurrent <==> old(self).current_channel == Some(target))
            },
            !spec_pairing_has(old(self).pairing_views(), target) ==> *final(self) == *old(self) && (
            r matches OpenOutcome::RequestSent(msg) && msg@ == ServerBoundView::ConnectionRequest(
                (DescView { name: Seq::empty(), id: target }),
                (KeyView {
                    modulus: old(self).keypair.spec_modulus(),
                    exponent: old(self).keypair.spec_exponent(),
                }),
            )),
    {
        if self.has_pairing(target) {
            let already = match self.current_channel {
                Some(c) => c == target,
                None => false,
            };
            if already {
                OpenOutcome::AlreadyCurrent
            } else {
                self.current_channel = Some(target);
                OpenOutcome::Switched
            }
        } else {
            let key = self.keypair.public_key();
            let empty_name = String::new();
            OpenOutcome::RequestSent(
                ServerBoundMessage::ConnectionRequest(
                    PeerDescription { name: empty_name, id: target },
                    key,
                ),
            )
        }
    }

    /// Accept the pending request from `target`: consume it, record the
    /// requester's key as an established pairing, and hand back the acceptance
    /// carrying our public key, addressed to the requester. With nothing
    /// pending from `target`, an error and no change.
    pub fn accept_request(&mut self, target: PeerId) -> (r: Result<
        ServerBoundMessage,
        UnknownRequestError,
    >)
        requires
            old(self).wf(),
        ensures
            final(self).wf(),
            r is Ok <==> spec_pending_has(old(self).pending_views(), target),
            r is Err ==> *final(self) == *old(self),
            r matches Ok(msg) ==> {
                &&& final(self).pending_views() == spec_remove_pending(
                    old(self).pending_views(),
                    target,
                )
                &&& final(self).pairing_views() == spec_upsert_pairing(
                    old(self).pairing_views(),
                    target,
                    spec_pending_key(old(self).pending_views(), target),
                )
                &&& final(self).keypair == old(self).keypair
                &&& final(self).own_id == old(self).own_id
                &&& final(self).peer_list == old(self).peer_list
                &&& final(self).current_channel == old(self).current_channel
                &&& msg@ == ServerBoundView::ConnectionResponse(
                    (DescView { name: Seq::empty(), id: target }),
                    (KeyView {
                        modulus: old(self).keypair.spec_modulus(),
                        exponent: old(self).keypair.spec_exponent(),
                    }),
                )
            },
    {
        if !self.has_pending(target) {
            return Err(UnknownRequestError);
        }
        let ghost before = self.pending_views();
        let mut kept: Vec<PendingRequest> = Vec::new();
        let mut found: Option<PeerPublicKey> = None;
        proof {
            assert(kept@.map_values(|pp: PendingRequest| pp@) =~= Seq::<PendingView>::empty());
            assert(before.take(0) =~= Seq::<PendingView>::empty());
            assert(spec_remove_pending(before.take(0), target) =~= Seq::<PendingView>::empty());
        }
        let mut i: usize = 0;
        #[verifier::loop_isolation(false)]
        while i < self.pending.len()
            invariant
                0 <= i <= before.len(),
                self.pending@.len() == before.len(),
                self.pending_views() == before,
                self.keypair == old(self).keypair,
                self.own_id == old(self).own_id,
                self.peer_list == old(self).peer_list,
                self.pairings == old(self).pairings,
                self.current_channel == old(self).current_channel,
                kept@.map_values(|pp: PendingRequest| pp@) == spec_remove_pending(
                    before.take(i as int),
                    target,
                ),
                found matches Some(kk) ==> spec_pending_has(before.take(i as int), target)
                    && kk@ == spec_pending_key(before, target),
                found is None ==> forall|j: int|
                    0 <= j < i ==> (#[trigger] before[j]).desc.id != target,
            decreases before.len() - i,
        {
            let ghost prev = kept@.map_values(|pp: PendingRequest| pp@);
            proof {
                assert(self.pending_views()[i as int] == self.pending@[i as int]@);
            }
            let keep = self.pending[i].desc.id != target;
            if keep {
                let copy = PendingRequest {
                    desc: PeerDescription {
                        name: self.pending[i].desc.name.clone(),
                        id: self.pending[i].desc.id,
                    },
                    key: PeerPublicKey {
                        modulus: self.pending[i].key.modulus.clone(),
                        exponent: self.pending[i].key.exponent.clone(),
                    },
                };
                proof {
                    assert(copy@ == before[i as int]);
                }
                kept.push(copy);
                proof {
                    assert(kept@.map_values(|pp: PendingRequest| pp@) =~= prev.push(
                        before[i as int],
                    ));
                }
            } else {
                let taken = PeerPublicKey {
                    modulus: self.pending[i].key.modulus.clone(),
                    exponent: self.pending[i].key.exponent.clone(),
                };
                proof {
                    assert(before[i as int].desc.id == target);
                    assert(spec_pending_has(before, target));
                    let w = choose|w: int|
                        0 <= w < before.len() && #[trigger] before[w].desc.id == target;
                    assert(w == i as int);
                    assert(taken@ == spec_pending_key(before, target));
                    assert(spec_pending_has(before.take(i + 1), target)) by {
                        assert(before.take(i + 1)[i as int].desc.id == target);
                    }
                }
                found = Some(taken);
            }
            proof {
                lemma_remove_pending_push(before.take(i as int), before[i as int], target);
                assert(before.take(i as int).push(before[i as int]) =~= before.take(i + 1));
                if keep {
                    assert(kept@.map_values(|pp: PendingRequest| pp@) =~= spec_remove_pending(
                        before.take(i + 1),
                        target,
                    ));
                } else {
                    assert(spec_remove_pending(before.take(i + 1), target) =~= prev);
                }
                if found is None {
                    assert(before[i as int].desc.id != target);
                }
            }
            i = i + 1;
        }
        proof {
            assert(before.take(before.len() as int) =~= before);
        }
        let key = match found {
            Some(k) => k,
            None => {
                proof {
                    assert(spec_pending_has(before, target));
                    let w = choose|w: int|
                        0 <= w < before.len() && #[trigger] before[w].desc.id == target;
                    assert(false);
                }
                return Err(UnknownRequestError);
            },
        };
        self.pending = kept;
        proof {
            lemma_remove_pending_membership(before, target);
        }
        self.insert_pairing(target, key);
        let own = self.keypair.public_key();
        let empty_name = String::new();
        Ok(
            ServerBoundMessage::ConnectionResponse(
                PeerDescription { name: empty_name, id: target },
                own,
            ),
        )
    }

    /// Encrypt `text` for the current channel and hand back the data message
    /// owed to the server. With no channel selected, `NoChannelSelected` and
    /// no traffic; with a remote key that rejects a session key,
    /// `EncryptionFailed`.
    pub fn send_text(&self, text: &String) -> (r: Result<ServerBoundMessage, SendError>)
        requires
            self.wf(),
            encode_utf8(text@).len() <= 0xFFFFFFFF,
        ensures
            r == Err::<ServerBoundMessage, SendError>(SendError::NoChannelSelected)
                <==> self.current_channel is None,
            r matches Ok(msg) ==> self.current_channel matches Some(c) && msg@
                == ServerBoundView::Message(
                (DescView { name: Seq::empty(), id: c }),
                (msg@->Message_1),
            ) && sealed_for(
                spec_pairing_key(self.pairing_views(), c).modulus,
                spec_pairing_key(self.pairing_views(), c).exponent,
                msg@->Message_1,
                encode_utf8(text@),
            ),
            self.current_channel matches Some(c) && rsa_encrypt_ok(
                spec_pairing_key(self.pairing_views(), c).modulus,
                spec_pairing_key(self.pairing_views(), c).exponent,
                32,
            ) ==> r is Ok,
    {
        let target = match self.current_channel {
            Some(c) => c,
            None => {
                return Err(SendError::NoChannelSelected);
            },
        };
        let ghost pv = self.pairing_views();
        let mut i: usize = 0;
        #[verifier::loop_isolation(false)]
        while i < self.pairings.len()
            invariant
                0 <= i <= pv.len(),
                self.pairings@.len() == pv.len(),
                forall|j: int| 0 <= j < i ==> (#[trigger] pv[j]).id != target,
            decreases pv.len() - i,
        {
            proof {
                assert(self.pairing_views()[i as int] == self.pairings@[i as int]@);
            }
            if self.pairings[i].id == target {
                proof {
                    assert(pv[i as int].id == target);
                    let w = choose|w: int| 0 <= w < pv.len() && #[trigger] pv[w].id == target;
                    assert(w == i as int);
                    assert(spec_pairing_key(pv, target) == pv[i as int].key);
                }
                let remote = &self.pairings[i].key;
                let bytes = text.as_str().as_bytes_vec();
                let envelope = match seal_message(remote, &bytes) {
                    Ok(env) => env,
                    Err(_) => {
                        return Err(SendError::EncryptionFailed);
                    },
                };
                let empty_name = String::new();
                return Ok(
                    ServerBoundMessage::Message(
                        PeerDescription { name: empty_name, id: target },
                        envelope,
                    ),
                );
            }
            i = i + 1;
        }
        proof {
            assert(!spec_pairing_has(pv, target));
            assert(false);
        }
        Err(SendError::EncryptionFailed)
    }
}

} // verus!
