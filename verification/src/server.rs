//! The rendezvous server's directory and forwarding state machine. One record
//! per live connection, keyed by the server-assigned identifier; arrivals and
//! departures are broadcast, and peer-to-peer control and data frames are
//! relayed to their target with the description rewritten to the sender's
//! authenticated identity. The sockets themselves live outside the library:
//! every operation here returns the messages to put on the wire.
use vstd::prelude::*;

use crate::messages::{
    ClientBoundMessage, ClientBoundView, DescView, Envelope, PeerDescription, PeerId,
    PeerPublicKey, ServerBoundMessage,
};

verus! {

/// A connected peer as the server tracks it: its assigned identifier and its
/// advertised name, unset until the first `Advertise`.
pub struct PeerRecord {
    pub id: PeerId,
    pub name: Option<String>,
}

/// Mathematical value of a `PeerRecord`.
pub ghost struct PeerRecordView {
    pub id: PeerId,
    pub name: Option<Seq<char>>,
}

impl View for PeerRecord {
    type V = PeerRecordView;

    open spec fn view(&self) -> PeerRecordView {
        PeerRecordView {
            id: self.id,
            name: match self.name {
                Some(ref n) => Some(n@),
                None => None,
            },
        }
    }
}

/// One message the server must write to one peer's connection.
pub struct Delivery {
    pub recipient: PeerId,
    pub message: ClientBoundMessage,
}

/// Error for accepting a connection under an identifier already in the table.
#[derive(Debug, Clone, Copy, PartialEq, Eq, Structural)]
pub struct DuplicateIdError;

/// No two records share an identifier.
pub open spec fn wf_peers(s: Seq<PeerRecordView>) -> bool {
    forall|i: int, j: int|
        0 <= i < s.len() && 0 <= j < s.len() && #[trigger] s[i].id == #[trigger] s[j].id ==> i == j
}

/// Some record carries this identifier.
pub open spec fn spec_has_peer(s: Seq<PeerRecordView>, id: PeerId) -> bool {
    exists|i: int| 0 <= i < s.len() && #[trigger] s[i].id == id
}

/// The name the server attaches when forwarding on behalf of `id`: the
/// advertised name, or the empty string while none is set or the record is
/// gone.
pub open spec fn spec_name_or_empty(s: Seq<PeerRecordView>, id: PeerId) -> Seq<char> {
    if spec_has_peer(s, id) {
        let i = choose|i: int| 0 <= i < s.len() && #[trigger] s[i].id == id;
        match s[i].name {
            Some(n) => n,
            None => Seq::empty(),
        }
    } else {
        Seq::empty()
    }
}

/// The directory snapshot sent to a newcomer: every named peer, in table
/// order; unnamed peers are omitted.
pub open spec fn spec_snapshot(s: Seq<PeerRecordView>) -> Seq<DescView>
    decreases s.len(),
{
    if s.len() == 0 {
        Seq::empty()
    } else {
        let rest = spec_snapshot(s.drop_first());
        match s[0].name {
            Some(n) => seq![DescView { name: n, id: s[0].id }] + rest,
            None => rest,
        }
    }
}

/// The table after `id` advertises `name`: that record renamed, the rest kept.
pub open spec fn spec_set_name(s: Seq<PeerRecordView>, id: PeerId, name: Seq<char>) -> Seq<
    PeerRecordView,
> {
    Seq::new(
        s.len(),
        |i: int|
            if s[i].id == id {
                PeerRecordView { id: s[i].id, name: Some(name) }
            } else {
                s[i]
            },
    )
}

/// The table after `id` disconnects: its records dropped, order kept.
pub open spec fn spec_remove_peer(s: Seq<PeerRecordView>, id: PeerId) -> Seq<PeerRecordView>
    decreases s.len(),
{
    if s.len() == 0 {
        Seq::empty()
    } else {
        let rest = spec_remove_peer(s.drop_first(), id);
        if s[0].id == id {
            rest
        } else {
            seq![s[0]] + rest
        }
    }
}

/// Appending a record extends the snapshot at its end (by its description
/// when named, by nothing when unnamed).
proof fn lemma_snapshot_push(s: Seq<PeerRecordView>, r: PeerRecordView)
    ensures
        spec_snapshot(s.push(r)) == spec_snapshot(s) + (match r.name {
            Some(n) => seq![DescView { name: n, id: r.id }],
            None => Seq::empty(),
        }),
    decreases s.len(),
{
    let tail = (match r.name {
        Some(n) => seq![DescView { name: n, id: r.id }],
        None => Seq::<DescView>::empty(),
    });
    if s.len() == 0 {
        assert(s.push(r)[0] == r);
        assert(s.push(r).drop_first() =~= Seq::<PeerRecordView>::empty());
        assert(spec_snapshot(s.push(r).drop_first()) =~= Seq::<DescView>::empty());
        assert(spec_snapshot(s) =~= Seq::<DescView>::empty());
        assert(spec_snapshot(s.push(r)) =~= spec_snapshot(s) + tail);
    } else {
        assert(s.push(r)[0] == s[0]);
        assert(s.push(r).drop_first() =~= s.drop_first().push(r));
        lemma_snapshot_push(s.drop_first(), r);
        match s[0].name {
            Some(n) => {
                assert(seq![DescView { name: n, id: s[0].id }] + (spec_snapshot(s.drop_first())
                    + tail) =~= (seq![DescView { name: n, id: s[0].id }] + spec_snapshot(
                    s.drop_first(),
                )) + tail);
            },
            None => {},
        }
    }
}

/// Appending a record extends the removal result at its end in the same way.
proof fn lemma_remove_push(s: Seq<PeerRecordView>, r: PeerRecordView, id: PeerId)
    ensures
        spec_remove_peer(s.push(r), id) == spec_remove_peer(s, id) + (if r.id == id {
            Seq::empty()
        } else {
            seq![r]
        }),
    decreases s.len(),
{
    let tail = (if r.id == id {
        Seq::<PeerRecordView>::empty()
    } else {
        seq![r]
    });
    if s.len() == 0 {
        assert(s.push(r)[0] == r);
        assert(s.push(r).drop_first() =~= Seq::<PeerRecordView>::empty());
        assert(spec_remove_peer(s.push(r).drop_first(), id) =~= Seq::<PeerRecordView>::empty());
        assert(spec_remove_peer(s, id) =~= Seq::<PeerRecordView>::empty());
        assert(spec_remove_peer(s.push(r), id) =~= spec_remove_peer(s, id) + tail);
    } else {
        assert(s.push(r)[0] == s[0]);
        assert(s.push(r).drop_first() =~= s.drop_first().push(r));
        lemma_remove_push(s.drop_first(), r, id);
        if s[0].id != id {
            assert(seq![s[0]] + (spec_remove_peer(s.drop_first(), id) + tail) =~= (seq![s[0]]
                + spec_remove_peer(s.drop_first(), id)) + tail);
        }
    }
}

/// The shared peer table of one server run.
pub struct ServerDirectory {
    pub peers: Vec<PeerRecord>,
}

impl View for ServerDirectory {
    type V = Seq<PeerRecordView>;

    open spec fn view(&self) -> Seq<PeerRecordView> {
        self.peers@.map_values(|r: PeerRecord| r@)
    }
}

impl ServerDirectory {
    /// No two records share an identifier.
    pub open spec fn wf(&self) -> bool {
        wf_peers(self@)
    }

    /// A fresh, empty directory.
    pub fn new() -> (r: ServerDirectory)
        ensures
            r@ =~= Seq::<PeerRecordView>::empty(),
            r.wf(),
    {
        ServerDirectory { peers: Vec::new() }
    }

    /// Whether a record with this identifier is present.
    pub fn has_peer(&self, id: PeerId) -> (r: bool)
        ensures
            r == spec_has_peer(self@, id),
    {
        let mut i: usize = 0;
        while i < self.peers.len()
            invariant
                0 <= i <= self@.len(),
                self@.len() == self.peers@.len(),
                forall|j: int| 0 <= j < i ==> (#[trigger] self@[j]).id != id,
            decreases self@.len() - i,
        {
            if self.peers[i].id == id {
                assert(self@[i as int].id == id);
                return true;
            }
            i = i + 1;
        }
        false
    }

    /// The advertised name of `id`, or the empty string when it has none or is
    /// not present.
    fn name_or_empty(&self, id: PeerId) -> (r: String)
        requires
            self.wf(),
        ensures
            r@ == spec_name_or_empty(self@, id),
    {
        let mut i: usize = 0;
        while i < self.peers.len()
            invariant
                0 <= i <= self@.len(),
                self@.len() == self.peers@.len(),
                self.wf(),
                forall|j: int| 0 <= j < i ==> (#[trigger] self@[j]).id != id,
            decreases self@.len() - i,
        {
            if self.peers[i].id == id {
                assert(self@[i as int].id == id);
                assert(spec_has_peer(self@, id));
                proof {
                    let w = choose|w: int| 0 <= w < self@.len() && #[trigger] self@[w].id == id;
                    assert(w == i as int);
                }
                match &self.peers[i].name {
                    Some(n) => {
                        return n.clone();
                    },
                    None => {
                        let empty = String::new();
                        return empty;
                    },
                }
            }
            i = i + 1;
        }
        assert(!spec_has_peer(self@, id));
        String::new()
    }

    /// The directory snapshot for a newcomer: every named peer, no others.
    fn snapshot(&self) -> (r: Vec<PeerDescription>)
        ensures
            r@.map_values(|d: PeerDescription| d@) == spec_snapshot(self@),
    {
        let mut out: Vec<PeerDescription> = Vec::new();
        proof {
            assert(out@.map_values(|d: PeerDescription| d@) =~= Seq::<DescView>::empty());
            assert(self@.take(0) =~= Seq::<PeerRecordView>::empty());
            assert(spec_snapshot(self@.take(0)) =~= Seq::<DescView>::empty());
        }
        let mut i: usize = 0;
        while i < self.peers.len()
            invariant
                0 <= i <= self@.len(),
                self@.len() == self.peers@.len(),
                self@ == self.peers@.map_values(|rec: PeerRecord| rec@),
                out@.map_values(|d: PeerDescription| d@) == spec_snapshot(self@.take(i as int)),
            decreases self@.len() - i,
        {
            let ghost prev = out@.map_values(|d: PeerDescription| d@);
            match &self.peers[i].name {
                Some(n) => {
                    let d = PeerDescription { name: n.clone(), id: self.peers[i].id };
                    proof {
                        assert(d@ == DescView {
                            name: self@[i as int].name->Some_0,
                            id: self@[i as int].id,
                        });
                    }
                    out.push(d);
                    proof {
                        assert(out@.map_values(|dd: PeerDescription| dd@) =~= prev.push(d@));
                    }
                },
                None => {},
            }
            proof {
                lemma_snapshot_push(self@.take(i as int), self@[i as int]);
                assert(self@.take(i as int).push(self@[i as int]) =~= self@.take(i + 1));
                match self@[i as int].name {
                    Some(n) => {
                        assert(out@.map_values(|dd: PeerDescription| dd@) =~= spec_snapshot(
                            self@.take(i + 1),
                        ));
                    },
                    None => {
                        assert(spec_snapshot(self@.take(i + 1)) =~= prev);
                    },
                }
            }
            i = i + 1;
        }
        proof {
            assert(self@.take(self@.len() as int) =~= self@);
        }
        out
    }

    /// Accept a new connection under a fresh identifier: insert its record,
    /// unnamed, and hand back the two messages owed to the newcomer — its
    /// identifier, then the snapshot of every already-named peer.
    pub fn accept(&mut self, id: PeerId) -> (r: Result<Vec<ClientBoundMessage>, DuplicateIdError>)
        requires
            old(self).wf(),
        ensures
            final(self).wf(),
            r is Ok <==> !spec_has_peer(old(self)@, id),
            r is Err ==> final(self)@ == old(self)@,
            r matches Ok(msgs) ==> {
                &&& final(self)@ == old(self)@.push(PeerRecordView { id, name: None })
                &&& spec_has_peer(final(self)@, id)
                &&& msgs@.len() == 2
                &&& msgs@[0]@ == ClientBoundView::SetUuid(id)
                &&& msgs@[1]@ == ClientBoundView::ClientList(spec_snapshot(old(self)@))
            },
    {
        if self.has_peer(id) {
            return Err(DuplicateIdError);
        }
        let ghost before = self@;
        self.peers.push(PeerRecord { id, name: None });
        proof {
            assert(self@ =~= before.push(PeerRecordView { id, name: None }));
            assert forall|i: int, j: int|
                0 <= i < self@.len() && 0 <= j < self@.len() && #[trigger] self@[i].id
                    == #[trigger] self@[j].id implies i == j by {
                if i < before.len() && j < before.len() {
                    assert(before[i].id == before[j].id);
                } else if i < before.len() && j == before.len() {
                    assert(spec_has_peer(before, id));
                } else if j < before.len() && i == before.len() {
                    assert(spec_has_peer(before, id));
                }
            }
        }
        let snap = self.snapshot();
        proof {
            lemma_snapshot_push(before, PeerRecordView { id, name: None });
            assert(spec_snapshot(self@) =~= spec_snapshot(before));
        }
        let mut msgs: Vec<ClientBoundMessage> = Vec::new();
        msgs.push(ClientBoundMessage::SetUuid(id));
        msgs.push(ClientBoundMessage::ClientList(snap));
        proof {
            assert(self@[before.len() as int].id == id);
            assert(spec_has_peer(self@, id));
            assert(msgs@[0]@ == ClientBoundView::SetUuid(id));
            assert(msgs@[1]@ == ClientBoundView::ClientList(spec_snapshot(before)));
        }
        Ok(msgs)
    }

    /// Record the sender's advertised name and address a `NewClient` delta to
    /// every connected peer, the sender included.
    pub fn advertise(&mut self, sender: PeerId, name: String) -> (r: Vec<Delivery>)
        requires
            old(self).wf(),
        ensures
            final(self).wf(),
            final(self)@ == spec_set_name(old(self)@, sender, name@),
            r@.len() == old(self)@.len(),
            forall|i: int|
                0 <= i < r@.len() ==> (#[trigger] r@[i]).recipient == old(self)@[i].id
                    && r@[i].message@ == ClientBoundView::NewClient(
                    DescView { name: name@, id: sender },
                ),
    {
        let ghost before = self@;
        let mut i: usize = 0;
        while i < self.peers.len()
            invariant
                0 <= i <= before.len(),
                self.peers@.len() == before.len(),
                self@.len() == before.len(),
                forall|j: int|
                    0 <= j < before.len() ==> (#[trigger] self@[j]) == (if before[j].id == sender
                        && j < i {
                        PeerRecordView { id: before[j].id, name: Some(name@) }
                    } else {
                        before[j]
                    }),
            decreases before.len() - i,
        {
            let ghost pre = self@;
            proof {
                assert(pre[i as int] == self.peers@[i as int]@);
            }
            if self.peers[i].id == sender {
                let renamed = PeerRecord { id: sender, name: Some(name.clone()) };
                self.peers.set(i, renamed);
                proof {
                    assert(self@ =~= pre.update(
                        i as int,
                        (PeerRecordView { id: sender, name: Some(name@) }),
                    ));
                }
            } else {
                proof {
                    assert(self@[i as int] == pre[i as int]);
                }
            }
            i = i + 1;
        }
        proof {
            assert(self@ =~= spec_set_name(before, sender, name@));
            assert forall|a: int, b: int|
                0 <= a < self@.len() && 0 <= b < self@.len() && #[trigger] self@[a].id
                    == #[trigger] self@[b].id implies a == b by {
                assert(self@[a].id == before[a].id);
                assert(self@[b].id == before[b].id);
            }
        }
        let ghost now = self@;
        let mut out: Vec<Delivery> = Vec::new();
        let mut j: usize = 0;
        while j < self.peers.len()
            invariant
                0 <= j <= now.len(),
                self@ == now,
                self.peers@.len() == now.len(),
                now.len() == before.len(),
                forall|a: int| 0 <= a < now.len() ==> (#[trigger] now[a]).id == before[a].id,
                out@.len() == j,
                forall|a: int|
                    0 <= a < j ==> (#[trigger] out@[a]).recipient == before[a].id
                        && out@[a].message@ == ClientBoundView::NewClient(
                        DescView { name: name@, id: sender },
                    ),
            decreases now.len() - j,
        {
            let d = Delivery {
                recipient: self.peers[j].id,
                message: ClientBoundMessage::NewClient(
                    PeerDescription { name: name.clone(), id: sender },
                ),
            };
            proof {
                assert(self@[j as int] == self.peers@[j as int]@);
                assert(d.recipient == now[j as int].id);
                assert(d.message@ == ClientBoundView::NewClient(
                    (DescView { name: name@, id: sender }),
                ));
            }
            out.push(d);
            j = j + 1;
        }
        out
    }

    /// Route a pairing request to its target, rewriting the description to the
    /// sender's authenticated identity; an absent target drops it silently.
    pub fn forward_request(&self, sender: PeerId, target: PeerId, key: PeerPublicKey) -> (r: Option<
        Delivery,
    >)
        requires
            self.wf(),
        ensures
            r is Some <==> spec_has_peer(self@, target),
            r matches Some(d) ==> d.recipient == target && d.message@
                == ClientBoundView::ConnectionRequest(
                DescView { name: spec_name_or_empty(self@, sender), id: sender },
                key@,
            ),
    {
        if self.has_peer(target) {
            let name = self.name_or_empty(sender);
            Some(
                Delivery {
                    recipient: target,
                    message: ClientBoundMessage::ConnectionRequest(
                        PeerDescription { name, id: sender },
                        key,
                    ),
                },
            )
        } else {
            None
        }
    }

    /// Route a pairing acceptance to its target, rewriting the description to
    /// the sender's authenticated identity.
    pub fn forward_response(
        &self,
        sender: PeerId,
        target: PeerId,
        key: PeerPublicKey,
    ) -> (r: Option<Delivery>)
        requires
            self.wf(),
        ensures
            r is Some <==> spec_has_peer(self@, target),
            r matches Some(d) ==> d.recipient == target && d.message@
                == ClientBoundView::ConnectionResponse(
                DescView { name: spec_name_or_empty(self@, sender), id: sender },
                key@,
            ),
    {
        if self.has_peer(target) {
            let name = self.name_or_empty(sender);
            Some(
                Delivery {
                    recipient: target,
                    message: ClientBoundMessage::ConnectionResponse(
                        PeerDescription { name, id: sender },
                        key,
                    ),
                },
            )
        } else {
            None
        }
    }

    /// Route an encrypted envelope to its target, untouched, with the
    /// description rewritten to the sender's authenticated identity.
    pub fn forward_data(&self, sender: PeerId, target: PeerId, envelope: Envelope) -> (r: Option<
        Delivery,
    >)
        requires
            self.wf(),
        ensures
            r is Some <==> spec_has_peer(self@, target),
            r matches Some(d) ==> d.recipient == target && d.message@ == ClientBoundView::Message(
                DescView { name: spec_name_or_empty(self@, sender), id: sender },
                envelope@,
            ),
    {
        if self.has_peer(target) {
            let name = self.name_or_empty(sender);
            Some(
                Delivery {
                    recipient: target,
                    message: ClientBoundMessage::Message(
                        PeerDescription { name, id: sender },
                        envelope,
                    ),
                },
            )
        } else {
            None
        }
    }

    /// Drop the disconnected peer's record and address a `ClientDisconnected`
    /// delta to every remaining peer.
    pub fn disconnect(&mut self, id: PeerId) -> (r: Vec<Delivery>)
        requires
            old(self).wf(),
        ensures
            final(self).wf(),
            final(self)@ == spec_remove_peer(old(self)@, id),
            !spec_has_peer(final(self)@, id),
            r@.len() == final(self)@.len(),
            forall|i: int|
                0 <= i < r@.len() ==> (#[trigger] r@[i]).recipient == final(self)@[i].id
                    && r@[i].message@ == ClientBoundView::ClientDisconnected(id),
    {
        let ghost before = self@;
        let mut kept: Vec<PeerRecord> = Vec::new();
        proof {
            assert(kept@.map_values(|rec: PeerRecord| rec@) =~= Seq::<PeerRecordView>::empty());
            assert(before.take(0) =~= Seq::<PeerRecordView>::empty());
            assert(spec_remove_peer(before.take(0), id) =~= Seq::<PeerRecordView>::empty());
        }
        let mut i: usize = 0;
        while i < self.peers.len()
            invariant
                0 <= i <= before.len(),
                self.peers@.len() == before.len(),
                self@ == before,
                kept@.map_values(|rec: PeerRecord| rec@) == spec_remove_peer(
                    before.take(i as int),
                    id,
                ),
                forall|a: int, b: int|
                    0 <= a < before.len() && 0 <= b < before.len() && #[trigger] before[a].id
                        == #[trigger] before[b].id ==> a == b,
                forall|a: int|
                    0 <= a < kept@.len() ==> spec_has_peer(before, (#[trigger] kept@[a])@.id),
            decreases before.len() - i,
        {
            let ghost prev = kept@.map_values(|rec: PeerRecord| rec@);
            let keep = self.peers[i].id != id;
            if keep {
                let copy = PeerRecord {
                    id: self.peers[i].id,
                    name: match &self.peers[i].name {
                        Some(n) => Some(n.clone()),
                        None => None,
                    },
                };
                proof {
                    assert(copy@ == before[i as int]);
                }
                kept.push(copy);
                proof {
                    assert(kept@.map_values(|rec: PeerRecord| rec@) =~= prev.push(
                        before[i as int],
                    ));
                }
            }
            proof {
                lemma_remove_push(before.take(i as int), before[i as int], id);
                assert(before.take(i as int).push(before[i as int]) =~= before.take(i + 1));
                if keep {
                    assert(kept@.map_values(|rec: PeerRecord| rec@) =~= spec_remove_peer(
                        before.take(i + 1),
                        id,
                    ));
                } else {
                    assert(spec_remove_peer(before.take(i + 1), id) =~= prev);
                }
            }
            i = i + 1;
        }
        proof {
            assert(before.take(before.len() as int) =~= before);
        }
        self.peers = kept;
        proof {
            lemma_remove_peer_membership(before, id);
            assert forall|a: int, b: int|
                0 <= a < self@.len() && 0 <= b < self@.len() && #[trigger] self@[a].id
                    == #[trigger] self@[b].id implies a == b by {
                lemma_remove_peer_unique(before, id);
            }
        }
        let ghost now = self@;
        let mut out: Vec<Delivery> = Vec::new();
        let mut j: usize = 0;
        while j < self.peers.len()
            invariant
                0 <= j <= now.len(),
                self@ == now,
                self.peers@.len() == now.len(),
                out@.len() == j,
                forall|a: int|
                    0 <= a < j ==> (#[trigger] out@[a]).recipient == now[a].id && out@[a].message@
                        == ClientBoundView::ClientDisconnected(id),
            decreases now.len() - j,
        {
            let d = Delivery {
                recipient: self.peers[j].id,
                message: ClientBoundMessage::ClientDisconnected(id),
            };
            out.push(d);
            j = j + 1;
        }
        out
    }

    /// One inbound frame from `sender`, dispatched as the protocol directs:
    /// `Advertise` renames and broadcasts, the rest are relayed to their
    /// target with the sender's authenticated identity in the description.
    /// Only `Advertise` changes the table.
    pub fn handle_message(&mut self, sender: PeerId, m: ServerBoundMessage) -> (r: Vec<Delivery>)
        requires
            old(self).wf(),
        ensures
            final(self).wf(),
            m@ matches crate::messages::ServerBoundView::Advertise(n) ==> {
                &&& final(self)@ == spec_set_name(old(self)@, sender, n)
                &&& r@.len() == old(self)@.len()
                &&& forall|i: int|
                    0 <= i < r@.len() ==> (#[trigger] r@[i]).recipient == old(self)@[i].id
                        && r@[i].message@ == ClientBoundView::NewClient(
                        DescView { name: n, id: sender },
                    )
            },
            m@ matches crate::messages::ServerBoundView::ConnectionRequest(d, k) ==> {
                &&& final(self)@ == old(self)@
                &&& (r@.len() == 1 <==> spec_has_peer(old(self)@, d.id))
                &&& (r@.len() == 0 || r@.len() == 1)
                &&& (r@.len() == 1 ==> r@[0].recipient == d.id && r@[0].message@
                    == ClientBoundView::ConnectionRequest(
                    DescView { name: spec_name_or_empty(old(self)@, sender), id: sender },
                    k,
                ))
            },
            m@ matches crate::messages::ServerBoundView::ConnectionResponse(d, k) ==> {
                &&& final(self)@ == old(self)@
                &&& (r@.len() == 1 <==> spec_has_peer(old(self)@, d.id))
                &&& (r@.len() == 0 || r@.len() == 1)
                &&& (r@.len() == 1 ==> r@[0].recipient == d.id && r@[0].message@
                    == ClientBoundView::ConnectionResponse(
                    DescView { name: spec_name_or_empty(old(self)@, sender), id: sender },
                    k,
                ))
            },
            m@ matches crate::messages::ServerBoundView::Message(d, e) ==> {
                &&& final(self)@ == old(self)@
                &&& (r@.len() == 1 <==> spec_has_peer(old(self)@, d.id))
                &&& (r@.len() == 0 || r@.len() == 1)
                &&& (r@.len() == 1 ==> r@[0].recipient == d.id && r@[0].message@
                    == ClientBoundView::Message(
                    DescView { name: spec_name_or_empty(old(self)@, sender), id: sender },
                    e,
                ))
            },
    {
        match m {
            ServerBoundMessage::Advertise(name) => self.advertise(sender, name),
            ServerBoundMessage::ConnectionRequest(d, k) => {
                let mut out: Vec<Delivery> = Vec::new();
                match self.forward_request(sender, d.id, k) {
                    Some(del) => {
                        out.push(del);
                    },
                    None => {},
                }
                out
            },
            ServerBoundMessage::ConnectionResponse(d, k) => {
                let mut out: Vec<Delivery> = Vec::new();
                match self.forward_response(sender, d.id, k) {
                    Some(del) => {
                        out.push(del);
                    },
                    None => {},
                }
                out
            },
            ServerBoundMessage::Message(d, e) => {
                let mut out: Vec<Delivery> = Vec::new();
                match self.forward_data(sender, d.id, e) {
                    Some(del) => {
                        out.push(del);
                    },
                    None => {},
                }
                out
            },
        }
    }
}

/// A record survives removal exactly when it is not the removed peer's; names
/// and identifiers are preserved.
proof fn lemma_remove_peer_membership(s: Seq<PeerRecordView>, id: PeerId)
    ensures
        forall|a: int|
            0 <= a < spec_remove_peer(s, id).len() ==> s.contains(
                #[trigger] spec_remove_peer(s, id)[a],
            ) && spec_remove_peer(s, id)[a].id != id,
    decreases s.len(),
{
    if s.len() == 0 {
    } else {
        lemma_remove_peer_membership(s.drop_first(), id);
        let res = spec_remove_peer(s, id);
        let sub = spec_remove_peer(s.drop_first(), id);
        assert forall|a: int| 0 <= a < res.len() implies s.contains(#[trigger] res[a])
            && res[a].id != id by {
            if s[0].id == id {
                assert(res[a] == sub[a]);
                assert(s.drop_first().contains(sub[a]));
                let w = choose|w: int|
                    0 <= w < s.drop_first().len() && s.drop_first()[w] == sub[a];
                assert(s[w + 1] == sub[a]);
            } else {
                if a == 0 {
                    assert(res[0] == s[0]);
                } else {
                    assert(res[a] == sub[a - 1]);
                    assert(s.drop_first().contains(sub[a - 1]));
                    let w = choose|w: int|
                        0 <= w < s.drop_first().len() && s.drop_first()[w] == sub[a - 1];
                    assert(s[w + 1] == sub[a - 1]);
                }
            }
        }
    }
}

/// Removal keeps identifiers unique.
proof fn lemma_remove_peer_unique(s: Seq<PeerRecordView>, id: PeerId)
    requires
        wf_peers(s),
    ensures
        wf_peers(spec_remove_peer(s, id)),
    decreases s.len(),
{
    if s.len() == 0 {
    } else {
        assert forall|a: int, b: int|
            0 <= a < s.drop_first().len() && 0 <= b < s.drop_first().len()
                && #[trigger] s.drop_first()[a].id == #[trigger] s.drop_first()[b].id implies a
            == b by {
            assert(s[a + 1].id == s[b + 1].id);
        }
        lemma_remove_peer_unique(s.drop_first(), id);
        let res = spec_remove_peer(s, id);
        let sub = spec_remove_peer(s.drop_first(), id);
        lemma_remove_peer_membership(s.drop_first(), id);
        if s[0].id == id {
        } else {
            assert forall|a: int, b: int|
                0 <= a < res.len() && 0 <= b < res.len() && #[trigger] res[a].id
                    == #[trigger] res[b].id implies a == b by {
                if a == 0 && b > 0 {
                    assert(res[b] == sub[b - 1]);
                    assert(s.drop_first().contains(sub[b - 1]));
                    let w = choose|w: int|
                        0 <= w < s.drop_first().len() && s.drop_first()[w] == sub[b - 1];
                    assert(s[w + 1].id == s[0].id);
                } else if b == 0 && a > 0 {
                    assert(res[a] == sub[a - 1]);
                    assert(s.drop_first().contains(sub[a - 1]));
                    let w = choose|w: int|
                        0 <= w < s.drop_first().len() && s.drop_first()[w] == sub[a - 1];
                    assert(s[w + 1].id == s[0].id);
                } else if a > 0 && b > 0 {
                    assert(res[a] == sub[a - 1]);
                    assert(res[b] == sub[b - 1]);
                }
            }
        }
    }
}

/// Law: the table holds exactly one record per connected peer — whenever an
/// identifier is present at all, a single index holds its record.
pub proof fn lemma_exactly_one_record(s: Seq<PeerRecordView>, id: PeerId)
    requires
        wf_peers(s),
        spec_has_peer(s, id),
    ensures
        exists|i: int|
            0 <= i < s.len() && (#[trigger] s[i].id) == id && forall|j: int|
                0 <= j < s.len() && #[trigger] s[j].id == id ==> j == i,
{
    let i = choose|i: int| 0 <= i < s.len() && #[trigger] s[i].id == id;
    assert(0 <= i < s.len() && s[i].id == id && forall|j: int|
        0 <= j < s.len() && #[trigger] s[j].id == id ==> j == i);
}

/// Every named record appears in the snapshot, and every snapshot entry is
/// some named record.
proof fn lemma_snapshot_entries(s: Seq<PeerRecordView>)
    ensures
        forall|i: int|
            0 <= i < s.len() && (#[trigger] s[i]).name is Some ==> spec_snapshot(s).contains(
                DescView { name: s[i].name->Some_0, id: s[i].id },
            ),
        forall|j: int|
            0 <= j < spec_snapshot(s).len() ==> exists|i: int|
                0 <= i < s.len() && (#[trigger] s[i]).name == Some(
                    (#[trigger] spec_snapshot(s)[j]).name,
                ) && s[i].id == spec_snapshot(s)[j].id,
    decreases s.len(),
{
    if s.len() == 0 {
    } else {
        lemma_snapshot_entries(s.drop_first());
        let res = spec_snapshot(s);
        let sub = spec_snapshot(s.drop_first());
        let off: int = match s[0].name {
            Some(_) => 1,
            None => 0,
        };
        assert forall|i: int| 0 <= i < s.len() && (#[trigger] s[i]).name is Some implies res
            .contains(DescView { name: s[i].name->Some_0, id: s[i].id }) by {
            if i == 0 {
                assert(res[0] == DescView { name: s[0].name->Some_0, id: s[0].id });
            } else {
                assert(s.drop_first()[i - 1] == s[i]);
                assert(sub.contains(DescView { name: s[i].name->Some_0, id: s[i].id }));
                let w = choose|w: int|
                    0 <= w < sub.len() && sub[w] == DescView {
                        name: s[i].name->Some_0,
                        id: s[i].id,
                    };
                assert(res[w + off] == sub[w]);
            }
        }
        assert forall|j: int| 0 <= j < res.len() implies exists|i: int|
            0 <= i < s.len() && (#[trigger] s[i]).name == Some((#[trigger] res[j]).name) && s[i].id
                == res[j].id by {
            if off == 1 && j == 0 {
                assert(s[0].name == Some(res[0].name) && s[0].id == res[0].id);
            } else {
                assert(res[j] == sub[j - off]);
                let w = choose|w: int|
                    0 <= w < s.drop_first().len() && (#[trigger] s.drop_first()[w]).name == Some(
                        sub[j - off].name,
                    ) && s.drop_first()[w].id == sub[j - off].id;
                assert(s[w + 1].name == Some(res[j].name) && s[w + 1].id == res[j].id);
            }
        }
    }
}

/// Law: a peer that has advertised a name is in the directory snapshot every
/// newcomer receives, so a client that installs that snapshot lists the peer.
pub proof fn lemma_advertised_visible_to_joiner(s: Seq<PeerRecordView>, i: int)
    requires
        0 <= i < s.len(),
        s[i].name is Some,
    ensures
        spec_snapshot(s).contains(DescView { name: s[i].name->Some_0, id: s[i].id }),
{
    lemma_snapshot_entries(s);
}

/// Law: a peer with no advertised name appears in no directory snapshot —
/// no snapshot entry carries its identifier.
pub proof fn lemma_unnamed_hidden(s: Seq<PeerRecordView>, i: int)
    requires
        wf_peers(s),
        0 <= i < s.len(),
        s[i].name is None,
    ensures
        forall|j: int|
            0 <= j < spec_snapshot(s).len() ==> (#[trigger] spec_snapshot(s)[j]).id != s[i].id,
{
    lemma_snapshot_entries(s);
    let res = spec_snapshot(s);
    assert forall|j: int| 0 <= j < res.len() implies (#[trigger] res[j]).id != s[i].id by {
        let w = choose|w: int|
            0 <= w < s.len() && (#[trigger] s[w]).name == Some(res[j].name) && s[w].id == res[j].id;
        if res[j].id == s[i].id {
            assert(s[w].id == s[i].id);
        }
    }
}

} // verus!
