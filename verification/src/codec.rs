//! The wire codec: a deterministic binary encoding of the two message unions,
//! framed on the stream as `<u64 little-endian length><payload>`.
//!
//! Encoding rules: fixed-width little-endian integers; the variant tag is a
//! `u32` ordinal in declared order; byte sequences and strings carry a `u64`
//! count prefix; strings are UTF-8; tuple fields are concatenated; peer
//! identifiers are 16 raw bytes; public keys are modulus then exponent, each
//! count-prefixed.
use vstd::prelude::*;
use vstd::bytes::*;
use vstd::utf8::*;
use vstd::string::StrSliceExecFns;
use vstd::slice::{slice_subrange, slice_to_vec};

use crate::messages::{
    ClientBoundMessage, ClientBoundView, DescView, Envelope, EnvelopeView, KeyView,
    PeerDescription, PeerPublicKey, ServerBoundMessage, ServerBoundView,
};

verus! {

/// Error for a payload that is not a well-formed encoding of any message:
/// truncated field, unknown tag, invalid UTF-8, or trailing bytes.
#[derive(Debug, Clone, Copy, PartialEq, Eq, Structural)]
pub struct DecodeError;

// ---------------------------------------------------------------------------
// Specification-level encoders
// ---------------------------------------------------------------------------

/// Encoding of a count-prefixed byte sequence.
pub open spec fn spec_enc_bytes(b: Seq<u8>) -> Seq<u8> {
    spec_u64_to_le_bytes(b.len() as u64) + b
}

/// Encoding of a count-prefixed UTF-8 string.
pub open spec fn spec_enc_string(s: Seq<char>) -> Seq<u8> {
    spec_enc_bytes(encode_utf8(s))
}

/// Encoding of a peer description: name, then identifier as 16 raw bytes.
pub open spec fn spec_enc_desc(d: DescView) -> Seq<u8> {
    spec_enc_string(d.name) + spec_u128_to_le_bytes(d.id)
}

/// Encoding of a public key: modulus bytes, then exponent bytes.
pub open spec fn spec_enc_key(k: KeyView) -> Seq<u8> {
    spec_enc_bytes(k.modulus) + spec_enc_bytes(k.exponent)
}

/// Encoding of an envelope: its three byte fields in order.
pub open spec fn spec_enc_envelope(e: EnvelopeView) -> Seq<u8> {
    spec_enc_bytes(e.encrypted_key) + spec_enc_bytes(e.nonce) + spec_enc_bytes(e.ciphertext)
}

/// Back-to-back encodings of a sequence of descriptions.
pub open spec fn spec_enc_descs(l: Seq<DescView>) -> Seq<u8>
    decreases l.len(),
{
    if l.len() == 0 {
        Seq::empty()
    } else {
        spec_enc_desc(l[0]) + spec_enc_descs(l.drop_first())
    }
}

/// Encoding of a description list: count, then the elements.
pub open spec fn spec_enc_desc_list(l: Seq<DescView>) -> Seq<u8> {
    spec_u64_to_le_bytes(l.len() as u64) + spec_enc_descs(l)
}

/// Encoding of a client-bound message: `u32` ordinal tag, then the fields.
pub open spec fn spec_enc_client(m: ClientBoundView) -> Seq<u8> {
    match m {
        ClientBoundView::SetUuid(id) => spec_u32_to_le_bytes(0) + spec_u128_to_le_bytes(id),
        ClientBoundView::ClientList(l) => spec_u32_to_le_bytes(1) + spec_enc_desc_list(l),
        ClientBoundView::NewClient(d) => spec_u32_to_le_bytes(2) + spec_enc_desc(d),
        ClientBoundView::ClientDisconnected(id) => spec_u32_to_le_bytes(3) + spec_u128_to_le_bytes(
            id,
        ),
        ClientBoundView::ConnectionRequest(d, k) => spec_u32_to_le_bytes(4) + spec_enc_desc(d)
            + spec_enc_key(k),
        ClientBoundView::ConnectionResponse(d, k) => spec_u32_to_le_bytes(5) + spec_enc_desc(d)
            + spec_enc_key(k),
        ClientBoundView::Message(d, e) => spec_u32_to_le_bytes(6) + spec_enc_desc(d)
            + spec_enc_envelope(e),
    }
}

/// Encoding of a server-bound message: `u32` ordinal tag, then the fields.
pub open spec fn spec_enc_server(m: ServerBoundView) -> Seq<u8> {
    match m {
        ServerBoundView::Advertise(n) => spec_u32_to_le_bytes(0) + spec_enc_string(n),
        ServerBoundView::ConnectionRequest(d, k) => spec_u32_to_le_bytes(1) + spec_enc_desc(d)
            + spec_enc_key(k),
        ServerBoundView::ConnectionResponse(d, k) => spec_u32_to_le_bytes(2) + spec_enc_desc(d)
            + spec_enc_key(k),
        ServerBoundView::Message(d, e) => spec_u32_to_le_bytes(3) + spec_enc_desc(d)
            + spec_enc_envelope(e),
    }
}

/// A whole frame: the payload's length as a little-endian `u64`, then the payload.
pub open spec fn spec_frame(payload: Seq<u8>) -> Seq<u8> {
    spec_u64_to_le_bytes(payload.len() as u64) + payload
}

// ---------------------------------------------------------------------------
// Encodability bounds (the count prefixes are 64-bit)
// ---------------------------------------------------------------------------

/// A byte sequence whose count fits its prefix.
pub open spec fn wf_bytes(b: Seq<u8>) -> bool {
    b.len() <= u64::MAX
}

/// A string whose UTF-8 byte count fits its prefix.
pub open spec fn wf_string(s: Seq<char>) -> bool {
    encode_utf8(s).len() <= u64::MAX
}

/// A description whose name is encodable.
pub open spec fn wf_desc(d: DescView) -> bool {
    wf_string(d.name)
}

/// A key whose parts are encodable.
pub open spec fn wf_key(k: KeyView) -> bool {
    wf_bytes(k.modulus) && wf_bytes(k.exponent)
}

/// An envelope whose parts are encodable.
pub open spec fn wf_envelope(e: EnvelopeView) -> bool {
    wf_bytes(e.encrypted_key) && wf_bytes(e.nonce) && wf_bytes(e.ciphertext)
}

/// A client-bound message whose fields are all encodable.
pub open spec fn wf_client_view(m: ClientBoundView) -> bool {
    match m {
        ClientBoundView::SetUuid(_) => true,
        ClientBoundView::ClientList(l) => l.len() <= u64::MAX && forall|i: int|
            0 <= i < l.len() ==> wf_desc(#[trigger] l[i]),
        ClientBoundView::NewClient(d) => wf_desc(d),
        ClientBoundView::ClientDisconnected(_) => true,
        ClientBoundView::ConnectionRequest(d, k) => wf_desc(d) && wf_key(k),
        ClientBoundView::ConnectionResponse(d, k) => wf_desc(d) && wf_key(k),
        ClientBoundView::Message(d, e) => wf_desc(d) && wf_envelope(e),
    }
}

/// A server-bound message whose fields are all encodable.
pub open spec fn wf_server_view(m: ServerBoundView) -> bool {
    match m {
        ServerBoundView::Advertise(n) => wf_string(n),
        ServerBoundView::ConnectionRequest(d, k) => wf_desc(d) && wf_key(k),
        ServerBoundView::ConnectionResponse(d, k) => wf_desc(d) && wf_key(k),
        ServerBoundView::Message(d, e) => wf_desc(d) && wf_envelope(e),
    }
}

// ---------------------------------------------------------------------------
// Executable encoders
// ---------------------------------------------------------------------------

fn write_u32(out: &mut Vec<u8>, x: u32)
    ensures
        final(out)@ == old(out)@ + spec_u32_to_le_bytes(x),
{
    let mut b = u32_to_le_bytes(x);
    out.append(&mut b);
}

fn write_u64(out: &mut Vec<u8>, x: u64)
    ensures
        final(out)@ == old(out)@ + spec_u64_to_le_bytes(x),
{
    let mut b = u64_to_le_bytes(x);
    out.append(&mut b);
}

fn write_u128(out: &mut Vec<u8>, x: u128)
    ensures
        final(out)@ == old(out)@ + spec_u128_to_le_bytes(x),
{
    let mut b = u128_to_le_bytes(x);
    out.append(&mut b);
}

fn write_bytes_field(out: &mut Vec<u8>, b: &Vec<u8>)
    ensures
        final(out)@ == old(out)@ + spec_enc_bytes(b@),
        wf_bytes(b@),
{
    let len: u64 = b.len() as u64;
    write_u64(out, len);
    out.extend_from_slice(b.as_slice());
}

fn write_string(out: &mut Vec<u8>, s: &String)
    ensures
        final(out)@ == old(out)@ + spec_enc_string(s@),
        wf_string(s@),
{
    let bytes = s.as_str().as_bytes_vec();
    write_bytes_field(out, &bytes);
}

fn write_desc(out: &mut Vec<u8>, d: &PeerDescription)
    ensures
        final(out)@ == old(out)@ + spec_enc_desc(d@),
        wf_desc(d@),
{
    write_string(out, &d.name);
    write_u128(out, d.id);
    proof {
        assert(out@ == old(out)@ + spec_enc_desc(d@)) by {
            assert(old(out)@ + spec_enc_string(d.name@) + spec_u128_to_le_bytes(d.id) =~= old(out)@
                + spec_enc_desc(d@));
        }
    }
}

fn write_key(out: &mut Vec<u8>, k: &PeerPublicKey)
    ensures
        final(out)@ == old(out)@ + spec_enc_key(k@),
        wf_key(k@),
{
    write_bytes_field(out, &k.modulus);
    write_bytes_field(out, &k.exponent);
    proof {
        assert(old(out)@ + spec_enc_bytes(k.modulus@) + spec_enc_bytes(k.exponent@) =~= old(out)@
            + spec_enc_key(k@));
    }
}

fn write_envelope(out: &mut Vec<u8>, e: &Envelope)
    ensures
        final(out)@ == old(out)@ + spec_enc_envelope(e@),
        wf_envelope(e@),
{
    write_bytes_field(out, &e.encrypted_key);
    write_bytes_field(out, &e.nonce);
    write_bytes_field(out, &e.ciphertext);
    proof {
        assert(old(out)@ + spec_enc_bytes(e.encrypted_key@) + spec_enc_bytes(e.nonce@)
            + spec_enc_bytes(e.ciphertext@) =~= old(out)@ + spec_enc_envelope(e@));
    }
}

/// Appending one more description extends the back-to-back encoding at its end.
proof fn lemma_enc_descs_push(l: Seq<DescView>, d: DescView)
    ensures
        spec_enc_descs(l.push(d)) == spec_enc_descs(l) + spec_enc_desc(d),
    decreases l.len(),
{
    if l.len() == 0 {
        assert(l.push(d)[0] == d);
        assert(l.push(d).drop_first() =~= Seq::<DescView>::empty());
        assert(spec_enc_descs(l.push(d).drop_first()) =~= Seq::<u8>::empty());
        assert(spec_enc_descs(l) =~= Seq::<u8>::empty());
        assert(spec_enc_descs(l.push(d)) =~= spec_enc_descs(l) + spec_enc_desc(d));
    } else {
        assert(l.push(d)[0] == l[0]);
        assert(l.push(d).drop_first() =~= l.drop_first().push(d));
        lemma_enc_descs_push(l.drop_first(), d);
        assert(spec_enc_descs(l.push(d)) == spec_enc_desc(l[0]) + (spec_enc_descs(l.drop_first())
            + spec_enc_desc(d)));
        assert(spec_enc_desc(l[0]) + (spec_enc_descs(l.drop_first()) + spec_enc_desc(d)) =~= (
        spec_enc_desc(l[0]) + spec_enc_descs(l.drop_first())) + spec_enc_desc(d));
    }
}

fn write_desc_list(out: &mut Vec<u8>, l: &Vec<PeerDescription>)
    ensures
        final(out)@ == old(out)@ + spec_enc_desc_list(l@.map_values(|d: PeerDescription| d@)),
        l@.len() <= u64::MAX,
        forall|i: int| 0 <= i < l@.len() ==> wf_desc((#[trigger] l@[i])@),
{
    let ghost views = l@.map_values(|d: PeerDescription| d@);
    let len: u64 = l.len() as u64;
    write_u64(out, len);
    let ghost base = out@;
    let mut i: usize = 0;
    while i < l.len()
        invariant
            0 <= i <= l@.len(),
            views == l@.map_values(|d: PeerDescription| d@),
            views.len() == l@.len(),
            out@ == base + spec_enc_descs(views.take(i as int)),
            forall|j: int| 0 <= j < i ==> wf_desc(#[trigger] views[j]),
        decreases l@.len() - i,
    {
        write_desc(out, &l[i]);
        proof {
            assert(views.take(i as int).push(views[i as int]) =~= views.take(i + 1));
            lemma_enc_descs_push(views.take(i as int), views[i as int]);
            assert(base + spec_enc_descs(views.take(i as int)) + spec_enc_desc(views[i as int])
                =~= base + spec_enc_descs(views.take(i + 1)));
        }
        i = i + 1;
    }
    proof {
        assert(views.take(views.len() as int) =~= views);
        assert(out@ =~= old(out)@ + spec_enc_desc_list(views));
        assert forall|j: int| 0 <= j < l@.len() implies wf_desc((#[trigger] l@[j])@) by {
            assert(views[j] == l@[j]@);
        }
    }
}

/// Serialize one client-bound message to its wire payload.
pub fn encode_client_bound(m: &ClientBoundMessage) -> (r: Vec<u8>)
    ensures
        r@ == spec_enc_client(m@),
        wf_client_view(m@),
{
    let mut out: Vec<u8> = Vec::new();
    match m {
        ClientBoundMessage::SetUuid(id) => {
            write_u32(&mut out, 0);
            write_u128(&mut out, *id);
        },
        ClientBoundMessage::ClientList(l) => {
            write_u32(&mut out, 1);
            write_desc_list(&mut out, l);
        },
        ClientBoundMessage::NewClient(d) => {
            write_u32(&mut out, 2);
            write_desc(&mut out, d);
        },
        ClientBoundMessage::ClientDisconnected(id) => {
            write_u32(&mut out, 3);
            write_u128(&mut out, *id);
        },
        ClientBoundMessage::ConnectionRequest(d, k) => {
            write_u32(&mut out, 4);
            write_desc(&mut out, d);
            write_key(&mut out, k);
        },
        ClientBoundMessage::ConnectionResponse(d, k) => {
            write_u32(&mut out, 5);
            write_desc(&mut out, d);
            write_key(&mut out, k);
        },
        ClientBoundMessage::Message(d, e) => {
            write_u32(&mut out, 6);
            write_desc(&mut out, d);
            write_envelope(&mut out, e);
        },
    }
    proof {
        assert(out@ =~= spec_enc_client(m@));
    }
    out
}

/// Serialize one server-bound message to its wire payload.
pub fn encode_server_bound(m: &ServerBoundMessage) -> (r: Vec<u8>)
    ensures
        r@ == spec_enc_server(m@),
        wf_server_view(m@),
{
    let mut out: Vec<u8> = Vec::new();
    match m {
        ServerBoundMessage::Advertise(n) => {
            write_u32(&mut out, 0);
            write_string(&mut out, n);
        },
        ServerBoundMessage::ConnectionRequest(d, k) => {
            write_u32(&mut out, 1);
            write_desc(&mut out, d);
            write_key(&mut out, k);
        },
        ServerBoundMessage::ConnectionResponse(d, k) => {
            write_u32(&mut out, 2);
            write_desc(&mut out, d);
            write_key(&mut out, k);
        },
        ServerBoundMessage::Message(d, e) => {
            write_u32(&mut out, 3);
            write_desc(&mut out, d);
            write_envelope(&mut out, e);
        },
    }
    proof {
        assert(out@ =~= spec_enc_server(m@));
    }
    out
}

/// Prefix a payload with its length, making one frame.
pub fn frame_payload(payload: &Vec<u8>) -> (r: Vec<u8>)
    ensures
        r@ == spec_frame(payload@),
        r@.len() == 8 + payload@.len(),
{
    let mut out: Vec<u8> = Vec::new();
    let len: u64 = payload.len() as u64;
    write_u64(&mut out, len);
    out.extend_from_slice(payload.as_slice());
    proof {
        lemma_auto_spec_u64_to_from_le_bytes();
    }
    out
}

/// Read the length field of a frame from its first 8 bytes.
pub fn parse_frame_length(header: &Vec<u8>) -> (r: u64)
    requires
        header@.len() == 8,
    ensures
        r == spec_u64_from_le_bytes(header@),
{
    u64_from_le_bytes(header.as_slice())
}

// ---------------------------------------------------------------------------
// Specification-level decoders. Each consumes a prefix of the bytes and
// returns the decoded value together with the remainder, or nothing when the
// bytes do not begin with a well-formed encoding.
// ---------------------------------------------------------------------------

/// Decode a `u32` from the first 4 bytes.
pub open spec fn spec_dec_u32(b: Seq<u8>) -> Option<(u32, Seq<u8>)> {
    if b.len() >= 4 {
        Some((spec_u32_from_le_bytes(b.take(4)), b.skip(4)))
    } else {
        None
    }
}

/// Decode a `u64` from the first 8 bytes.
pub open spec fn spec_dec_u64(b: Seq<u8>) -> Option<(u64, Seq<u8>)> {
    if b.len() >= 8 {
        Some((spec_u64_from_le_bytes(b.take(8)), b.skip(8)))
    } else {
        None
    }
}

/// Decode a `u128` from the first 16 bytes.
pub open spec fn spec_dec_u128(b: Seq<u8>) -> Option<(u128, Seq<u8>)> {
    if b.len() >= 16 {
        Some((spec_u128_from_le_bytes(b.take(16)), b.skip(16)))
    } else {
        None
    }
}

/// Decode a count-prefixed byte sequence.
pub open spec fn spec_dec_bytes(b: Seq<u8>) -> Option<(Seq<u8>, Seq<u8>)> {
    match spec_dec_u64(b) {
        Some((n, r)) => if n <= r.len() {
            Some((r.take(n as int), r.skip(n as int)))
        } else {
            None
        },
        None => None,
    }
}

/// Decode a count-prefixed UTF-8 string.
pub open spec fn spec_dec_string(b: Seq<u8>) -> Option<(Seq<char>, Seq<u8>)> {
    match spec_dec_bytes(b) {
        Some((v, r)) => if valid_utf8(v) {
            Some((decode_utf8(v), r))
        } else {
            None
        },
        None => None,
    }
}

/// Decode a peer description.
pub open spec fn spec_dec_desc(b: Seq<u8>) -> Option<(DescView, Seq<u8>)> {
    match spec_dec_string(b) {
        Some((nm, r)) => match spec_dec_u128(r) {
            Some((id, r2)) => Some((DescView { name: nm, id }, r2)),
            None => None,
        },
        None => None,
    }
}

/// Decode a public key.
pub open spec fn spec_dec_key(b: Seq<u8>) -> Option<(KeyView, Seq<u8>)> {
    match spec_dec_bytes(b) {
        Some((m, r)) => match spec_dec_bytes(r) {
            Some((e, r2)) => Some((KeyView { modulus: m, exponent: e }, r2)),
            None => None,
        },
        None => None,
    }
}

/// Decode an envelope.
pub open spec fn spec_dec_envelope(b: Seq<u8>) -> Option<(EnvelopeView, Seq<u8>)> {
    match spec_dec_bytes(b) {
        Some((k, r)) => match spec_dec_bytes(r) {
            Some((n, r2)) => match spec_dec_bytes(r2) {
                Some((c, r3)) => Some(
                    (EnvelopeView { encrypted_key: k, nonce: n, ciphertext: c }, r3),
                ),
                None => None,
            },
            None => None,
        },
        None => None,
    }
}

/// Decode exactly `n` back-to-back descriptions.
pub open spec fn spec_dec_descs(b: Seq<u8>, n: nat) -> Option<(Seq<DescView>, Seq<u8>)>
    decreases n,
{
    if n == 0 {
        Some((Seq::empty(), b))
    } else {
        match spec_dec_desc(b) {
            Some((d, r)) => match spec_dec_descs(r, (n - 1) as nat) {
                Some((l, r2)) => Some((seq![d] + l, r2)),
                None => None,
            },
            None => None,
        }
    }
}

/// Decode a count-prefixed description list.
pub open spec fn spec_dec_desc_list(b: Seq<u8>) -> Option<(Seq<DescView>, Seq<u8>)> {
    match spec_dec_u64(b) {
        Some((n, r)) => spec_dec_descs(r, n as nat),
        None => None,
    }
}

/// Decode one whole client-bound payload; trailing bytes are refused.
pub open spec fn spec_dec_client(b: Seq<u8>) -> Option<ClientBoundView> {
    match spec_dec_u32(b) {
        Some((tag, r)) => if tag == 0 {
            match spec_dec_u128(r) {
                Some((id, r2)) => if r2.len() == 0 {
                    Some(ClientBoundView::SetUuid(id))
                } else {
                    None
                },
                None => None,
            }
        } else if tag == 1 {
            match spec_dec_desc_list(r) {
                Some((l, r2)) => if r2.len() == 0 {
                    Some(ClientBoundView::ClientList(l))
                } else {
                    None
                },
                None => None,
            }
        } else if tag == 2 {
            match spec_dec_desc(r) {
                Some((d, r2)) => if r2.len() == 0 {
                    Some(ClientBoundView::NewClient(d))
                } else {
                    None
                },
                None => None,
            }
        } else if tag == 3 {
            match spec_dec_u128(r) {
                Some((id, r2)) => if r2.len() == 0 {
                    Some(ClientBoundView::ClientDisconnected(id))
                } else {
                    None
                },
                None => None,
            }
        } else if tag == 4 {
            match spec_dec_desc(r) {
                Some((d, r2)) => match spec_dec_key(r2) {
                    Some((k, r3)) => if r3.len() == 0 {
                        Some(ClientBoundView::ConnectionRequest(d, k))
                    } else {
                        None
                    },
                    None => None,
                },
                None => None,
            }
        } else if tag == 5 {
            match spec_dec_desc(r) {
                Some((d, r2)) => match spec_dec_key(r2) {
                    Some((k, r3)) => if r3.len() == 0 {
                        Some(ClientBoundView::ConnectionResponse(d, k))
                    } else {
                        None
                    },
                    None => None,
                },
                None => None,
            }
        } else if tag == 6 {
            match spec_dec_desc(r) {
                Some((d, r2)) => match spec_dec_envelope(r2) {
                    Some((e, r3)) => if r3.len() == 0 {
                        Some(ClientBoundView::Message(d, e))
                    } else {
                        None
                    },
                    None => None,
                },
                None => None,
            }
        } else {
            None
        },
        None => None,
    }
}

/// Decode one whole server-bound payload; trailing bytes are refused.
pub open spec fn spec_dec_server(b: Seq<u8>) -> Option<ServerBoundView> {
    match spec_dec_u32(b) {
        Some((tag, r)) => if tag == 0 {
            match spec_dec_string(r) {
                Some((nm, r2)) => if r2.len() == 0 {
                    Some(ServerBoundView::Advertise(nm))
                } else {
                    None
                },
                None => None,
            }
        } else if tag == 1 {
            match spec_dec_desc(r) {
                Some((d, r2)) => match spec_dec_key(r2) {
                    Some((k, r3)) => if r3.len() == 0 {
                        Some(ServerBoundView::ConnectionRequest(d, k))
                    } else {
                        None
                    },
                    None => None,
                },
                None => None,
            }
        } else if tag == 2 {
            match spec_dec_desc(r) {
                Some((d, r2)) => match spec_dec_key(r2) {
                    Some((k, r3)) => if r3.len() == 0 {
                        Some(ServerBoundView::ConnectionResponse(d, k))
                    } else {
                        None
                    },
                    None => None,
                },
                None => None,
            }
        } else if tag == 3 {
            match spec_dec_desc(r) {
                Some((d, r2)) => match spec_dec_envelope(r2) {
                    Some((e, r3)) => if r3.len() == 0 {
                        Some(ServerBoundView::Message(d, e))
                    } else {
                        None
                    },
                    None => None,
                },
                None => None,
            }
        } else {
            None
        },
        None => None,
    }
}

// ---------------------------------------------------------------------------
// Round-trip laws: decoding inverts encoding.
// ---------------------------------------------------------------------------

proof fn lemma_dec_enc_u32(x: u32, rest: Seq<u8>)
    ensures
        spec_dec_u32(spec_u32_to_le_bytes(x) + rest) == Some((x, rest)),
{
    lemma_auto_spec_u32_to_from_le_bytes();
    assert((spec_u32_to_le_bytes(x) + rest).take(4) =~= spec_u32_to_le_bytes(x));
    assert((spec_u32_to_le_bytes(x) + rest).skip(4) =~= rest);
}

proof fn lemma_dec_enc_u64(x: u64, rest: Seq<u8>)
    ensures
        spec_dec_u64(spec_u64_to_le_bytes(x) + rest) == Some((x, rest)),
{
    lemma_auto_spec_u64_to_from_le_bytes();
    assert((spec_u64_to_le_bytes(x) + rest).take(8) =~= spec_u64_to_le_bytes(x));
    assert((spec_u64_to_le_bytes(x) + rest).skip(8) =~= rest);
}

proof fn lemma_dec_enc_u128(x: u128, rest: Seq<u8>)
    ensures
        spec_dec_u128(spec_u128_to_le_bytes(x) + rest) == Some((x, rest)),
{
    lemma_auto_spec_u128_to_from_le_bytes();
    assert((spec_u128_to_le_bytes(x) + rest).take(16) =~= spec_u128_to_le_bytes(x));
    assert((spec_u128_to_le_bytes(x) + rest).skip(16) =~= rest);
}

proof fn lemma_dec_enc_bytes(v: Seq<u8>, rest: Seq<u8>)
    requires
        wf_bytes(v),
    ensures
        spec_dec_bytes(spec_enc_bytes(v) + rest) == Some((v, rest)),
{
    let n: u64 = v.len() as u64;
    assert(spec_enc_bytes(v) + rest =~= spec_u64_to_le_bytes(n) + (v + rest));
    lemma_dec_enc_u64(n, v + rest);
    assert((v + rest).take(n as int) =~= v);
    assert((v + rest).skip(n as int) =~= rest);
}

proof fn lemma_dec_enc_string(s: Seq<char>, rest: Seq<u8>)
    requires
        wf_string(s),
    ensures
        spec_dec_string(spec_enc_string(s) + rest) == Some((s, rest)),
{
    encode_utf8_valid_utf8(s);
    encode_utf8_decode_utf8(s);
    lemma_dec_enc_bytes(encode_utf8(s), rest);
}

proof fn lemma_dec_enc_desc(d: DescView, rest: Seq<u8>)
    requires
        wf_desc(d),
    ensures
        spec_dec_desc(spec_enc_desc(d) + rest) == Some((d, rest)),
{
    assert(spec_enc_desc(d) + rest =~= spec_enc_string(d.name) + (spec_u128_to_le_bytes(d.id)
        + rest));
    lemma_dec_enc_string(d.name, spec_u128_to_le_bytes(d.id) + rest);
    lemma_dec_enc_u128(d.id, rest);
    assert(DescView { name: d.name, id: d.id } == d);
}

proof fn lemma_dec_enc_key(k: KeyView, rest: Seq<u8>)
    requires
        wf_key(k),
    ensures
        spec_dec_key(spec_enc_key(k) + rest) == Some((k, rest)),
{
    assert(spec_enc_key(k) + rest =~= spec_enc_bytes(k.modulus) + (spec_enc_bytes(k.exponent)
        + rest));
    lemma_dec_enc_bytes(k.modulus, spec_enc_bytes(k.exponent) + rest);
    lemma_dec_enc_bytes(k.exponent, rest);
    assert(KeyView { modulus: k.modulus, exponent: k.exponent } == k);
}

proof fn lemma_dec_enc_envelope(e: EnvelopeView, rest: Seq<u8>)
    requires
        wf_envelope(e),
    ensures
        spec_dec_envelope(spec_enc_envelope(e) + rest) == Some((e, rest)),
{
    assert(spec_enc_envelope(e) + rest =~= spec_enc_bytes(e.encrypted_key) + (spec_enc_bytes(
        e.nonce,
    ) + (spec_enc_bytes(e.ciphertext) + rest)));
    lemma_dec_enc_bytes(e.encrypted_key, spec_enc_bytes(e.nonce) + (spec_enc_bytes(e.ciphertext)
        + rest));
    lemma_dec_enc_bytes(e.nonce, spec_enc_bytes(e.ciphertext) + rest);
    lemma_dec_enc_bytes(e.ciphertext, rest);
    assert(EnvelopeView { encrypted_key: e.encrypted_key, nonce: e.nonce, ciphertext: e.ciphertext }
        == e);
}

proof fn lemma_dec_enc_descs(l: Seq<DescView>, rest: Seq<u8>)
    requires
        forall|i: int| 0 <= i < l.len() ==> wf_desc(#[trigger] l[i]),
    ensures
        spec_dec_descs(spec_enc_descs(l) + rest, l.len()) == Some((l, rest)),
    decreases l.len(),
{
    if l.len() == 0 {
        assert(spec_enc_descs(l) + rest =~= rest);
        assert(l =~= Seq::<DescView>::empty());
    } else {
        let tail = l.drop_first();
        assert(spec_enc_descs(l) + rest =~= spec_enc_desc(l[0]) + (spec_enc_descs(tail) + rest));
        lemma_dec_enc_desc(l[0], spec_enc_descs(tail) + rest);
        assert(forall|i: int| 0 <= i < tail.len() ==> wf_desc(#[trigger] tail[i]));
        lemma_dec_enc_descs(tail, rest);
        assert(seq![l[0]] + tail =~= l);
    }
}

proof fn lemma_dec_enc_desc_list(l: Seq<DescView>, rest: Seq<u8>)
    requires
        l.len() <= u64::MAX,
        forall|i: int| 0 <= i < l.len() ==> wf_desc(#[trigger] l[i]),
    ensures
        spec_dec_desc_list(spec_enc_desc_list(l) + rest) == Some((l, rest)),
{
    let n: u64 = l.len() as u64;
    assert(spec_enc_desc_list(l) + rest =~= spec_u64_to_le_bytes(n) + (spec_enc_descs(l) + rest));
    lemma_dec_enc_u64(n, spec_enc_descs(l) + rest);
    lemma_dec_enc_descs(l, rest);
}

/// Law: every client-bound message survives the codec round trip — decoding
/// the encoding of a message yields the message itself.
pub proof fn lemma_client_round_trip(v: ClientBoundView)
    requires
        wf_client_view(v),
    ensures
        spec_dec_client(spec_enc_client(v)) == Some(v),
{
    let empty = Seq::<u8>::empty();
    match v {
        ClientBoundView::SetUuid(id) => {
            lemma_dec_enc_u32(0, spec_u128_to_le_bytes(id));
            assert(spec_u128_to_le_bytes(id) =~= spec_u128_to_le_bytes(id) + empty);
            lemma_dec_enc_u128(id, empty);
        },
        ClientBoundView::ClientList(l) => {
            lemma_dec_enc_u32(1, spec_enc_desc_list(l));
            assert(spec_enc_desc_list(l) =~= spec_enc_desc_list(l) + empty);
            lemma_dec_enc_desc_list(l, empty);
        },
        ClientBoundView::NewClient(d) => {
            lemma_dec_enc_u32(2, spec_enc_desc(d));
            assert(spec_enc_desc(d) =~= spec_enc_desc(d) + empty);
            lemma_dec_enc_desc(d, empty);
        },
        ClientBoundView::ClientDisconnected(id) => {
            lemma_dec_enc_u32(3, spec_u128_to_le_bytes(id));
            assert(spec_u128_to_le_bytes(id) =~= spec_u128_to_le_bytes(id) + empty);
            lemma_dec_enc_u128(id, empty);
        },
        ClientBoundView::ConnectionRequest(d, k) => {
            assert(spec_enc_client(v) =~= spec_u32_to_le_bytes(4) + (spec_enc_desc(d)
                + spec_enc_key(k)));
            lemma_dec_enc_u32(4, spec_enc_desc(d) + spec_enc_key(k));
            lemma_dec_enc_desc(d, spec_enc_key(k));
            assert(spec_enc_key(k) =~= spec_enc_key(k) + empty);
            lemma_dec_enc_key(k, empty);
        },
        ClientBoundView::ConnectionResponse(d, k) => {
            assert(spec_enc_client(v) =~= spec_u32_to_le_bytes(5) + (spec_enc_desc(d)
                + spec_enc_key(k)));
            lemma_dec_enc_u32(5, spec_enc_desc(d) + spec_enc_key(k));
            lemma_dec_enc_desc(d, spec_enc_key(k));
            assert(spec_enc_key(k) =~= spec_enc_key(k) + empty);
            lemma_dec_enc_key(k, empty);
        },
        ClientBoundView::Message(d, e) => {
            assert(spec_enc_client(v) =~= spec_u32_to_le_bytes(6) + (spec_enc_desc(d)
                + spec_enc_envelope(e)));
            lemma_dec_enc_u32(6, spec_enc_desc(d) + spec_enc_envelope(e));
            lemma_dec_enc_desc(d, spec_enc_envelope(e));
            assert(spec_enc_envelope(e) =~= spec_enc_envelope(e) + empty);
            lemma_dec_enc_envelope(e, empty);
        },
    }
}

/// Law: every server-bound message survives the codec round trip — decoding
/// the encoding of a message yields the message itself.
pub proof fn lemma_server_round_trip(v: ServerBoundView)
    requires
        wf_server_view(v),
    ensures
        spec_dec_server(spec_enc_server(v)) == Some(v),
{
    let empty = Seq::<u8>::empty();
    match v {
        ServerBoundView::Advertise(n) => {
            lemma_dec_enc_u32(0, spec_enc_string(n));
            assert(spec_enc_string(n) =~= spec_enc_string(n) + empty);
            lemma_dec_enc_string(n, empty);
        },
        ServerBoundView::ConnectionRequest(d, k) => {
            assert(spec_enc_server(v) =~= spec_u32_to_le_bytes(1) + (spec_enc_desc(d)
                + spec_enc_key(k)));
            lemma_dec_enc_u32(1, spec_enc_desc(d) + spec_enc_key(k));
            lemma_dec_enc_desc(d, spec_enc_key(k));
            assert(spec_enc_key(k) =~= spec_enc_key(k) + empty);
            lemma_dec_enc_key(k, empty);
        },
        ServerBoundView::ConnectionResponse(d, k) => {
            assert(spec_enc_server(v) =~= spec_u32_to_le_bytes(2) + (spec_enc_desc(d)
                + spec_enc_key(k)));
            lemma_dec_enc_u32(2, spec_enc_desc(d) + spec_enc_key(k));
            lemma_dec_enc_desc(d, spec_enc_key(k));
            assert(spec_enc_key(k) =~= spec_enc_key(k) + empty);
            lemma_dec_enc_key(k, empty);
        },
        ServerBoundView::Message(d, e) => {
            assert(spec_enc_server(v) =~= spec_u32_to_le_bytes(3) + (spec_enc_desc(d)
                + spec_enc_envelope(e)));
            lemma_dec_enc_u32(3, spec_enc_desc(d) + spec_enc_envelope(e));
            lemma_dec_enc_desc(d, spec_enc_envelope(e));
            assert(spec_enc_envelope(e) =~= spec_enc_envelope(e) + empty);
            lemma_dec_enc_envelope(e, empty);
        },
    }
}

/// Law: one frame on the stream is consumed as 8 length bytes plus exactly
/// `length` payload bytes; reading the length and then that many bytes yields
/// the payload and leaves the rest of the stream untouched.
pub proof fn lemma_frame_consumption(payload: Seq<u8>, rest: Seq<u8>)
    requires
        payload.len() <= u64::MAX,
    ensures
        (spec_frame(payload) + rest).len() == 8 + payload.len() + rest.len(),
        spec_u64_from_le_bytes((spec_frame(payload) + rest).take(8)) == payload.len(),
        (spec_frame(payload) + rest).subrange(8, 8 + payload.len() as int) == payload,
        (spec_frame(payload) + rest).skip(8 + payload.len() as int) == rest,
{
    lemma_auto_spec_u64_to_from_le_bytes();
    let stream = spec_frame(payload) + rest;
    assert(stream.take(8) =~= spec_u64_to_le_bytes(payload.len() as u64));
    assert(stream.subrange(8, 8 + payload.len() as int) =~= payload);
    assert(stream.skip(8 + payload.len() as int) =~= rest);
}

// ---------------------------------------------------------------------------
// Executable decoders. Each one reads from `buf` at a cursor and agrees
// exactly with its specification-level counterpart on the bytes from the
// cursor on: it succeeds if and only if the spec decoder does, and returns
// the same value and the same remainder.
// ---------------------------------------------------------------------------

fn read_u32(buf: &Vec<u8>, pos: usize) -> (r: Result<(u32, usize), DecodeError>)
    requires
        pos <= buf@.len(),
    ensures
        r matches Ok((x, p)) ==> pos <= p <= buf@.len() && spec_dec_u32(buf@.skip(pos as int))
            == Some((x, buf@.skip(p as int))),
        r is Err ==> spec_dec_u32(buf@.skip(pos as int)) is None,
{
    if buf.len() - pos >= 4 {
        let s = slice_subrange(buf.as_slice(), pos, pos + 4);
        let x = u32_from_le_bytes(s);
        proof {
            assert(buf@.skip(pos as int).take(4) =~= buf@.subrange(pos as int, pos as int + 4));
            assert(buf@.skip(pos as int).skip(4) =~= buf@.skip(pos as int + 4));
        }
        Ok((x, pos + 4))
    } else {
        Err(DecodeError)
    }
}

fn read_u64(buf: &Vec<u8>, pos: usize) -> (r: Result<(u64, usize), DecodeError>)
    requires
        pos <= buf@.len(),
    ensures
        r matches Ok((x, p)) ==> pos <= p <= buf@.len() && spec_dec_u64(buf@.skip(pos as int))
            == Some((x, buf@.skip(p as int))),
        r is Err ==> spec_dec_u64(buf@.skip(pos as int)) is None,
{
    if buf.len() - pos >= 8 {
        let s = slice_subrange(buf.as_slice(), pos, pos + 8);
        let x = u64_from_le_bytes(s);
        proof {
            assert(buf@.skip(pos as int).take(8) =~= buf@.subrange(pos as int, pos as int + 8));
            assert(buf@.skip(pos as int).skip(8) =~= buf@.skip(pos as int + 8));
        }
        Ok((x, pos + 8))
    } else {
        Err(DecodeError)
    }
}

fn read_u128(buf: &Vec<u8>, pos: usize) -> (r: Result<(u128, usize), DecodeError>)
    requires
        pos <= buf@.len(),
    ensures
        r matches Ok((x, p)) ==> pos <= p <= buf@.len() && spec_dec_u128(buf@.skip(pos as int))
            == Some((x, buf@.skip(p as int))),
        r is Err ==> spec_dec_u128(buf@.skip(pos as int)) is None,
{
    if buf.len() - pos >= 16 {
        let s = slice_subrange(buf.as_slice(), pos, pos + 16);
        let x = u128_from_le_bytes(s);
        proof {
            assert(buf@.skip(pos as int).take(16) =~= buf@.subrange(pos as int, pos as int + 16));
            assert(buf@.skip(pos as int).skip(16) =~= buf@.skip(pos as int + 16));
        }
        Ok((x, pos + 16))
    } else {
        Err(DecodeError)
    }
}

fn read_bytes(buf: &Vec<u8>, pos: usize) -> (r: Result<(Vec<u8>, usize), DecodeError>)
    requires
        pos <= buf@.len(),
    ensures
        r matches Ok((v, p)) ==> pos <= p <= buf@.len() && spec_dec_bytes(buf@.skip(pos as int))
            == Some((v@, buf@.skip(p as int))),
        r is Err ==> spec_dec_bytes(buf@.skip(pos as int)) is None,
{
    let (n, p) = match read_u64(buf, pos) {
        Ok(t) => t,
        Err(e) => {
            return Err(e);
        },
    };
    if n <= (buf.len() - p) as u64 {
        let end = p + (n as usize);
        let v = slice_to_vec(slice_subrange(buf.as_slice(), p, end));
        proof {
            assert(buf@.skip(p as int).take(n as int) =~= buf@.subrange(p as int, end as int));
            assert(buf@.skip(p as int).skip(n as int) =~= buf@.skip(end as int));
        }
        Ok((v, end))
    } else {
        Err(DecodeError)
    }
}

/// Relies on `String::from_utf8`: it succeeds exactly on valid UTF-8 input,
/// and returns the string whose characters those bytes encode.
#[verifier::external_body]
pub(crate) fn bytes_to_string(v: Vec<u8>) -> (r: Option<String>)
    ensures
        r matches Some(s) ==> valid_utf8(v@) && s@ == decode_utf8(v@),
        r is None ==> !valid_utf8(v@),
{
    match String::from_utf8(v) {
        Ok(s) => Some(s),
        Err(_) => None,
    }
}

fn read_string(buf: &Vec<u8>, pos: usize) -> (r: Result<(String, usize), DecodeError>)
    requires
        pos <= buf@.len(),
    ensures
        r matches Ok((s, p)) ==> pos <= p <= buf@.len() && spec_dec_string(buf@.skip(pos as int))
            == Some((s@, buf@.skip(p as int))),
        r is Err ==> spec_dec_string(buf@.skip(pos as int)) is None,
{
    let (v, p) = match read_bytes(buf, pos) {
        Ok(t) => t,
        Err(e) => {
            return Err(e);
        },
    };
    match bytes_to_string(v) {
        Some(s) => Ok((s, p)),
        None => Err(DecodeError),
    }
}

fn read_desc(buf: &Vec<u8>, pos: usize) -> (r: Result<(PeerDescription, usize), DecodeError>)
    requires
        pos <= buf@.len(),
    ensures
        r matches Ok((d, p)) ==> pos <= p <= buf@.len() && spec_dec_desc(buf@.skip(pos as int))
            == Some((d@, buf@.skip(p as int))),
        r is Err ==> spec_dec_desc(buf@.skip(pos as int)) is None,
{
    let (name, p) = match read_string(buf, pos) {
        Ok(t) => t,
        Err(e) => {
            return Err(e);
        },
    };
    let (id, p2) = match read_u128(buf, p) {
        Ok(t) => t,
        Err(e) => {
            return Err(e);
        },
    };
    Ok((PeerDescription { name, id }, p2))
}

fn read_key(buf: &Vec<u8>, pos: usize) -> (r: Result<(PeerPublicKey, usize), DecodeError>)
    requires
        pos <= buf@.len(),
    ensures
        r matches Ok((k, p)) ==> pos <= p <= buf@.len() && spec_dec_key(buf@.skip(pos as int))
            == Some((k@, buf@.skip(p as int))),
        r is Err ==> spec_dec_key(buf@.skip(pos as int)) is None,
{
    let (modulus, p) = match read_bytes(buf, pos) {
        Ok(t) => t,
        Err(e) => {
            return Err(e);
        },
    };
    let (exponent, p2) = match read_bytes(buf, p) {
        Ok(t) => t,
        Err(e) => {
            return Err(e);
        },
    };
    Ok((PeerPublicKey { modulus, exponent }, p2))
}

fn read_envelope(buf: &Vec<u8>, pos: usize) -> (r: Result<(Envelope, usize), DecodeError>)
    requires
        pos <= buf@.len(),
    ensures
        r matches Ok((e, p)) ==> pos <= p <= buf@.len() && spec_dec_envelope(buf@.skip(pos as int))
            == Some((e@, buf@.skip(p as int))),
        r is Err ==> spec_dec_envelope(buf@.skip(pos as int)) is None,
{
    let (encrypted_key, p) = match read_bytes(buf, pos) {
        Ok(t) => t,
        Err(e) => {
            return Err(e);
        },
    };
    let (nonce, p2) = match read_bytes(buf, p) {
        Ok(t) => t,
        Err(e) => {
            return Err(e);
        },
    };
    let (ciphertext, p3) = match read_bytes(buf, p2) {
        Ok(t) => t,
        Err(e) => {
            return Err(e);
        },
    };
    Ok((Envelope { encrypted_key, nonce, ciphertext }, p3))
}

fn read_desc_list(buf: &Vec<u8>, pos: usize) -> (r: Result<
    (Vec<PeerDescription>, usize),
    DecodeError,
>)
    requires
        pos <= buf@.len(),
    ensures
        r matches Ok((l, p)) ==> pos <= p <= buf@.len() && spec_dec_desc_list(
            buf@.skip(pos as int),
        ) == Some((l@.map_values(|d: PeerDescription| d@), buf@.skip(p as int))),
        r is Err ==> spec_dec_desc_list(buf@.skip(pos as int)) is None,
{
    let (n, p0) = match read_u64(buf, pos) {
        Ok(t) => t,
        Err(e) => {
            return Err(e);
        },
    };
    let mut acc: Vec<PeerDescription> = Vec::new();
    let mut p: usize = p0;
    let mut i: u64 = 0;
    proof {
        assert(acc@.map_values(|d: PeerDescription| d@) =~= Seq::<DescView>::empty());
    }
    while i < n
        invariant
            i <= n,
            p0 <= p <= buf@.len(),
            pos <= buf@.len(),
            spec_dec_desc_list(buf@.skip(pos as int)) == spec_dec_descs(
                buf@.skip(p0 as int),
                n as nat,
            ),
            spec_dec_descs(buf@.skip(p0 as int), n as nat) == match spec_dec_descs(
                buf@.skip(p as int),
                (n - i) as nat,
            ) {
                Some((l, rem)) => Some(
                    (acc@.map_values(|d: PeerDescription| d@) + l, rem),
                ),
                None => None,
            },
        decreases n - i,
    {
        let ghost acc_views = acc@.map_values(|d: PeerDescription| d@);
        let (d, p2) = match read_desc(buf, p) {
            Ok(t) => t,
            Err(e) => {
                proof {
                    assert(spec_dec_descs(buf@.skip(p as int), (n - i) as nat) is None);
                }
                return Err(e);
            },
        };
        acc.push(d);
        proof {
            assert(acc@.map_values(|dd: PeerDescription| dd@) =~= acc_views.push(d@));
            assert(spec_dec_descs(buf@.skip(p as int), (n - i) as nat) == match spec_dec_descs(
                buf@.skip(p2 as int),
                (n - i - 1) as nat,
            ) {
                Some((l, rem)) => Some((seq![d@] + l, rem)),
                None => None,
            });
            if spec_dec_descs(buf@.skip(p2 as int), (n - i - 1) as nat) is Some {
                let (l, rem) = spec_dec_descs(buf@.skip(p2 as int), (n - i - 1) as nat)->Some_0;
                assert(acc_views + (seq![d@] + l) =~= acc_views.push(d@) + l);
            }
        }
        p = p2;
        i = i + 1;
    }
    proof {
        assert(spec_dec_descs(buf@.skip(p as int), 0) == Some(
            (Seq::<DescView>::empty(), buf@.skip(p as int)),
        ));
        assert(acc@.map_values(|d: PeerDescription| d@) + Seq::<DescView>::empty()
            =~= acc@.map_values(|d: PeerDescription| d@));
    }
    Ok((acc, p))
}

/// Deserialize one client-bound payload. Succeeds exactly when the whole
/// buffer is the encoding of one message, and then returns that message.
pub fn decode_client_bound(buf: &Vec<u8>) -> (r: Result<ClientBoundMessage, DecodeError>)
    ensures
        r matches Ok(m) ==> spec_dec_client(buf@) == Some(m@),
        r is Err ==> spec_dec_client(buf@) is None,
{
    proof {
        assert(buf@.skip(0) =~= buf@);
    }
    let (tag, p) = match read_u32(buf, 0) {
        Ok(t) => t,
        Err(e) => {
            return Err(e);
        },
    };
    if tag == 0 {
        let (id, p2) = match read_u128(buf, p) {
            Ok(t) => t,
            Err(e) => {
                return Err(e);
            },
        };
        if p2 == buf.len() {
            Ok(ClientBoundMessage::SetUuid(id))
        } else {
            Err(DecodeError)
        }
    } else if tag == 1 {
        let (l, p2) = match read_desc_list(buf, p) {
            Ok(t) => t,
            Err(e) => {
                return Err(e);
            },
        };
        if p2 == buf.len() {
            Ok(ClientBoundMessage::ClientList(l))
        } else {
            Err(DecodeError)
        }
    } else if tag == 2 {
        let (d, p2) = match read_desc(buf, p) {
            Ok(t) => t,
            Err(e) => {
                return Err(e);
            },
        };
        if p2 == buf.len() {
            Ok(ClientBoundMessage::NewClient(d))
        } else {
            Err(DecodeError)
        }
    } else if tag == 3 {
        let (id, p2) = match read_u128(buf, p) {
            Ok(t) => t,
            Err(e) => {
                return Err(e);
            },
        };
        if p2 == buf.len() {
            Ok(ClientBoundMessage::ClientDisconnected(id))
        } else {
            Err(DecodeError)
        }
    } else if tag == 4 {
        let (d, p2) = match read_desc(buf, p) {
            Ok(t) => t,
            Err(e) => {
                return Err(e);
            },
        };
        let (k, p3) = match read_key(buf, p2) {
            Ok(t) => t,
            Err(e) => {
                return Err(e);
            },
        };
        if p3 == buf.len() {
            Ok(ClientBoundMessage::ConnectionRequest(d, k))
        } else {
            Err(DecodeError)
        }
    } else if tag == 5 {
        let (d, p2) = match read_desc(buf, p) {
            Ok(t) => t,
            Err(e) => {
                return Err(e);
            },
        };
        let (k, p3) = match read_key(buf, p2) {
            Ok(t) => t,
            Err(e) => {
                return Err(e);
            },
        };
        if p3 == buf.len() {
            Ok(ClientBoundMessage::ConnectionResponse(d, k))
        } else {
            Err(DecodeError)
        }
    } else if tag == 6 {
        let (d, p2) = match read_desc(buf, p) {
            Ok(t) => t,
            Err(e) => {
                return Err(e);
            },
        };
        let (e, p3) = match read_envelope(buf, p2) {
            Ok(t) => t,
            Err(err) => {
                return Err(err);
            },
        };
        if p3 == buf.len() {
            Ok(ClientBoundMessage::Message(d, e))
        } else {
            Err(DecodeError)
        }
    } else {
        Err(DecodeError)
    }
}

/// Deserialize one server-bound payload. Succeeds exactly when the whole
/// buffer is the encoding of one message, and then returns that message.
pub fn decode_server_bound(buf: &Vec<u8>) -> (r: Result<ServerBoundMessage, DecodeError>)
    ensures
        r matches Ok(m) ==> spec_dec_server(buf@) == Some(m@),
        r is Err ==> spec_dec_server(buf@) is None,
{
    proof {
        assert(buf@.skip(0) =~= buf@);
    }
    let (tag, p) = match read_u32(buf, 0) {
        Ok(t) => t,
        Err(e) => {
            return Err(e);
        },
    };
    if tag == 0 {
        let (name, p2) = match read_string(buf, p) {
            Ok(t) => t,
            Err(e) => {
                return Err(e);
            },
        };
        if p2 == buf.len() {
            Ok(ServerBoundMessage::Advertise(name))
        } else {
            Err(DecodeError)
        }
    } else if tag == 1 {
        let (d, p2) = match read_desc(buf, p) {
            Ok(t) => t,
            Err(e) => {
                return Err(e);
            },
        };
        let (k, p3) = match read_key(buf, p2) {
            Ok(t) => t,
            Err(e) => {
                return Err(e);
            },
        };
        if p3 == buf.len() {
            Ok(ServerBoundMessage::ConnectionRequest(d, k))
        } else {
            Err(DecodeError)
        }
    } else if tag == 2 {
        let (d, p2) = match read_desc(buf, p) {
            Ok(t) => t,
            Err(e) => {
                return Err(e);
            },
        };
        let (k, p3) = match read_key(buf, p2) {
            Ok(t) => t,
            Err(e) => {
                return Err(e);
            },
        };
        if p3 == buf.len() {
            Ok(ServerBoundMessage::ConnectionResponse(d, k))
        } else {
            Err(DecodeError)
        }
    } else if tag == 3 {
        let (d, p2) = match read_desc(buf, p) {
            Ok(t) => t,
            Err(e) => {
                return Err(e);
            },
        };
        let (e, p3) = match read_envelope(buf, p2) {
            Ok(t) => t,
            Err(err) => {
                return Err(err);
            },
        };
        if p3 == buf.len() {
            Ok(ServerBoundMessage::Message(d, e))
        } else {
            Err(DecodeError)
        }
    } else {
        Err(DecodeError)
    }
}

} // verus!
