//! The UDP packet format: a version byte followed by a compact binary
//! payload (postcard encoding) of either a quote or a keep-alive ping.
//!
//! Payload layout: the packet kind as a varint (`0` quote, `1` ping); for a
//! quote then the ticker (varint byte length, UTF-8 bytes), the price
//! (zig-zag varint), the volume (varint) and the timestamp (varint).

use vstd::prelude::*;
use vstd::utf8::encode_utf8;
use vstd::slice::slice_subrange;

verus! {

/// The version byte of the current packet format.
pub const WIRE_VERSION: u8 = 1;

/// Packet kind of a quote.
pub const KIND_QUOTE: u32 = 0;

/// Packet kind of a ping.
pub const KIND_PING: u32 = 1;

/// A quote of one ticker. The price is in hundredths of the currency unit.
#[derive(Debug, Clone)]
pub struct StockQuote {
    pub ticker: String,
    pub price: i64,
    pub volume: u32,
    pub timestamp_ms: u128,
}

/// A quote as plain values.
pub struct QuoteModel {
    pub ticker: Seq<char>,
    pub price: i64,
    pub volume: u32,
    pub timestamp_ms: u128,
}

impl View for StockQuote {
    type V = QuoteModel;

    open spec fn view(&self) -> QuoteModel {
        QuoteModel {
            ticker: self.ticker@,
            price: self.price,
            volume: self.volume,
            timestamp_ms: self.timestamp_ms,
        }
    }
}

impl StockQuote {
    /// A copy of the quote.
    pub fn clone_quote(&self) -> (r: StockQuote)
        ensures
            r@ == self@,
    {
        StockQuote {
            ticker: self.ticker.clone(),
            price: self.price,
            volume: self.volume,
            timestamp_ms: self.timestamp_ms,
        }
    }
}

impl PartialEq for StockQuote {
    fn eq(&self, o: &StockQuote) -> (r: bool)
        ensures
            r == (self@ == o@),
    {
        self.ticker == o.ticker && self.price == o.price && self.volume == o.volume
            && self.timestamp_ms == o.timestamp_ms
    }
}

impl vstd::std_specs::cmp::PartialEqSpecImpl for StockQuote {
    open spec fn obeys_eq_spec() -> bool {
        true
    }

    open spec fn eq_spec(&self, o: &StockQuote) -> bool {
        self@ == o@
    }
}

/// A UDP packet of the current version.
#[derive(Debug, Clone)]
pub enum UdpPacketV1 {
    /// A quote, server to client.
    Quote(StockQuote),
    /// A keep-alive ping, client to server.
    Ping,
}

/// A packet as plain values.
pub enum PacketModel {
    Quote(QuoteModel),
    Ping,
}

impl View for UdpPacketV1 {
    type V = PacketModel;

    open spec fn view(&self) -> PacketModel {
        match self {
            UdpPacketV1::Quote(q) => PacketModel::Quote(q@),
            UdpPacketV1::Ping => PacketModel::Ping,
        }
    }
}

impl PartialEq for UdpPacketV1 {
    fn eq(&self, o: &UdpPacketV1) -> (r: bool)
        ensures
            r == (self@ == o@),
    {
        match (self, o) {
            (UdpPacketV1::Quote(a), UdpPacketV1::Quote(b)) => a == b,
            (UdpPacketV1::Ping, UdpPacketV1::Ping) => true,
            _ => false,
        }
    }
}

impl vstd::std_specs::cmp::PartialEqSpecImpl for UdpPacketV1 {
    open spec fn obeys_eq_spec() -> bool {
        true
    }

    open spec fn eq_spec(&self, o: &UdpPacketV1) -> bool {
        self@ == o@
    }
}

#[verifier::external_type_specification]
#[verifier::external_body]
pub struct ExPostcardError(postcard::Error);

/// Why a datagram could not be decoded.
#[derive(Debug)]
pub enum WireError {
    /// The datagram is empty.
    PacketTooShort,
    /// The version byte is not `WIRE_VERSION`.
    UnsupportedWireVersion(u8),
    /// The payload is not a valid encoding.
    Postcard(postcard::Error),
    /// The payload names a packet kind that this version does not have.
    UnknownPacketKind(u32),
}

/// LEB128 varint: seven bits per byte, least significant group first, the
/// high bit set on every byte but the last.
pub open spec fn varint(n: nat) -> Seq<u8>
    decreases n,
{
    if n < 128 {
        seq![n as u8]
    } else {
        seq![(n % 128 + 128) as u8] + varint(n / 128)
    }
}

/// Zig-zag mapping of a signed integer to an unsigned one.
pub open spec fn zigzag(i: int) -> nat {
    if i >= 0 {
        (2 * i) as nat
    } else {
        (-2 * i - 1) as nat
    }
}

/// The encoding of a text: its UTF-8 byte length, then the bytes.
pub open spec fn text_bytes(s: Seq<char>) -> Seq<u8> {
    varint(encode_utf8(s).len()) + encode_utf8(s)
}

/// The encoding of the fields of a quote, in order.
pub open spec fn quote_bytes(q: QuoteModel) -> Seq<u8> {
    text_bytes(q.ticker) + varint(zigzag(q.price as int)) + varint(q.volume as nat) + varint(
        q.timestamp_ms as nat,
    )
}

/// The payload of a packet.
pub open spec fn payload_bytes(p: PacketModel) -> Seq<u8> {
    match p {
        PacketModel::Quote(q) => varint(KIND_QUOTE as nat) + quote_bytes(q),
        PacketModel::Ping => varint(KIND_PING as nat),
    }
}

/// The datagram of a packet: version byte, then payload.
pub open spec fn packet_bytes(p: PacketModel) -> Seq<u8> {
    seq![WIRE_VERSION] + payload_bytes(p)
}

/// Relies on `postcard::to_allocvec` of a `u32`: a varint. The allocating
/// output never reports a full buffer, so this never fails.
#[verifier::external_body]
fn encode_kind(kind: u32) -> (r: Result<Vec<u8>, postcard::Error>)
    ensures
        r is Ok,
        r matches Ok(b) ==> b@ == varint(kind as nat),
{
    postcard::to_allocvec(&kind)
}

/// Relies on `postcard::to_allocvec` of the tuple `(&str, i64, u32, u128)`:
/// the fields one after another, the text length-prefixed, the signed
/// integer zig-zag mapped, each integer a varint. The allocating output
/// never reports a full buffer, so this never fails.
#[verifier::external_body]
fn encode_quote_fields(q: &StockQuote) -> (r: Result<Vec<u8>, postcard::Error>)
    ensures
        r is Ok,
        r matches Ok(b) ==> b@ == quote_bytes(q@),
{
    postcard::to_allocvec(&(q.ticker.as_str(), q.price, q.volume, q.timestamp_ms))
}

/// Relies on `postcard::take_from_bytes::<u32>`: reads a varint and hands
/// back the bytes after it; with no byte to read it fails.
#[verifier::external_body]
fn take_kind(buf: &[u8]) -> (r: Result<(u32, &[u8]), postcard::Error>)
    ensures
        buf@.len() == 0 ==> r is Err,
        r is Ok || !exists|k: u32, rest: Seq<u8>| buf@ == #[trigger] (varint(k as nat) + rest),
        r matches Ok((x, tail)) ==> forall|k: u32, rest: Seq<u8>|
            buf@ == #[trigger] (varint(k as nat) + rest) ==> x == k && tail@ == rest,
{
    postcard::take_from_bytes::<u32>(buf)
}

/// Relies on `postcard::take_from_bytes::<(String, i64, u32, u128)>`: reads
/// the fields of a quote as `to_allocvec` writes them and hands back the
/// bytes after them.
#[verifier::external_body]
fn take_quote_fields(buf: &[u8]) -> (r: Result<(StockQuote, &[u8]), postcard::Error>)
    ensures
        r is Ok || !exists|q: QuoteModel, rest: Seq<u8>| buf@ == #[trigger] (quote_bytes(q) + rest),
        r matches Ok((x, tail)) ==> forall|q: QuoteModel, rest: Seq<u8>|
            buf@ == #[trigger] (quote_bytes(q) + rest) ==> x@ == q && tail@ == rest,
{
    match postcard::take_from_bytes::<(String, i64, u32, u128)>(buf) {
        Ok(((ticker, price, volume, timestamp_ms), rest)) => Ok(
            (StockQuote { ticker, price, volume, timestamp_ms }, rest),
        ),
        Err(e) => Err(e),
    }
}

/// Encodes a packet as a datagram: `WIRE_VERSION`, then the payload.
pub fn encode_v1(pkt: &UdpPacketV1) -> (r: Result<Vec<u8>, WireError>)
    ensures
        r matches Ok(b) && b@ == packet_bytes(pkt@),
{
    let mut out: Vec<u8> = Vec::new();
    out.push(WIRE_VERSION);
    match pkt {
        UdpPacketV1::Quote(q) => {
            let kind = match encode_kind(KIND_QUOTE) {
                Ok(b) => b,
                Err(e) => return Err(WireError::Postcard(e)),
            };
            let fields = match encode_quote_fields(q) {
                Ok(b) => b,
                Err(e) => return Err(WireError::Postcard(e)),
            };
            append_bytes(&mut out, &kind);
            append_bytes(&mut out, &fields);
            assert(out@ =~= packet_bytes(pkt@));
        },
        UdpPacketV1::Ping => {
            let kind = match encode_kind(KIND_PING) {
                Ok(b) => b,
                Err(e) => return Err(WireError::Postcard(e)),
            };
            append_bytes(&mut out, &kind);
            assert(out@ =~= packet_bytes(pkt@));
        },
    }
    Ok(out)
}

/// Appends the bytes of `b` to `out`.
fn append_bytes(out: &mut Vec<u8>, b: &Vec<u8>)
    ensures
        final(out)@ == old(out)@ + b@,
{
    let ghost start = out@;
    let mut i: usize = 0;
    while i < b.len()
        invariant
            i <= b.len(),
            out@ == start + b@.take(i as int),
        decreases b.len() - i,
    {
        out.push(b[i]);
        assert(b@.take(i + 1) =~= b@.take(i as int).push(b@[i as int]));
        assert(start + b@.take(i + 1) =~= (start + b@.take(i as int)).push(b@[i as int]));
        i += 1;
    }
    assert(b@.take(b.len() as int) =~= b@);
}

/// Decodes a datagram. An empty datagram is too short; a first byte other
/// than `WIRE_VERSION` is an unsupported version; an empty payload is a
/// codec error and a packet kind other than quote and ping is an unknown
/// kind; a datagram that starts with the encoding of a packet decodes to
/// that packet.
pub fn decode(buf: &[u8]) -> (r: Result<UdpPacketV1, WireError>)
    ensures
        buf@.len() == 0 <==> r matches Err(WireError::PacketTooShort),
        buf@.len() > 0 && buf@[0] != WIRE_VERSION <==> r matches Err(
            WireError::UnsupportedWireVersion(v),
        ),
        r matches Err(WireError::UnsupportedWireVersion(v)) ==> v == buf@[0],
        r is Ok ==> buf@[0] == WIRE_VERSION,
        buf@ == seq![WIRE_VERSION] ==> r matches Err(WireError::Postcard(_)),
        forall|k: u32, rest: Seq<u8>|
            k != KIND_QUOTE && k != KIND_PING && buf@ == #[trigger] (seq![WIRE_VERSION] + (varint(
                k as nat,
            ) + rest)) ==> (r matches Err(WireError::UnknownPacketKind(x)) && x == k),
        forall|p: PacketModel, rest: Seq<u8>|
            buf@ == #[trigger] (packet_bytes(p) + rest) ==> (r matches Ok(x) && x@ == p),
{
    if buf.len() == 0 {
        return Err(WireError::PacketTooShort);
    }
    let ver = buf[0];
    if ver != WIRE_VERSION {
        return Err(WireError::UnsupportedWireVersion(ver));
    }
    let payload = slice_subrange(buf, 1, buf.len());
    assert(payload@ =~= buf@.skip(1));
    assert forall|k: u32, rest: Seq<u8>| buf@ == #[trigger] (seq![WIRE_VERSION] + (varint(k as nat)
        + rest)) implies payload@ == varint(k as nat) + rest by {
        assert((seq![WIRE_VERSION] + (varint(k as nat) + rest)).skip(1) =~= varint(k as nat) + rest);
    }
    assert forall|p: PacketModel, rest: Seq<u8>| buf@ == #[trigger] (packet_bytes(p) + rest)
        implies payload@ == payload_bytes(p) + rest by {
        assert(payload@ =~= buf@.skip(1));
        assert((packet_bytes(p) + rest).skip(1) =~= payload_bytes(p) + rest);
    }
    let (kind, after) = match take_kind(payload) {
        Ok(x) => x,
        Err(e) => {
            proof {
                assert forall|p: PacketModel, rest: Seq<u8>| buf@ != #[trigger] (packet_bytes(p)
                    + rest) by {
                    if buf@ == packet_bytes(p) + rest {
                        match p {
                            PacketModel::Quote(q) => {
                                assert(payload@ =~= varint(KIND_QUOTE as nat) + (quote_bytes(q)
                                    + rest));
                            },
                            PacketModel::Ping => {
                                assert(payload@ =~= varint(KIND_PING as nat) + rest);
                            },
                        }
                    }
                }
            }
            return Err(WireError::Postcard(e));
        },
    };
    if kind == KIND_QUOTE {
        match take_quote_fields(after) {
            Ok((q, _)) => {
                proof {
                    assert forall|p: PacketModel, rest: Seq<u8>| buf@ == #[trigger] (packet_bytes(
                        p,
                    ) + rest) implies UdpPacketV1::Quote(q)@ == p by {
                        match p {
                            PacketModel::Quote(m) => {
                                assert(payload@ =~= varint(KIND_QUOTE as nat) + (quote_bytes(m)
                                    + rest));
                                assert(after@ == quote_bytes(m) + rest);
                            },
                            PacketModel::Ping => {
                                assert(payload@ =~= varint(KIND_PING as nat) + rest);
                            },
                        }
                    }
                }
                Ok(UdpPacketV1::Quote(q))
            },
            Err(e) => {
                proof {
                    assert forall|p: PacketModel, rest: Seq<u8>| buf@ != #[trigger] (packet_bytes(
                        p,
                    ) + rest) by {
                        if buf@ == packet_bytes(p) + rest {
                            match p {
                                PacketModel::Quote(m) => {
                                    assert(payload@ =~= varint(KIND_QUOTE as nat) + (quote_bytes(
                                        m,
                                    ) + rest));
                                    assert(after@ == quote_bytes(m) + rest);
                                },
                                PacketModel::Ping => {
                                    assert(payload@ =~= varint(KIND_PING as nat) + rest);
                                },
                            }
                        }
                    }
                }
                Err(WireError::Postcard(e))
            },
        }
    } else if kind == KIND_PING {
        proof {
            assert forall|p: PacketModel, rest: Seq<u8>| buf@ == #[trigger] (packet_bytes(p)
                + rest) implies UdpPacketV1::Ping@ == p by {
                match p {
                    PacketModel::Quote(m) => {
                        assert(payload@ =~= varint(KIND_QUOTE as nat) + (quote_bytes(m) + rest));
                    },
                    PacketModel::Ping => {},
                }
            }
        }
        Ok(UdpPacketV1::Ping)
    } else {
        proof {
            assert forall|p: PacketModel, rest: Seq<u8>| buf@ != #[trigger] (packet_bytes(p)
                + rest) by {
                if buf@ == packet_bytes(p) + rest {
                    match p {
                        PacketModel::Quote(m) => {
                            assert(payload@ =~= varint(KIND_QUOTE as nat) + (quote_bytes(m)
                                + rest));
                        },
                        PacketModel::Ping => {
                            assert(payload@ =~= varint(KIND_PING as nat) + rest);
                        },
                    }
                }
            }
        }
        Err(WireError::UnknownPacketKind(kind))
    }
}

/// Varints are prefix-free: a varint followed by anything determines both.
pub proof fn lemma_varint_unambiguous(a: nat, r1: Seq<u8>, b: nat, r2: Seq<u8>)
    requires
        varint(a) + r1 == varint(b) + r2,
    ensures
        a == b,
        r1 == r2,
    decreases a,
{
    let x = varint(a) + r1;
    assert(x[0] == varint(a)[0]);
    assert(x[0] == varint(b)[0]);
    if a < 128 {
        if b >= 128 {
            assert(varint(b)[0] == (b % 128 + 128) as u8);
        }
        assert(x.skip(1) =~= r1);
        assert((varint(b) + r2).skip(1) =~= r2);
    } else {
        if b < 128 {
            assert(varint(a)[0] == (a % 128 + 128) as u8);
        }
        assert(varint(a)[0] == (a % 128 + 128) as u8);
        assert(varint(b)[0] == (b % 128 + 128) as u8);
        assert(a % 128 == b % 128);
        assert(x.skip(1) =~= varint(a / 128) + r1);
        assert((varint(b) + r2).skip(1) =~= varint(b / 128) + r2);
        lemma_varint_unambiguous(a / 128, r1, b / 128, r2);
        vstd::arithmetic::div_mod::lemma_fundamental_div_mod(a as int, 128);
        vstd::arithmetic::div_mod::lemma_fundamental_div_mod(b as int, 128);
    }
}

proof fn lemma_text_unambiguous(t1: Seq<char>, r1: Seq<u8>, t2: Seq<char>, r2: Seq<u8>)
    requires
        text_bytes(t1) + r1 == text_bytes(t2) + r2,
    ensures
        t1 == t2,
        r1 == r2,
{
    let e1 = encode_utf8(t1);
    let e2 = encode_utf8(t2);
    assert(text_bytes(t1) + r1 =~= varint(e1.len()) + (e1 + r1));
    assert(text_bytes(t2) + r2 =~= varint(e2.len()) + (e2 + r2));
    lemma_varint_unambiguous(e1.len(), e1 + r1, e2.len(), e2 + r2);
    assert((e1 + r1).take(e1.len() as int) =~= e1);
    assert((e2 + r2).take(e2.len() as int) =~= e2);
    assert((e1 + r1).skip(e1.len() as int) =~= r1);
    assert((e2 + r2).skip(e2.len() as int) =~= r2);
    vstd::utf8::encode_utf8_decode_utf8(t1);
    vstd::utf8::encode_utf8_decode_utf8(t2);
}

proof fn lemma_quote_unambiguous(q1: QuoteModel, r1: Seq<u8>, q2: QuoteModel, r2: Seq<u8>)
    requires
        quote_bytes(q1) + r1 == quote_bytes(q2) + r2,
    ensures
        q1 == q2,
        r1 == r2,
{
    let v1 = varint(q1.volume as nat);
    let v2 = varint(q2.volume as nat);
    let s1 = varint(q1.timestamp_ms as nat);
    let s2 = varint(q2.timestamp_ms as nat);
    let z1 = varint(zigzag(q1.price as int));
    let z2 = varint(zigzag(q2.price as int));
    assert(quote_bytes(q1) + r1 =~= text_bytes(q1.ticker) + (z1 + (v1 + (s1 + r1))));
    assert(quote_bytes(q2) + r2 =~= text_bytes(q2.ticker) + (z2 + (v2 + (s2 + r2))));
    lemma_text_unambiguous(q1.ticker, z1 + (v1 + (s1 + r1)), q2.ticker, z2 + (v2 + (s2 + r2)));
    lemma_varint_unambiguous(
        zigzag(q1.price as int),
        v1 + (s1 + r1),
        zigzag(q2.price as int),
        v2 + (s2 + r2),
    );
    lemma_varint_unambiguous(q1.volume as nat, s1 + r1, q2.volume as nat, s2 + r2);
    lemma_varint_unambiguous(q1.timestamp_ms as nat, r1, q2.timestamp_ms as nat, r2);
    assert(q1.price == q2.price);
}

/// The packet format is unambiguous: a datagram starts with the encoding
/// of at most one packet, and that encoding ends at one place.
pub proof fn lemma_packet_unambiguous(p1: PacketModel, r1: Seq<u8>, p2: PacketModel, r2: Seq<u8>)
    requires
        packet_bytes(p1) + r1 == packet_bytes(p2) + r2,
    ensures
        p1 == p2,
        r1 == r2,
{
    let x1 = payload_bytes(p1) + r1;
    let x2 = payload_bytes(p2) + r2;
    assert((packet_bytes(p1) + r1).skip(1) =~= x1);
    assert((packet_bytes(p2) + r2).skip(1) =~= x2);
    let (k1, t1) = match p1 {
        PacketModel::Quote(q) => (KIND_QUOTE as nat, quote_bytes(q) + r1),
        PacketModel::Ping => (KIND_PING as nat, r1),
    };
    let (k2, t2) = match p2 {
        PacketModel::Quote(q) => (KIND_QUOTE as nat, quote_bytes(q) + r2),
        PacketModel::Ping => (KIND_PING as nat, r2),
    };
    assert(x1 =~= varint(k1) + t1);
    assert(x2 =~= varint(k2) + t2);
    lemma_varint_unambiguous(k1, t1, k2, t2);
    match (p1, p2) {
        (PacketModel::Quote(q1), PacketModel::Quote(q2)) => {
            lemma_quote_unambiguous(q1, r1, q2, r2);
        },
        _ => {},
    }
}

/// The round trip of the codec: the datagram of a packet is the version
/// byte followed by a non-empty payload, and no other packet's encoding
/// starts it, so `decode` (whose contract maps `packet_bytes(p) + rest` to
/// `p`) gives back exactly the packet that `encode_v1` encoded. Changing
/// its first byte makes it a datagram `decode` refuses as an unsupported
/// version.
pub proof fn lemma_round_trip(p: PacketModel)
    ensures
        packet_bytes(p).len() >= 2,
        packet_bytes(p)[0] == WIRE_VERSION,
        forall|p2: PacketModel, rest: Seq<u8>|
            packet_bytes(p) == #[trigger] (packet_bytes(p2) + rest) ==> p2 == p && rest.len() == 0,
{
    assert forall|p2: PacketModel, rest: Seq<u8>|
        packet_bytes(p) == #[trigger] (packet_bytes(p2) + rest) implies p2 == p && rest.len()
        == 0 by {
        assert(packet_bytes(p) =~= packet_bytes(p) + Seq::<u8>::empty());
        lemma_packet_unambiguous(p, Seq::<u8>::empty(), p2, rest);
    }
    match p {
        PacketModel::Quote(q) => {
            assert(packet_bytes(p) =~= seq![WIRE_VERSION] + (varint(KIND_QUOTE as nat) + quote_bytes(q)));
        },
        PacketModel::Ping => {},
    }
}

} // verus!
