//! The datagram envelope.
//!
//! ```text
//! kind 0 Reliable   [0x00][Packet]        acked by kind 2, retransmitted until acked
//! kind 1 Unreliable [0x01][NetworkEvent]  fire and forget (ping/pong, car state)
//! kind 2 Ack        [0x02][u32 seq]       acknowledges the Reliable packet with that seq
//! kind 3 Greeting   [0x03][u32 257]       connectivity check, echoed by the host
//! ```
//!
//! A `Packet` is `[u64 len][payload][u32 seq][u8 resend][u64 sent_at]
//! [Option<u32> ordered_index][Option<Chunk> chunk]`.

use vstd::prelude::*;

use crate::bytes;
use crate::bytes::{put_blob, put_bytes, put_u16, put_u32, put_u64, Cursor};
use crate::error::Error;
use crate::le;

verus! {

broadcast use crate::le::group_widths;

/// One-byte envelope tag at the start of every datagram.
#[derive(Debug, Clone, Copy, PartialEq, Eq, Structural, PartialOrd, Ord)]
pub enum Kind {
    Reliable,
    Unreliable,
    Ack,
    Greeting,
}

impl Kind {
    /// The tag on the wire.
    pub open spec fn tag(self) -> u8 {
        match self {
            Kind::Reliable => 0,
            Kind::Unreliable => 1,
            Kind::Ack => 2,
            Kind::Greeting => 3,
        }
    }

    /// The kind with tag `v`, if there is one.
    pub open spec fn of_tag(v: u8) -> Option<Kind> {
        if v == 0 {
            Some(Kind::Reliable)
        } else if v == 1 {
            Some(Kind::Unreliable)
        } else if v == 2 {
            Some(Kind::Ack)
        } else if v == 3 {
            Some(Kind::Greeting)
        } else {
            None
        }
    }

    pub fn from_u8(v: u8) -> (r: Option<Kind>)
        ensures
            r == Kind::of_tag(v),
            forall|k: Kind| r == Some(k) <==> v == k.tag(),
    {
        match v {
            0 => Some(Kind::Reliable),
            1 => Some(Kind::Unreliable),
            2 => Some(Kind::Ack),
            3 => Some(Kind::Greeting),
            _ => None,
        }
    }

    pub fn to_u8(self) -> (v: u8)
        ensures
            v == self.tag(),
    {
        match self {
            Kind::Reliable => 0,
            Kind::Unreliable => 1,
            Kind::Ack => 2,
            Kind::Greeting => 3,
        }
    }
}

/// The value both sides send and echo in a Greeting: `03 01 01 00 00`.
pub const GREETING_ID: u32 = 0x0000_0101;

/// Largest Reliable payload sent in one datagram; larger events are chunked.
pub const CHUNK_SIZE: usize = 450;

/// Fragment header carried by every piece of a payload larger than
/// [`CHUNK_SIZE`].
#[derive(Debug, Clone, Copy, PartialEq, Eq, Structural)]
pub struct Chunk {
    /// Identifies the large event; all of its pieces share this id.
    pub id: u32,
    /// Byte offset of this piece within the reassembled payload.
    pub offset: u32,
    /// Length of the reassembled payload.
    pub total_size: u32,
    /// Number of pieces.
    pub count: u16,
}

/// A Reliable datagram: one `NetworkEvent` (or a chunk of one) plus the
/// bookkeeping that makes it reliable.
#[derive(Debug, Clone, PartialEq, Eq)]
pub struct Packet {
    pub payload: Vec<u8>,
    /// Per-sender sequence number, counting from 1. Acked by `Ack(seq)`.
    pub seq: u32,
    /// How many times this packet has been sent before; 0 on first send.
    pub resend: u8,
    /// Sender's clock, whole seconds since the Unix epoch.
    pub sent_at: u64,
    /// Position in the sender's ordered stream, when the event is ordered.
    pub ordered_index: Option<u32>,
    /// Present when this packet is one piece of a larger payload.
    pub chunk: Option<Chunk>,
}

/// A framed datagram.
#[derive(Debug, Clone, PartialEq, Eq)]
pub enum Frame {
    Reliable(Packet),
    /// A bare `NetworkEvent`.
    Unreliable(Vec<u8>),
    Ack(u32),
    Greeting(u32),
}

/// What a [`Packet`] holds.
#[verifier::ext_equal]
pub struct PacketView {
    pub payload: Seq<u8>,
    pub seq: u32,
    pub resend: u8,
    pub sent_at: u64,
    pub ordered_index: Option<u32>,
    pub chunk: Option<Chunk>,
}

/// What a [`Frame`] holds.
#[verifier::ext_equal]
pub enum FrameView {
    Reliable(PacketView),
    Unreliable(Seq<u8>),
    Ack(u32),
    Greeting(u32),
}

impl View for Packet {
    type V = PacketView;

    open spec fn view(&self) -> PacketView {
        PacketView {
            payload: self.payload@,
            seq: self.seq,
            resend: self.resend,
            sent_at: self.sent_at,
            ordered_index: self.ordered_index,
            chunk: self.chunk,
        }
    }
}

impl View for Frame {
    type V = FrameView;

    open spec fn view(&self) -> FrameView {
        match *self {
            Frame::Reliable(p) => FrameView::Reliable(p@),
            Frame::Unreliable(payload) => FrameView::Unreliable(payload@),
            Frame::Ack(seq) => FrameView::Ack(seq),
            Frame::Greeting(id) => FrameView::Greeting(id),
        }
    }
}

// ---------------------------------------------------------------------------
// The wire form
// ---------------------------------------------------------------------------

pub open spec fn ordered_bytes(o: Option<u32>) -> Seq<u8> {
    match o {
        Some(i) => seq![1u8] + le::u32_bytes(i),
        None => seq![0u8],
    }
}

pub open spec fn chunk_bytes(o: Option<Chunk>) -> Seq<u8> {
    match o {
        Some(c) => seq![1u8] + le::u32_bytes(c.id) + le::u32_bytes(c.offset)
            + le::u32_bytes(c.total_size) + le::u16_bytes(c.count),
        None => seq![0u8],
    }
}

/// The body of a Reliable datagram.
pub open spec fn packet_bytes(p: PacketView) -> Seq<u8> {
    bytes::blob_bytes(p.payload) + le::u32_bytes(p.seq) + seq![p.resend] + le::u64_bytes(
        p.sent_at,
    ) + ordered_bytes(p.ordered_index) + chunk_bytes(p.chunk)
}

/// A datagram on the wire.
pub open spec fn frame_bytes(f: FrameView) -> Seq<u8> {
    match f {
        FrameView::Reliable(p) => seq![0u8] + packet_bytes(p),
        FrameView::Unreliable(payload) => seq![1u8] + payload,
        FrameView::Ack(seq) => seq![2u8] + le::u32_bytes(seq),
        FrameView::Greeting(id) => seq![3u8] + le::u32_bytes(id),
    }
}

pub open spec fn read_ordered(b: Seq<u8>, at: int) -> Result<(Option<u32>, int), Error> {
    match bytes::read_option_tag(b, at) {
        Err(e) => Err(e),
        Ok((false, p)) => Ok((None, p)),
        Ok((true, p)) => match bytes::read_u32(b, p) {
            Err(e) => Err(e),
            Ok((i, q)) => Ok((Some(i), q)),
        },
    }
}

pub open spec fn read_chunk(b: Seq<u8>, at: int) -> Result<(Option<Chunk>, int), Error> {
    match bytes::read_option_tag(b, at) {
        Err(e) => Err(e),
        Ok((false, p)) => Ok((None, p)),
        Ok((true, p)) => match bytes::read_u32(b, p) {
            Err(e) => Err(e),
            Ok((id, p)) => match bytes::read_u32(b, p) {
                Err(e) => Err(e),
                Ok((offset, p)) => match bytes::read_u32(b, p) {
                    Err(e) => Err(e),
                    Ok((total_size, p)) => match bytes::read_u16(b, p) {
                        Err(e) => Err(e),
                        Ok((count, p)) => Ok((Some(Chunk { id, offset, total_size, count }), p)),
                    },
                },
            },
        },
    }
}

pub open spec fn read_packet(b: Seq<u8>, at: int) -> Result<(PacketView, int), Error> {
    match bytes::read_blob(b, at, "payload") {
        Err(e) => Err(e),
        Ok((payload, p)) => match bytes::read_u32(b, p) {
            Err(e) => Err(e),
            Ok((seq, p)) => match bytes::read_u8(b, p) {
                Err(e) => Err(e),
                Ok((resend, p)) => match bytes::read_u64(b, p) {
                    Err(e) => Err(e),
                    Ok((sent_at, p)) => match read_ordered(b, p) {
                        Err(e) => Err(e),
                        Ok((ordered_index, p)) => match read_chunk(b, p) {
                            Err(e) => Err(e),
                            Ok((chunk, p)) => Ok(
                                (
                                    PacketView {
                                        payload,
                                        seq,
                                        resend,
                                        sent_at,
                                        ordered_index,
                                        chunk,
                                    },
                                    p,
                                ),
                            ),
                        },
                    },
                },
            },
        },
    }
}

/// The frame at the start of `b` and where it ends. Bytes behind an Ack, a
/// Greeting or a Reliable frame are not looked at.
pub open spec fn read_frame(b: Seq<u8>) -> Result<(FrameView, int), Error> {
    match bytes::read_u8(b, 0) {
        Err(e) => Err(e),
        Ok((tag, _)) => match Kind::of_tag(tag) {
            None => Err(Error::UnknownKind(tag)),
            Some(Kind::Unreliable) => Ok(
                (FrameView::Unreliable(b.subrange(1, b.len() as int)), b.len() as int),
            ),
            Some(Kind::Ack) => match bytes::read_u32(b, 1) {
                Err(e) => Err(e),
                Ok((seq, p)) => Ok((FrameView::Ack(seq), p)),
            },
            Some(Kind::Greeting) => match bytes::read_u32(b, 1) {
                Err(e) => Err(e),
                Ok((id, p)) => Ok((FrameView::Greeting(id), p)),
            },
            Some(Kind::Reliable) => match read_packet(b, 1) {
                Err(e) => Err(e),
                Ok((packet, p)) => Ok((FrameView::Reliable(packet), p)),
            },
        },
    }
}

/// What a datagram parses to.
pub open spec fn parsed(b: Seq<u8>) -> Result<FrameView, Error> {
    bytes::value_of(read_frame(b))
}

// ---------------------------------------------------------------------------
// Parsing and encoding
// ---------------------------------------------------------------------------

fn take_ordered(c: &mut Cursor<'_>) -> (r: Result<Option<u32>, Error>)
    requires
        old(c).wf(),
    ensures
        final(c).follows(old(c)),
        bytes::outcome(r, final(c).pos as int) == read_ordered(old(c).buf@, old(c).pos as int),
{
    if c.option_tag()? {
        Ok(Some(c.u32()?))
    } else {
        Ok(None)
    }
}

fn take_chunk(c: &mut Cursor<'_>) -> (r: Result<Option<Chunk>, Error>)
    requires
        old(c).wf(),
    ensures
        final(c).follows(old(c)),
        bytes::outcome(r, final(c).pos as int) == read_chunk(old(c).buf@, old(c).pos as int),
{
    if c.option_tag()? {
        let id = c.u32()?;
        let offset = c.u32()?;
        let total_size = c.u32()?;
        let count = c.u16()?;
        Ok(Some(Chunk { id, offset, total_size, count }))
    } else {
        Ok(None)
    }
}

fn take_packet(c: &mut Cursor<'_>) -> (r: Result<Packet, Error>)
    requires
        old(c).wf(),
    ensures
        final(c).follows(old(c)),
        bytes::viewed(r, final(c).pos as int) == read_packet(old(c).buf@, old(c).pos as int),
{
    let payload = vstd::slice::slice_to_vec(c.bytes("payload")?);
    let seq = c.u32()?;
    let resend = c.u8()?;
    let sent_at = c.u64()?;
    let ordered_index = take_ordered(c)?;
    let chunk = take_chunk(c)?;
    Ok(Packet { payload, seq, resend, sent_at, ordered_index, chunk })
}

/// Parse a datagram received on the game's server socket.
pub fn parse(buf: &[u8]) -> (r: Result<Frame, Error>)
    ensures
        bytes::view_of(r) == parsed(buf@),
{
    let mut c = Cursor::new(buf);
    let tag = c.u8()?;
    match Kind::from_u8(tag) {
        None => Err(Error::UnknownKind(tag)),
        Some(Kind::Unreliable) => {
            let n = c.remaining();
            Ok(Frame::Unreliable(vstd::slice::slice_to_vec(c.take(n)?)))
        },
        Some(Kind::Ack) => Ok(Frame::Ack(c.u32()?)),
        Some(Kind::Greeting) => Ok(Frame::Greeting(c.u32()?)),
        Some(Kind::Reliable) => Ok(Frame::Reliable(take_packet(&mut c)?)),
    }
}

fn put_packet(out: &mut Vec<u8>, p: &Packet)
    ensures
        final(out)@ == old(out)@ + packet_bytes(p@),
{
    put_blob(out, p.payload.as_slice());
    put_u32(out, p.seq);
    out.push(p.resend);
    put_u64(out, p.sent_at);
    match p.ordered_index {
        Some(i) => {
            out.push(1);
            put_u32(out, i);
        },
        None => out.push(0),
    }
    match p.chunk {
        Some(ch) => {
            out.push(1);
            put_u32(out, ch.id);
            put_u32(out, ch.offset);
            put_u32(out, ch.total_size);
            put_u16(out, ch.count);
        },
        None => out.push(0),
    }
    assert(out@ =~= old(out)@ + packet_bytes(p@));
}

/// Serialise a Reliable datagram.
pub fn encode_packet(p: &Packet) -> (out: Vec<u8>)
    ensures
        out@ == frame_bytes(FrameView::Reliable(p@)),
{
    let mut out: Vec<u8> = Vec::new();
    out.push(Kind::Reliable.to_u8());
    put_packet(&mut out, p);
    assert(out@ =~= seq![0u8] + packet_bytes(p@));
    out
}

/// Serialise an Unreliable datagram that carries `payload`.
pub fn encode_unreliable(payload: &[u8]) -> (out: Vec<u8>)
    ensures
        out@ == frame_bytes(FrameView::Unreliable(payload@)),
{
    let mut out: Vec<u8> = Vec::new();
    out.push(Kind::Unreliable.to_u8());
    put_bytes(&mut out, payload);
    assert(out@ =~= seq![1u8] + payload@);
    out
}

/// Serialise a frame back to wire form.
pub fn encode(frame: &Frame) -> (out: Vec<u8>)
    ensures
        out@ == frame_bytes(frame@),
{
    match frame {
        Frame::Reliable(p) => encode_packet(p),
        Frame::Unreliable(payload) => encode_unreliable(payload.as_slice()),
        Frame::Ack(seq) => {
            let mut out: Vec<u8> = Vec::new();
            out.push(Kind::Ack.to_u8());
            put_u32(&mut out, *seq);
            assert(out@ =~= seq![2u8] + le::u32_bytes(*seq));
            out
        },
        Frame::Greeting(id) => {
            let mut out: Vec<u8> = Vec::new();
            out.push(Kind::Greeting.to_u8());
            put_u32(&mut out, *id);
            assert(out@ =~= seq![3u8] + le::u32_bytes(*id));
            out
        },
    }
}

/// Classify a raw datagram as game traffic rather than a coincidental packet.
///
/// Steam's networking sockets tag their datagrams with an ASCII banner; the
/// game's own protocol never produces a leading `s`.
pub fn looks_like_game_traffic(buf: &[u8]) -> (r: bool)
    ensures
        r == (buf@.len() > 0 && Kind::of_tag(buf@[0]) is Some),
{
    buf.len() > 0 && Kind::from_u8(buf[0]).is_some()
}

// ---------------------------------------------------------------------------
// Laws
// ---------------------------------------------------------------------------

proof fn lemma_read_back_ordered(b: Seq<u8>, at: int, o: Option<u32>)
    requires
        bytes::holds(b, at, ordered_bytes(o)),
    ensures
        read_ordered(b, at) == Ok::<(Option<u32>, int), Error>((o, at + ordered_bytes(o).len())),
{
    match o {
        Some(i) => {
            bytes::lemma_holds_concat(b, at, seq![1u8], le::u32_bytes(i));
            bytes::lemma_read_back_u8(b, at, 1);
            bytes::lemma_read_back_u32(b, at + 1, i);
        },
        None => {
            bytes::lemma_read_back_u8(b, at, 0);
        },
    }
}

proof fn lemma_read_back_chunk(b: Seq<u8>, at: int, o: Option<Chunk>)
    requires
        bytes::holds(b, at, chunk_bytes(o)),
    ensures
        read_chunk(b, at) == Ok::<(Option<Chunk>, int), Error>((o, at + chunk_bytes(o).len())),
{
    match o {
        Some(c) => {
            let p1 = seq![1u8];
            let p2 = p1 + le::u32_bytes(c.id);
            let p3 = p2 + le::u32_bytes(c.offset);
            let p4 = p3 + le::u32_bytes(c.total_size);
            bytes::lemma_holds_concat(b, at, p4, le::u16_bytes(c.count));
            bytes::lemma_holds_concat(b, at, p3, le::u32_bytes(c.total_size));
            bytes::lemma_holds_concat(b, at, p2, le::u32_bytes(c.offset));
            bytes::lemma_holds_concat(b, at, p1, le::u32_bytes(c.id));
            bytes::lemma_read_back_u8(b, at, 1);
            bytes::lemma_read_back_u32(b, at + 1, c.id);
            bytes::lemma_read_back_u32(b, at + 5, c.offset);
            bytes::lemma_read_back_u32(b, at + 9, c.total_size);
            bytes::lemma_read_back_u16(b, at + 13, c.count);
        },
        None => {
            bytes::lemma_read_back_u8(b, at, 0);
        },
    }
}

proof fn lemma_read_back_packet(b: Seq<u8>, at: int, p: PacketView)
    requires
        bytes::holds(b, at, packet_bytes(p)),
        p.payload.len() <= u64::MAX,
    ensures
        read_packet(b, at) == Ok::<(PacketView, int), Error>((p, at + packet_bytes(p).len())),
{
    let p1 = bytes::blob_bytes(p.payload);
    let p2 = p1 + le::u32_bytes(p.seq);
    let p3 = p2 + seq![p.resend];
    let p4 = p3 + le::u64_bytes(p.sent_at);
    let p5 = p4 + ordered_bytes(p.ordered_index);
    bytes::lemma_holds_concat(b, at, p5, chunk_bytes(p.chunk));
    bytes::lemma_holds_concat(b, at, p4, ordered_bytes(p.ordered_index));
    bytes::lemma_holds_concat(b, at, p3, le::u64_bytes(p.sent_at));
    bytes::lemma_holds_concat(b, at, p2, seq![p.resend]);
    bytes::lemma_holds_concat(b, at, p1, le::u32_bytes(p.seq));
    let q = at + p1.len();
    bytes::lemma_read_back_blob(b, at, p.payload, "payload");
    bytes::lemma_read_back_u32(b, q, p.seq);
    bytes::lemma_read_back_u8(b, q + 4, p.resend);
    bytes::lemma_read_back_u64(b, q + 5, p.sent_at);
    lemma_read_back_ordered(b, q + 13, p.ordered_index);
    lemma_read_back_chunk(b, at + p5.len(), p.chunk);
}

proof fn lemma_read_ordered_holds(b: Seq<u8>, at: int)
    requires
        0 <= at,
    ensures
        read_ordered(b, at) matches Ok((o, p)) ==> {
            &&& p == at + ordered_bytes(o).len()
            &&& bytes::holds(b, at, ordered_bytes(o))
        },
{
    bytes::lemma_read_u8_holds(b, at);
    if let Ok((o, p)) = read_ordered(b, at) {
        if let Some(i) = o {
            bytes::lemma_read_u32_holds(b, at + 1);
            bytes::lemma_holds_concat(b, at, seq![1u8], le::u32_bytes(i));
        }
    }
}

proof fn lemma_read_chunk_holds(b: Seq<u8>, at: int)
    requires
        0 <= at,
    ensures
        read_chunk(b, at) matches Ok((o, p)) ==> {
            &&& p == at + chunk_bytes(o).len()
            &&& bytes::holds(b, at, chunk_bytes(o))
        },
{
    bytes::lemma_read_u8_holds(b, at);
    if let Ok((o, p)) = read_chunk(b, at) {
        if let Some(c) = o {
            bytes::lemma_read_u32_holds(b, at + 1);
            bytes::lemma_read_u32_holds(b, at + 5);
            bytes::lemma_read_u32_holds(b, at + 9);
            bytes::lemma_read_u16_holds(b, at + 13);
            let p1 = seq![1u8];
            let p2 = p1 + le::u32_bytes(c.id);
            let p3 = p2 + le::u32_bytes(c.offset);
            let p4 = p3 + le::u32_bytes(c.total_size);
            bytes::lemma_holds_concat(b, at, p1, le::u32_bytes(c.id));
            bytes::lemma_holds_concat(b, at, p2, le::u32_bytes(c.offset));
            bytes::lemma_holds_concat(b, at, p3, le::u32_bytes(c.total_size));
            bytes::lemma_holds_concat(b, at, p4, le::u16_bytes(c.count));
        }
    }
}

proof fn lemma_read_packet_holds(b: Seq<u8>, at: int)
    requires
        0 <= at,
    ensures
        read_packet(b, at) matches Ok((pk, p)) ==> {
            &&& p == at + packet_bytes(pk).len()
            &&& bytes::holds(b, at, packet_bytes(pk))
        },
{
    if let Ok((pk, p)) = read_packet(b, at) {
        bytes::lemma_read_blob_holds(b, at, "payload");
        let p1 = bytes::blob_bytes(pk.payload);
        let p2 = p1 + le::u32_bytes(pk.seq);
        let p3 = p2 + seq![pk.resend];
        let p4 = p3 + le::u64_bytes(pk.sent_at);
        let p5 = p4 + ordered_bytes(pk.ordered_index);
        bytes::lemma_read_u32_holds(b, at + p1.len());
        bytes::lemma_read_u8_holds(b, at + p2.len());
        bytes::lemma_read_u64_holds(b, at + p3.len());
        lemma_read_ordered_holds(b, at + p4.len());
        lemma_read_chunk_holds(b, at + p5.len());
        bytes::lemma_holds_concat(b, at, p1, le::u32_bytes(pk.seq));
        bytes::lemma_holds_concat(b, at, p2, seq![pk.resend]);
        bytes::lemma_holds_concat(b, at, p3, le::u64_bytes(pk.sent_at));
        bytes::lemma_holds_concat(b, at, p4, ordered_bytes(pk.ordered_index));
        bytes::lemma_holds_concat(b, at, p5, chunk_bytes(pk.chunk));
    }
}

/// A frame that was encoded parses back to itself.
pub proof fn law_encoded_frame_parses_back(f: FrameView)
    requires
        f matches FrameView::Reliable(p) ==> p.payload.len() <= u64::MAX,
    ensures
        parsed(frame_bytes(f)) == Ok::<FrameView, Error>(f),
{
    let b = frame_bytes(f);
    assert(b.subrange(0, b.len() as int) =~= b);
    match f {
        FrameView::Reliable(p) => {
            bytes::lemma_holds_concat(b, 0, seq![0u8], packet_bytes(p));
            bytes::lemma_read_back_u8(b, 0, 0);
            lemma_read_back_packet(b, 1, p);
        },
        FrameView::Unreliable(payload) => {
            bytes::lemma_holds_concat(b, 0, seq![1u8], payload);
            bytes::lemma_read_back_u8(b, 0, 1);
        },
        FrameView::Ack(seq) => {
            bytes::lemma_holds_concat(b, 0, seq![2u8], le::u32_bytes(seq));
            bytes::lemma_read_back_u8(b, 0, 2);
            bytes::lemma_read_back_u32(b, 1, seq);
        },
        FrameView::Greeting(id) => {
            bytes::lemma_holds_concat(b, 0, seq![3u8], le::u32_bytes(id));
            bytes::lemma_read_back_u8(b, 0, 3);
            bytes::lemma_read_back_u32(b, 1, id);
        },
    }
}

/// Encoding a parsed frame reproduces the bytes it was parsed from: the whole
/// datagram where the frame reaches to its end, else the part that was read.
pub proof fn law_parsed_frame_encodes_back(b: Seq<u8>)
    ensures
        read_frame(b) matches Ok((f, end)) ==> {
            &&& 0 <= end <= b.len()
            &&& frame_bytes(f) == b.subrange(0, end)
            &&& end == b.len() ==> frame_bytes(f) == b
        },
{
    if let Ok((f, end)) = read_frame(b) {
        bytes::lemma_read_u8_holds(b, 0);
        match f {
            FrameView::Reliable(p) => {
                lemma_read_packet_holds(b, 1);
                bytes::lemma_holds_concat(b, 0, seq![0u8], packet_bytes(p));
            },
            FrameView::Unreliable(payload) => {
                assert(b =~= seq![1u8] + payload);
            },
            FrameView::Ack(seq) => {
                bytes::lemma_read_u32_holds(b, 1);
                bytes::lemma_holds_concat(b, 0, seq![2u8], le::u32_bytes(seq));
            },
            FrameView::Greeting(id) => {
                bytes::lemma_read_u32_holds(b, 1);
                bytes::lemma_holds_concat(b, 0, seq![3u8], le::u32_bytes(id));
            },
        }
        assert(b.subrange(0, b.len() as int) =~= b);
    }
}

/// What parses as a frame looks like game traffic, and what does not look like
/// game traffic does not parse.
pub proof fn law_frames_look_like_game_traffic(b: Seq<u8>)
    ensures
        parsed(b) is Ok ==> b.len() > 0 && Kind::of_tag(b[0]) is Some,
{
    if b.len() > 0 {
        assert(b.subrange(0, 1)[0] == b[0]);
    }
}

} // verus!
