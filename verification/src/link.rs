//! The reliability layer between this server and one client.
//!
//! Each side numbers its Reliable packets from 1 per peer, acks every one it
//! receives, and retransmits about once a second until acked. Payloads over
//! [`CHUNK_SIZE`] go out as several packets that share one ordered index and a
//! chunk id, each acked on its own. Counters wrap at 32 bits.

use std::collections::HashMap;

use vstd::prelude::*;

use crate::frame;
use crate::frame::{encode_packet, Chunk, FrameView, Packet, PacketView, CHUNK_SIZE};
use crate::reassembly;
use crate::reassembly::{count_pieces, Reassembly, ReassemblyView};
use crate::seqs;

verus! {

broadcast use vstd::std_specs::hash::group_hash_axioms;

/// Ping cadence and retransmit interval: 1 Hz.
pub const TICK: u64 = 1_000_000_000;

/// Give up on a reliable packet after this many sends; the peer is gone.
pub const MAX_RESENDS: u8 = 15;

/// How many sequence numbers of processed packets are remembered.
pub const REMEMBERED: usize = 256;

/// Time passed at `now` since `then`, in nanoseconds; none where `then` is
/// still to come.
pub open spec fn spec_elapsed(now: u64, then: u64) -> u64 {
    if now >= then {
        (now - then) as u64
    } else {
        0
    }
}

#[verifier::when_used_as_spec(spec_elapsed)]
pub fn elapsed(now: u64, then: u64) -> (d: u64)
    ensures
        d == spec_elapsed(now, then),
{
    if now >= then {
        now - then
    } else {
        0
    }
}

/// `x` modulo 2^32: a 32-bit counter that wraps, or a length cut to 32 bits.
pub open spec fn wrap32(x: int) -> u32 {
    (x % 0x1_0000_0000) as u32
}

// ---------------------------------------------------------------------------
// Mail
// ---------------------------------------------------------------------------

/// A datagram to be sent to the peer known by the key `to`.
pub struct Datagram {
    pub to: u64,
    pub bytes: Vec<u8>,
}

/// What a [`Datagram`] holds.
#[verifier::ext_equal]
pub struct DatagramView {
    pub to: u64,
    pub bytes: Seq<u8>,
}

impl View for Datagram {
    type V = DatagramView;

    open spec fn view(&self) -> DatagramView {
        DatagramView { to: self.to, bytes: self.bytes@ }
    }
}

/// Datagrams to be sent, in order.
pub struct Outbox {
    pub mail: Vec<Datagram>,
}

impl View for Outbox {
    type V = Seq<DatagramView>;

    open spec fn view(&self) -> Seq<DatagramView> {
        self.mail@.map_values(|d: Datagram| d@)
    }
}

impl Outbox {
    pub fn new() -> (o: Outbox)
        ensures
            o@ == Seq::<DatagramView>::empty(),
    {
        let o = Outbox { mail: Vec::new() };
        assert(o@ =~= Seq::empty());
        o
    }

    /// Send `bytes` to `to`.
    pub fn send(&mut self, to: u64, bytes: Vec<u8>)
        ensures
            final(self)@ == old(self)@.push(DatagramView { to, bytes: bytes@ }),
    {
        self.mail.push(Datagram { to, bytes });
        assert(self@ =~= old(self)@.push(DatagramView { to, bytes: bytes@ }));
    }

    /// Hand out what is to be sent and keep nothing.
    pub fn drain(&mut self) -> (mail: Vec<Datagram>)
        ensures
            mail@.map_values(|d: Datagram| d@) == old(self)@,
            final(self)@ == Seq::<DatagramView>::empty(),
    {
        let mut mail: Vec<Datagram> = Vec::new();
        std::mem::swap(&mut mail, &mut self.mail);
        assert(self@ =~= Seq::empty());
        mail
    }
}

// ---------------------------------------------------------------------------
// What goes out
// ---------------------------------------------------------------------------

/// A reliable packet waiting for its ack.
pub struct Pending {
    pub packet: Packet,
    pub last_sent: u64,
}

/// What a [`Pending`] holds.
#[verifier::ext_equal]
pub struct PendingView {
    pub packet: PacketView,
    pub last_sent: u64,
}

impl View for Pending {
    type V = PendingView;

    open spec fn view(&self) -> PendingView {
        PendingView { packet: self.packet@, last_sent: self.last_sent }
    }
}

/// The sending half of a link.
pub struct Outbound {
    /// Sequence for the next reliable packet. A real host numbers them from 1
    /// per session, and a client that sees an unexpected number drops the
    /// packet.
    pub next_seq: u32,
    /// Position in the ordered stream of lobby events.
    pub next_ordered: u32,
    /// Id for the next chunked message.
    pub next_chunk: u32,
    /// Reliable packets sent but not yet acked.
    pub pending: Vec<Pending>,
}

/// What an [`Outbound`] holds.
#[verifier::ext_equal]
pub struct OutboundView {
    pub next_seq: u32,
    pub next_ordered: u32,
    pub next_chunk: u32,
    pub pending: Seq<PendingView>,
}

impl View for Outbound {
    type V = OutboundView;

    open spec fn view(&self) -> OutboundView {
        OutboundView {
            next_seq: self.next_seq,
            next_ordered: self.next_ordered,
            next_chunk: self.next_chunk,
            pending: self.pending@.map_values(|p: Pending| p@),
        }
    }
}

impl OutboundView {
    /// The `i`th packet of a message.
    pub open spec fn packet(self, payload: Seq<u8>, ordered: bool, unix: u64, i: int) -> PacketView {
        PacketView {
            payload: reassembly::piece(payload, i),
            seq: wrap32(self.next_seq + i),
            resend: 0,
            sent_at: unix,
            ordered_index: if ordered {
                Some(self.next_ordered)
            } else {
                None
            },
            chunk: if payload.len() > CHUNK_SIZE {
                Some(
                    Chunk {
                        id: self.next_chunk,
                        offset: wrap32(CHUNK_SIZE * i),
                        total_size: wrap32(payload.len() as int),
                        count: (reassembly::piece_count(payload.len() as int) % 0x1_0000) as u16,
                    },
                )
            } else {
                None
            },
        }
    }

    /// The packets of a message.
    pub open spec fn packets(self, payload: Seq<u8>, ordered: bool, unix: u64) -> Seq<PacketView> {
        Seq::new(
            reassembly::piece_count(payload.len() as int) as nat,
            |i: int| self.packet(payload, ordered, unix, i),
        )
    }

    /// With a message sent at `now` and waiting for its acks.
    pub open spec fn queued(
        self,
        payload: Seq<u8>,
        ordered: bool,
        now: u64,
        unix: u64,
    ) -> OutboundView {
        OutboundView {
            next_seq: wrap32(self.next_seq + reassembly::piece_count(payload.len() as int)),
            next_ordered: if ordered {
                wrap32(self.next_ordered + 1)
            } else {
                self.next_ordered
            },
            next_chunk: if payload.len() > CHUNK_SIZE {
                wrap32(self.next_chunk + 1)
            } else {
                self.next_chunk
            },
            pending: self.pending + waiting(self.packets(payload, ordered, unix), now),
        }
    }

    /// With the packet numbered `seq` acked.
    pub open spec fn acked(self, seq: u32) -> OutboundView {
        OutboundView {
            pending: self.pending.filter(|p: PendingView| p.packet.seq != seq),
            ..self
        }
    }

    /// What is left to retransmit: packets not sent too often yet.
    pub open spec fn alive(self) -> Seq<PendingView> {
        self.pending.filter(|p: PendingView| p.packet.resend < MAX_RESENDS)
    }

    /// With every packet that is due at `now` sent once more, and those sent
    /// too often given up.
    pub open spec fn retried(self, now: u64) -> OutboundView {
        OutboundView { pending: self.alive().map_values(|p: PendingView| p.retried(now)), ..self }
    }
}

impl PendingView {
    /// Unacked for a tick since it was last sent.
    pub open spec fn due(self, now: u64) -> bool {
        elapsed(now, self.last_sent) >= TICK
    }

    /// Sent once more, if due.
    pub open spec fn retried(self, now: u64) -> PendingView {
        if self.due(now) {
            PendingView {
                packet: PacketView { resend: (self.packet.resend + 1) as u8, ..self.packet },
                last_sent: now,
            }
        } else {
            self
        }
    }
}

/// Packets sent at `now` that wait for their acks.
pub open spec fn waiting(packets: Seq<PacketView>, now: u64) -> Seq<PendingView> {
    packets.map_values(|p: PacketView| PendingView { packet: p, last_sent: now })
}

/// The datagrams that carry `packets` to `to`.
pub open spec fn carried(to: u64, packets: Seq<PacketView>) -> Seq<DatagramView> {
    packets.map_values(
        |p: PacketView|
            DatagramView { to, bytes: frame::frame_bytes(FrameView::Reliable(p)) },
    )
}

/// The packets that retransmitting at `now` sends, of those in `alive`.
pub open spec fn retransmitted(alive: Seq<PendingView>, now: u64) -> Seq<PacketView> {
    alive.filter(|p: PendingView| p.due(now)).map_values(|p: PendingView| p.retried(now).packet)
}

/// The `i`th packet of a message.
fn cut(
    payload: &[u8],
    i: usize,
    seq: u32,
    ordered_index: Option<u32>,
    chunk_id: u32,
    unix: u64,
) -> (p: Packet)
    requires
        i < reassembly::piece_count(payload@.len() as int),
    ensures
        p@ == (PacketView {
            payload: reassembly::piece(payload@, i as int),
            seq,
            resend: 0,
            sent_at: unix,
            ordered_index,
            chunk: if payload@.len() > CHUNK_SIZE {
                Some(
                    Chunk {
                        id: chunk_id,
                        offset: wrap32(CHUNK_SIZE * i),
                        total_size: wrap32(payload@.len() as int),
                        count: (reassembly::piece_count(payload@.len() as int) % 0x1_0000) as u16,
                    },
                )
            } else {
                None
            },
        }),
{
    proof {
        reassembly::lemma_piece_is_inside(payload@, i as int);
    }
    let size: usize = payload.len();
    let at: usize = CHUNK_SIZE * i;
    let end: usize = if size - at >= CHUNK_SIZE {
        at + CHUNK_SIZE
    } else {
        size
    };
    let chunk: Option<Chunk> = if size > CHUNK_SIZE {
        Some(
            Chunk {
                id: chunk_id,
                offset: (at as u64 % 0x1_0000_0000) as u32,
                total_size: (size as u64 % 0x1_0000_0000) as u32,
                count: (count_pieces(size) % 0x1_0000) as u16,
            },
        )
    } else {
        None
    };
    Packet {
        payload: vstd::slice::slice_to_vec(vstd::slice::slice_subrange(payload, at, end)),
        seq,
        resend: 0,
        sent_at: unix,
        ordered_index,
        chunk,
    }
}

impl Outbound {
    pub fn new() -> (o: Outbound)
        ensures
            o@ == (OutboundView {
                next_seq: 1,
                next_ordered: 0,
                next_chunk: 1,
                pending: Seq::empty(),
            }),
    {
        let o = Outbound { next_seq: 1, next_ordered: 0, next_chunk: 1, pending: Vec::new() };
        assert(o@.pending =~= Seq::empty());
        o
    }

    /// Queue a reliable message to `to`: sent now and again every tick until
    /// acked. Payloads over [`CHUNK_SIZE`] go out as several packets that share
    /// one ordered index and a chunk id, each acked on its own.
    #[verifier::rlimit(30)]
    pub fn queue(
        &mut self,
        to: u64,
        payload: &[u8],
        ordered: bool,
        now: u64,
        unix: u64,
        outbox: &mut Outbox,
    )
        ensures
            final(self)@ == old(self)@.queued(payload@, ordered, now, unix),
            final(outbox)@ == old(outbox)@ + carried(
                to,
                old(self)@.packets(payload@, ordered, unix),
            ),
    {
        let ghost before = self@;
        let ghost all = before.packets(payload@, ordered, unix);
        let size: usize = payload.len();
        let chunked: bool = size > CHUNK_SIZE;
        let ordered_index: Option<u32> = if ordered {
            Some(self.next_ordered)
        } else {
            None
        };
        let count: usize = count_pieces(size);
        let mut i: usize = 0;
        assert(self@.pending =~= before.pending + waiting(all.take(0), now));
        assert(outbox@ =~= old(outbox)@ + carried(to, all.take(0)));
        while i < count
            invariant
                count == reassembly::piece_count(payload@.len() as int),
                count == all.len(),
                i <= count,
                before == old(self)@,
                all == before.packets(payload@, ordered, unix),
                ordered_index == (if ordered {
                    Some(before.next_ordered)
                } else {
                    None
                }),
                self.next_seq == wrap32(before.next_seq + i),
                self.next_ordered == before.next_ordered,
                self.next_chunk == before.next_chunk,
                self@.pending == before.pending + waiting(all.take(i as int), now),
                outbox@ == old(outbox)@ + carried(to, all.take(i as int)),
            decreases count - i,
        {
            let ghost pending = self@.pending;
            let packet = cut(payload, i, self.next_seq, ordered_index, self.next_chunk, unix);
            assert(packet@ == all[i as int]);
            outbox.send(to, encode_packet(&packet));
            self.next_seq = self.next_seq.wrapping_add(1);
            self.pending.push(Pending { packet, last_sent: now });
            proof {
                let grown = all.take(i + 1);
                assert(grown =~= all.take(i as int).push(all[i as int]));
                assert(self@.pending =~= pending.push(
                    PendingView { packet: all[i as int], last_sent: now },
                ));
                assert(self@.pending =~= before.pending + waiting(grown, now));
                assert(outbox@ =~= old(outbox)@ + carried(to, grown));
            }
            i = i + 1;
        }
        assert(all.take(count as int) =~= all);
        if ordered {
            self.next_ordered = self.next_ordered.wrapping_add(1);
        }
        if chunked {
            self.next_chunk = self.next_chunk.wrapping_add(1);
        }
        assert(self@ =~= before.queued(payload@, ordered, now, unix));
    }

    /// Forget the packet numbered `seq`; tells whether one was waiting.
    #[verifier::rlimit(30)]
    pub fn ack(&mut self, seq: u32) -> (found: bool)
        ensures
            final(self)@ == old(self)@.acked(seq),
            found == (old(self)@.acked(seq).pending.len() != old(self)@.pending.len()),
    {
        let ghost before = self@;
        let ghost all = before.pending;
        let ghost keep = |p: PendingView| p.packet.seq != seq;
        let count: usize = self.pending.len();
        let mut i: usize = 0;
        let mut k: usize = 0;
        proof {
            seqs::lemma_filter_none(all, keep);
            assert(self@.pending =~= all.take(0).filter(keep) + all.skip(0));
        }
        while k < count
            invariant
                before == old(self)@,
                all == before.pending,
                keep == (|p: PendingView| p.packet.seq != seq),
                k <= count,
                count == all.len(),
                i == all.take(k as int).filter(keep).len(),
                self@ == (OutboundView {
                    pending: all.take(k as int).filter(keep) + all.skip(k as int),
                    ..before
                }),
            decreases count - k,
        {
            let ghost pending = self@.pending;
            assert(pending.len() == i + all.skip(k as int).len());
            assert(self.pending@.len() == pending.len());
            assert(all.skip(k as int)[0] == all[k as int]);
            assert(self.pending@[i as int]@ == pending[i as int]);
            proof {
                seqs::lemma_filter_step(all, keep, k as int);
            }
            if self.pending[i].packet.seq == seq {
                self.pending.remove(i);
                assert(self@.pending =~= pending.remove(i as int));
                assert(self@.pending =~= all.take(k + 1).filter(keep) + all.skip(k + 1));
            } else {
                assert(self@.pending =~= all.take(k + 1).filter(keep) + all.skip(k + 1));
                i = i + 1;
            }
            k = k + 1;
        }
        proof {
            seqs::lemma_filter_none(all, keep);
            assert(self@.pending =~= all.filter(keep));
        }
        self.pending.len() != count
    }

    /// Send every packet that is due once more, and give up on those that were
    /// sent too often.
    #[verifier::rlimit(30)]
    pub fn retry(&mut self, to: u64, now: u64, outbox: &mut Outbox)
        ensures
            final(self)@ == old(self)@.retried(now),
            final(outbox)@ == old(outbox)@ + carried(
                to,
                retransmitted(old(self)@.alive(), now),
            ),
    {
        let ghost before = self@;
        let ghost all = before.pending;
        let ghost live = |p: PendingView| p.packet.resend < MAX_RESENDS;
        let ghost due = |p: PendingView| p.due(now);
        let ghost again = |p: PendingView| p.retried(now);
        let count: usize = self.pending.len();
        let mut i: usize = 0;
        let mut k: usize = 0;
        proof {
            seqs::lemma_filter_none(all, live);
            let none = all.take(0).filter(live);
            seqs::lemma_filter_none(none, due);
            assert(none =~= none.take(0));
            assert(self@.pending =~= none.map_values(again) + all.skip(0));
            assert(outbox@ =~= old(outbox)@ + carried(to, retransmitted(none, now)));
        }
        while k < count
            invariant
                before == old(self)@,
                all == before.pending,
                live == (|p: PendingView| p.packet.resend < MAX_RESENDS),
                due == (|p: PendingView| p.due(now)),
                again == (|p: PendingView| p.retried(now)),
                k <= count,
                count == all.len(),
                i == all.take(k as int).filter(live).len(),
                self@ == (OutboundView {
                    pending: all.take(k as int).filter(live).map_values(again) + all.skip(k as int),
                    ..before
                }),
                outbox@ == old(outbox)@ + carried(
                    to,
                    retransmitted(all.take(k as int).filter(live), now),
                ),
            decreases count - k,
        {
            let ghost pending = self@.pending;
            let ghost kept = all.take(k as int).filter(live);
            let ghost more = all.take(k + 1).filter(live);
            assert(pending.len() == i + all.skip(k as int).len());
            assert(self.pending@.len() == pending.len());
            assert(all.skip(k as int)[0] == all[k as int]);
            assert(self.pending@[i as int]@ == pending[i as int]);
            proof {
                seqs::lemma_filter_step(all, live, k as int);
            }
            if self.pending[i].packet.resend >= MAX_RESENDS {
                self.pending.remove(i);
                assert(self@.pending =~= pending.remove(i as int));
                assert(self@.pending =~= more.map_values(again) + all.skip(k + 1));
            } else {
                proof {
                    assert(more.take(more.len() - 1) =~= kept);
                    assert(more.take(more.len() as int) =~= more);
                    seqs::lemma_filter_step(more, due, more.len() - 1);
                }
                if elapsed(now, self.pending[i].last_sent) >= TICK {
                    self.pending[i].packet.resend = self.pending[i].packet.resend + 1;
                    self.pending[i].last_sent = now;
                    assert(self.pending@[i as int]@ =~= all[k as int].retried(now));
                    outbox.send(to, encode_packet(&self.pending[i].packet));
                    assert(outbox@ =~= old(outbox)@ + carried(to, retransmitted(more, now)));
                } else {
                    assert(outbox@ =~= old(outbox)@ + carried(to, retransmitted(more, now)));
                }
                assert(self@.pending =~= pending.update(i as int, all[k as int].retried(now)));
                assert(more.map_values(again) =~= kept.map_values(again).push(
                    all[k as int].retried(now),
                ));
                assert(self@.pending =~= more.map_values(again) + all.skip(k + 1));
                i = i + 1;
            }
            k = k + 1;
        }
        proof {
            seqs::lemma_filter_none(all, live);
            assert(self@.pending =~= before.alive().map_values(again));
        }
    }
}

// ---------------------------------------------------------------------------
// What comes in
// ---------------------------------------------------------------------------

/// The receiving half of a link.
pub struct Inbound {
    /// Sequences already processed, so a retransmit is re-acked but not
    /// re-applied.
    pub processed: Vec<u32>,
    /// Chunked payloads still being reassembled, by chunk id.
    pub partial: HashMap<u32, Reassembly>,
}

/// What an [`Inbound`] holds.
#[verifier::ext_equal]
pub struct InboundView {
    pub processed: Seq<u32>,
    pub partial: Map<u32, ReassemblyView>,
}

impl View for Inbound {
    type V = InboundView;

    open spec fn view(&self) -> InboundView {
        InboundView {
            processed: self.processed@,
            partial: self.partial@.map_values(|r: Reassembly| r@),
        }
    }
}

/// What a received packet amounts to.
pub enum Received {
    /// A retransmit of a packet that was processed before.
    Again,
    /// A piece that reaches past the end of its payload.
    PastEnd(u32),
    /// A piece of a payload that is not complete yet.
    Partial,
    /// A whole payload.
    Whole(Vec<u8>),
}

/// What a [`Received`] holds.
#[verifier::ext_equal]
pub enum ReceivedView {
    Again,
    PastEnd(u32),
    Partial,
    Whole(Seq<u8>),
}

impl View for Received {
    type V = ReceivedView;

    open spec fn view(&self) -> ReceivedView {
        match *self {
            Received::Again => ReceivedView::Again,
            Received::PastEnd(id) => ReceivedView::PastEnd(id),
            Received::Partial => ReceivedView::Partial,
            Received::Whole(payload) => ReceivedView::Whole(payload@),
        }
    }
}

/// `processed` with `seq` added and the oldest dropped where there are too many.
pub open spec fn remembering(processed: Seq<u32>, seq: u32) -> Seq<u32> {
    let grown = processed.push(seq);
    if grown.len() > REMEMBERED {
        grown.skip(1)
    } else {
        grown
    }
}

impl InboundView {
    /// Every payload being reassembled is less than 4 GiB, and no more of it was
    /// received than it has.
    pub open spec fn bounded(self) -> bool {
        forall|id: u32| #[trigger] self.partial.contains_key(id) ==> self.partial[id].bounded()
    }

    /// What is there of the payload that `chunk` is a piece of.
    pub open spec fn so_far(self, chunk: Chunk) -> ReassemblyView {
        if self.partial.contains_key(chunk.id) {
            self.partial[chunk.id]
        } else {
            reassembly::empty_of(chunk.total_size as nat)
        }
    }

    /// A piece of `len` bytes reaches past the end of the payload it names, or
    /// of the one that was announced first under its id.
    pub open spec fn past_end(self, chunk: Chunk, len: nat) -> bool {
        ||| chunk.offset + len > chunk.total_size
        ||| chunk.offset + len > self.so_far(chunk).buf.len()
    }

    /// With packet `p` received, and what it amounts to. A chunked payload is
    /// whole once as many bytes are in as its first piece announced.
    pub open spec fn received(self, p: PacketView) -> (InboundView, ReceivedView) {
        if self.processed.contains(p.seq) {
            (self, ReceivedView::Again)
        } else {
            let seen = InboundView { processed: remembering(self.processed, p.seq), ..self };
            match p.chunk {
                None => (seen, ReceivedView::Whole(p.payload)),
                Some(chunk) => if self.past_end(chunk, p.payload.len()) {
                    (seen, ReceivedView::PastEnd(chunk.id))
                } else {
                    let r = self.so_far(chunk).with(chunk.offset as int, p.payload);
                    if r.have < r.buf.len() {
                        (
                            InboundView { partial: self.partial.insert(chunk.id, r), ..seen },
                            ReceivedView::Partial,
                        )
                    } else {
                        (
                            InboundView { partial: self.partial.remove(chunk.id), ..seen },
                            ReceivedView::Whole(r.buf),
                        )
                    }
                },
            }
        }
    }
}

impl Inbound {
    pub fn new() -> (i: Inbound)
        ensures
            i@ == (InboundView { processed: Seq::empty(), partial: Map::empty() }),
            i@.bounded(),
    {
        let i = Inbound { processed: Vec::new(), partial: HashMap::new() };
        assert(i@.partial =~= Map::empty());
        i
    }

    /// Whether the packet numbered `seq` was processed before.
    pub fn knows(&self, seq: u32) -> (r: bool)
        ensures
            r == self@.processed.contains(seq),
    {
        let mut i: usize = 0;
        while i < self.processed.len()
            invariant
                i <= self.processed@.len(),
                forall|j: int| 0 <= j < i ==> self.processed@[j] != seq,
            decreases self.processed@.len() - i,
        {
            if self.processed[i] == seq {
                return true;
            }
            i = i + 1;
        }
        false
    }

    /// Whether a piece reaches past the end of its payload.
    fn is_past_end(&self, chunk: Chunk, len: usize) -> (r: bool)
        ensures
            r == self@.past_end(chunk, len as nat),
    {
        if len as u64 > chunk.total_size as u64 {
            return true;
        }
        let end: u64 = chunk.offset as u64 + len as u64;
        match self.partial.get(&chunk.id) {
            Some(r) => end > chunk.total_size as u64 || end > r.buf.len() as u64,
            None => end > chunk.total_size as u64,
        }
    }

    /// Receive a packet: drop it if it was processed before, else collect it.
    #[verifier::rlimit(30)]
    pub fn receive(&mut self, p: Packet) -> (r: Received)
        requires
            old(self)@.bounded(),
        ensures
            (final(self)@, r@) == old(self)@.received(p@),
            final(self)@.bounded(),
    {
        let ghost before = self@;
        if self.knows(p.seq) {
            return Received::Again;
        }
        self.processed.push(p.seq);
        if self.processed.len() > REMEMBERED {
            let _ = self.processed.remove(0);
            assert(self.processed@ =~= before.processed.push(p.seq).skip(1));
        }
        assert(self.processed@ == remembering(before.processed, p.seq));
        let chunk = match p.chunk {
            None => return Received::Whole(p.payload),
            Some(chunk) => chunk,
        };
        if self.is_past_end(chunk, p.payload.len()) {
            return Received::PastEnd(chunk.id);
        }
        let mut r = match self.partial.remove(&chunk.id) {
            Some(r) => r,
            None => Reassembly::new(chunk.total_size),
        };
        assert(r@ == before.so_far(chunk));
        r.put(chunk.offset as usize, p.payload.as_slice());
        if r.have < r.buf.len() as u64 {
            let ghost now = r@;
            self.partial.insert(chunk.id, r);
            assert(self@.partial =~= before.partial.insert(chunk.id, now));
            Received::Partial
        } else {
            assert(self@.partial =~= before.partial.remove(chunk.id));
            Received::Whole(r.buf)
        }
    }
}

} // verus!
