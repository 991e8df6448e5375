//! Frame <-> raw-`NetworkEvent` translation between beatermp's UDP protocol
//! and the game's Steam transport.
//!
//! BeaterCore's Steam path does *not* use the `Frame` envelope the UDP path
//! uses: it sends bare `NetworkEvent` payloads and leans on Steam's own
//! reliable/unreliable flags. This module is the seam. It wraps client events
//! in `Frame`s for beatermp, and turns beatermp's frames back into single Steam
//! messages, terminating beatermp's reliability (acks, retransmits, chunking)
//! on the way through.

use std::collections::{HashMap, HashSet};

use vstd::prelude::*;

use crate::error::Error;
use crate::event;
use crate::event::{event_kind, Event};
use crate::frame;
use crate::frame::{
    encode, encode_packet, encode_unreliable, parse, Chunk, Frame, FrameView, Packet, PacketView,
    CHUNK_SIZE,
};
use crate::link;
use crate::link::OutboundView;
use crate::reassembly;
use crate::reassembly::{Reassembly, ReassemblyView};

verus! {

broadcast use vstd::std_specs::hash::group_hash_axioms;

/// One message the bridge must hand to the Steam peer.
#[derive(Debug, PartialEq, Eq)]
pub enum ToSteam {
    Reliable(Vec<u8>),
    Unreliable(Vec<u8>),
}

/// What a [`ToSteam`] holds.
#[verifier::ext_equal]
pub enum ToSteamView {
    Reliable(Seq<u8>),
    Unreliable(Seq<u8>),
}

impl View for ToSteam {
    type V = ToSteamView;

    open spec fn view(&self) -> ToSteamView {
        match *self {
            ToSteam::Reliable(payload) => ToSteamView::Reliable(payload@),
            ToSteam::Unreliable(payload) => ToSteamView::Unreliable(payload@),
        }
    }
}

/// Per-Steam-peer translation state.
pub struct Peer {
    next_seq: u32,
    /// beatermp sequence numbers already forwarded, so a retransmit is acked
    /// but not delivered to Steam twice.
    forwarded: HashSet<u32>,
    /// Chunked beatermp payloads still being reassembled, by chunk id.
    inbound: HashMap<u32, Reassembly>,
}

/// What a [`Peer`] holds.
#[verifier::ext_equal]
pub struct PeerView {
    pub next_seq: u32,
    pub forwarded: Set<u32>,
    pub inbound: Map<u32, ReassemblyView>,
}

impl View for Peer {
    type V = PeerView;

    closed spec fn view(&self) -> PeerView {
        PeerView {
            next_seq: self.next_seq,
            forwarded: self.forwarded@,
            inbound: self.inbound@.map_values(|r: Reassembly| r@),
        }
    }
}

/// The client events that travel unreliably (Steam flag 0, UDP kind 1); every
/// other event is reliable.
pub open spec fn travels_unreliably(payload: Seq<u8>) -> bool {
    match event::event_of(payload) {
        Ok(e) => e == Event::CarState || e == Event::Ping || e == Event::Pong || e
            == Event::UpdateAvatarState,
        Err(_) => false,
    }
}

impl PeerView {
    /// A payload being reassembled is less than 4 GiB, and no more of it was
    /// received than it has.
    pub open spec fn wf(self) -> bool {
        forall|id: u32| #[trigger] self.inbound.contains_key(id) ==> self.inbound[id].bounded()
    }

    /// With a client event wrapped for beatermp, and the datagram.
    pub open spec fn wrapped(self, payload: Seq<u8>, now_secs: u64) -> (PeerView, Seq<u8>) {
        if travels_unreliably(payload) {
            (self, frame::frame_bytes(FrameView::Unreliable(payload)))
        } else {
            (
                PeerView { next_seq: link::wrap32(self.next_seq + 1), ..self },
                frame::frame_bytes(
                    FrameView::Reliable(
                        PacketView {
                            payload,
                            seq: self.next_seq,
                            resend: 0,
                            sent_at: now_secs,
                            ordered_index: None,
                            chunk: None,
                        },
                    ),
                ),
            )
        }
    }

    /// What is there of the payload that `chunk` is a piece of.
    pub open spec fn so_far(self, chunk: Chunk) -> ReassemblyView {
        if self.inbound.contains_key(chunk.id) {
            self.inbound[chunk.id]
        } else {
            reassembly::empty_of(chunk.total_size as nat)
        }
    }

    /// With a packet from beatermp taken in, and the messages it completes.
    pub open spec fn delivered(self, p: PacketView) -> (PeerView, Seq<ToSteamView>) {
        if self.forwarded.contains(p.seq) {
            (self, Seq::empty())
        } else {
            let seen = PeerView { forwarded: self.forwarded.insert(p.seq), ..self };
            match p.chunk {
                None => (seen, seq![ToSteamView::Reliable(p.payload)]),
                Some(chunk) => {
                    let there = self.so_far(chunk);
                    let grown = there.with(chunk.offset as int, p.payload);
                    if chunk.offset + p.payload.len() > there.buf.len() {
                        (
                            PeerView { inbound: self.inbound.insert(chunk.id, there), ..seen },
                            Seq::empty(),
                        )
                    } else if grown.have < grown.buf.len() {
                        (
                            PeerView { inbound: self.inbound.insert(chunk.id, grown), ..seen },
                            Seq::empty(),
                        )
                    } else {
                        (
                            PeerView { inbound: self.inbound.remove(chunk.id), ..seen },
                            seq![ToSteamView::Reliable(grown.buf)],
                        )
                    }
                },
            }
        }
    }

    /// With a datagram from beatermp taken in, the bytes to send back, and the
    /// messages for the Steam peer.
    pub open spec fn translated(self, datagram: Seq<u8>) -> (
        PeerView,
        Option<Seq<u8>>,
        Seq<ToSteamView>,
    ) {
        match frame::parsed(datagram) {
            Ok(FrameView::Unreliable(payload)) => (
                self,
                None,
                seq![ToSteamView::Unreliable(payload)],
            ),
            Ok(FrameView::Reliable(p)) => {
                let (after, messages) = self.delivered(p);
                (after, Some(frame::frame_bytes(FrameView::Ack(p.seq))), messages)
            },
            _ => (self, None, Seq::empty()),
        }
    }
}

/// The messages of `v`, by their views.
pub open spec fn messages(v: Seq<ToSteam>) -> Seq<ToSteamView> {
    v.map_values(|m: ToSteam| m@)
}

/// Nothing sent, forwarded or collected yet.
pub open spec fn fresh_peer() -> PeerView {
    PeerView { next_seq: 1, forwarded: Set::empty(), inbound: Map::empty() }
}

impl Default for Peer {
    fn default() -> (p: Peer)
        ensures
            p@ == fresh_peer(),
            p@.wf(),
    {
        let p = Peer { next_seq: 1, forwarded: HashSet::new(), inbound: HashMap::new() };
        assert(p@.inbound =~= Map::empty());
        p
    }
}

/// Whether a client event travels unreliably.
pub fn client_event_is_unreliable(payload: &[u8]) -> (r: bool)
    ensures
        r == travels_unreliably(payload@),
{
    match event_kind(payload) {
        Ok(e) => e == Event::CarState || e == Event::Ping || e == Event::Pong || e
            == Event::UpdateAvatarState,
        Err(_) => false,
    }
}

impl Peer {
    pub fn new() -> (p: Peer)
        ensures
            p@ == fresh_peer(),
            p@.wf(),
    {
        Peer::default()
    }

    /// A Steam message from the client -> a datagram for the beatermp socket.
    ///
    /// Steam's own flags are not used to decide this: the event discriminant
    /// is exact, whereas a Steam message does not tell how it was sent.
    pub fn from_steam(&mut self, payload: &[u8], now_secs: u64) -> (datagram: Vec<u8>)
        ensures
            (final(self)@, datagram@) == old(self)@.wrapped(payload@, now_secs),
    {
        if client_event_is_unreliable(payload) {
            encode_unreliable(payload)
        } else {
            let packet = Packet {
                payload: vstd::slice::slice_to_vec(payload),
                seq: self.next_seq,
                resend: 0,
                sent_at: now_secs,
                ordered_index: None,
                chunk: None,
            };
            self.next_seq = self.next_seq.wrapping_add(1);
            encode_packet(&packet)
        }
    }

    /// A datagram from beatermp -> the bytes to send back to beatermp (usually
    /// an ack) plus the messages for the Steam peer.
    pub fn from_beatermp(&mut self, datagram: &[u8]) -> (r: (Option<Vec<u8>>, Vec<ToSteam>))
        requires
            old(self)@.wf(),
        ensures
            final(self)@.wf(),
            ({
                let (after, reply, out) = old(self)@.translated(datagram@);
                &&& final(self)@ == after
                &&& (r.0 is Some <==> reply is Some)
                &&& (r.0 matches Some(bytes) ==> bytes@ == reply->Some_0)
                &&& messages(r.1@) == out
            }),
    {
        let frame = match parse(datagram) {
            Ok(frame) => frame,
            Err(_) => {
                let none: Vec<ToSteam> = Vec::new();
                assert(messages(none@) =~= Seq::empty());
                return (None, none);
            },
        };
        match frame {
            // The greeting echo is a UDP-only connectivity check, and acks are
            // for beatermp's reliability layer, which ends here.
            Frame::Greeting(_) | Frame::Ack(_) => {
                let none: Vec<ToSteam> = Vec::new();
                assert(messages(none@) =~= Seq::empty());
                (None, none)
            },
            Frame::Unreliable(payload) => {
                let out = vec![ToSteam::Unreliable(payload)];
                assert(messages(out@) =~= seq![ToSteamView::Unreliable(payload@)]);
                (None, out)
            },
            Frame::Reliable(packet) => {
                let ack = encode(&Frame::Ack(packet.seq));
                (Some(ack), self.deliver(packet))
            },
        }
    }

    /// Take in a packet; returns the messages it completes.
    #[verifier::rlimit(30)]
    fn deliver(&mut self, packet: Packet) -> (out: Vec<ToSteam>)
        requires
            old(self)@.wf(),
        ensures
            final(self)@.wf(),
            (final(self)@, messages(out@)) == old(self)@.delivered(packet@),
    {
        let ghost before = self@;
        let mut out: Vec<ToSteam> = Vec::new();
        assert(messages(out@) =~= Seq::empty());
        if !self.forwarded.insert(packet.seq) {
            assert(self@.forwarded =~= before.forwarded);
            return out;
        }
        assert(self@.inbound =~= before.inbound);
        let chunk = match packet.chunk {
            None => {
                out.push(ToSteam::Reliable(packet.payload));
                assert(messages(out@) =~= seq![ToSteamView::Reliable(packet@.payload)]);
                return out;
            },
            Some(chunk) => chunk,
        };
        let mut there = match self.inbound.remove(&chunk.id) {
            Some(there) => there,
            None => Reassembly::new(chunk.total_size),
        };
        assert(there@ == before.so_far(chunk));
        assert(there@.have <= there@.buf.len() <= u32::MAX);
        let size: usize = there.buf.len();
        let len: usize = packet.payload.len();
        if len > size || chunk.offset as usize > size - len {
            let ghost view = there@;
            self.inbound.insert(chunk.id, there);
            assert(self@.inbound =~= before.inbound.insert(chunk.id, view));
            return out;
        }
        there.put(chunk.offset as usize, packet.payload.as_slice());
        if there.have < size as u64 {
            let ghost view = there@;
            self.inbound.insert(chunk.id, there);
            assert(self@.inbound =~= before.inbound.insert(chunk.id, view));
            return out;
        }
        assert(self@.inbound =~= before.inbound.remove(chunk.id));
        out.push(ToSteam::Reliable(there.buf));
        assert(messages(out@) =~= seq![ToSteamView::Reliable(there@.buf)]);
        out
    }
}

// ---------------------------------------------------------------------------
// Laws
// ---------------------------------------------------------------------------

/// The state after `datagrams` came from beatermp, one after the other.
pub open spec fn after_all(s: PeerView, datagrams: Seq<Seq<u8>>) -> PeerView
    decreases datagrams.len(),
{
    if datagrams.len() == 0 {
        s
    } else {
        after_all(s, datagrams.drop_last()).translated(datagrams.last()).0
    }
}

/// Every reliable datagram is acked, whatever else comes of it, and nothing
/// else is.
pub proof fn law_every_reliable_datagram_is_acked(s: PeerView, datagram: Seq<u8>)
    ensures
        s.translated(datagram).1 == match frame::parsed(datagram) {
            Ok(FrameView::Reliable(p)) => Some(frame::frame_bytes(FrameView::Ack(p.seq))),
            _ => None,
        },
{
}

proof fn lemma_forwarded_stays(s: PeerView, datagrams: Seq<Seq<u8>>, seq: u32)
    requires
        s.forwarded.contains(seq),
    ensures
        after_all(s, datagrams).forwarded.contains(seq),
    decreases datagrams.len(),
{
    if datagrams.len() > 0 {
        lemma_forwarded_stays(s, datagrams.drop_last(), seq);
    }
}

/// A retransmit is acked again but not delivered to Steam a second time,
/// however many datagrams came in between.
pub proof fn law_retransmit_is_acked_but_not_delivered_twice(
    s: PeerView,
    first: Seq<u8>,
    between: Seq<Seq<u8>>,
    again: Seq<u8>,
    p: PacketView,
    q: PacketView,
)
    requires
        frame::parsed(first) == Ok::<FrameView, Error>(FrameView::Reliable(p)),
        frame::parsed(again) == Ok::<FrameView, Error>(FrameView::Reliable(q)),
        p.seq == q.seq,
    ensures
        ({
            let now = after_all(s.translated(first).0, between);
            now.translated(again) == (
                now,
                Some(frame::frame_bytes(FrameView::Ack(p.seq))),
                Seq::<ToSteamView>::empty(),
            )
        }),
{
    lemma_forwarded_stays(s.translated(first).0, between, p.seq);
}

/// A client event reaches beatermp as it was sent: its datagram is a frame that
/// carries the event's bytes.
pub proof fn law_wrapped_event_keeps_its_payload(s: PeerView, payload: Seq<u8>, now_secs: u64)
    requires
        payload.len() <= u64::MAX,
    ensures
        match frame::parsed(s.wrapped(payload, now_secs).1) {
            Ok(FrameView::Unreliable(carried)) => carried == payload && travels_unreliably(payload),
            Ok(FrameView::Reliable(p)) => p.payload == payload && p.seq == s.next_seq
                && !travels_unreliably(payload),
            _ => false,
        },
{
    let p = PacketView {
        payload,
        seq: s.next_seq,
        resend: 0,
        sent_at: now_secs,
        ordered_index: None,
        chunk: None,
    };
    frame::law_encoded_frame_parses_back(FrameView::Unreliable(payload));
    frame::law_encoded_frame_parses_back(FrameView::Reliable(p));
}

/// Reliable client events are numbered one after the other, from 1.
pub proof fn law_client_events_are_numbered(s: PeerView, payload: Seq<u8>, now_secs: u64)
    ensures
        s.wrapped(payload, now_secs).0.next_seq == link::wrap32(
            s.next_seq + (if travels_unreliably(payload) {
                0int
            } else {
                1
            }),
        ),
        fresh_peer().next_seq == 1,
{
}

/// The datagrams that carry `packets`.
pub open spec fn datagrams_of(packets: Seq<PacketView>) -> Seq<Seq<u8>> {
    packets.map_values(|p: PacketView| frame::frame_bytes(FrameView::Reliable(p)))
}

/// A datagram that carries a packet delivers it, and is acked.
proof fn lemma_packet_is_translated(s: PeerView, p: PacketView)
    requires
        p.payload.len() <= u64::MAX,
    ensures
        s.translated(frame::frame_bytes(FrameView::Reliable(p))) == (
            s.delivered(p).0,
            Some(frame::frame_bytes(FrameView::Ack(p.seq))),
            s.delivered(p).1,
        ),
{
    frame::law_encoded_frame_parses_back(FrameView::Reliable(p));
}

/// Nothing but the sequences of `packets` was forwarded in addition.
proof fn lemma_forwarded_grows(s: PeerView, packets: Seq<PacketView>, seq: u32)
    requires
        !s.forwarded.contains(seq),
        forall|k: int|
            0 <= k < packets.len() ==> (#[trigger] packets[k]).seq != seq
                && packets[k].payload.len() <= u64::MAX,
    ensures
        !after_all(s, datagrams_of(packets)).forwarded.contains(seq),
    decreases packets.len(),
{
    if packets.len() > 0 {
        let init = packets.drop_last();
        assert(packets[packets.len() - 1] == packets.last());
        assert(datagrams_of(packets).drop_last() =~= datagrams_of(init));
        lemma_forwarded_grows(s, init, seq);
        lemma_packet_is_translated(after_all(s, datagrams_of(init)), packets.last());
    }
}

/// An event that fits one packet reaches Steam with it.
pub proof fn law_small_event_is_delivered_at_once(
    s: PeerView,
    o: OutboundView,
    payload: Seq<u8>,
    ordered: bool,
    unix: u64,
)
    requires
        0 < payload.len() <= CHUNK_SIZE,
        !s.forwarded.contains(o.next_seq),
    ensures
        ({
            let ps = o.packets(payload, ordered, unix);
            let (_, reply, out) = s.translated(frame::frame_bytes(FrameView::Reliable(ps[0])));
            &&& ps.len() == 1
            &&& reply == Some(frame::frame_bytes(FrameView::Ack(o.next_seq)))
            &&& out == seq![ToSteamView::Reliable(payload)]
        }),
{
    let p = o.packets(payload, ordered, unix)[0];
    assert(p.payload =~= payload);
    assert(p.seq == o.next_seq);
    lemma_packet_is_translated(s, p);
}

/// The pieces of a chunked event, cut anywhere and arriving in any order, reach
/// Steam as one message with the last of them: the payload they were cut from.
/// Each piece is acked, and none of them is delivered on its own.
#[verifier::rlimit(30)]
pub proof fn law_chunked_event_is_reassembled_into_one_message(
    s: PeerView,
    packets: Seq<PacketView>,
    payload: Seq<u8>,
    id: u32,
)
    requires
        reassembly::carry(packets, payload, id),
        !s.inbound.contains_key(id),
        forall|k: int|
            0 <= k < packets.len() ==> !s.forwarded.contains((#[trigger] packets[k]).seq),
    ensures
        ({
            let ds = datagrams_of(packets);
            &&& forall|k: int|
                #![trigger ds.take(k)]
                0 <= k < ds.len() ==> {
                    let (_, reply, out) = after_all(s, ds.take(k)).translated(ds[k]);
                    &&& reply == Some(frame::frame_bytes(FrameView::Ack(packets[k].seq)))
                    &&& out == if k + 1 < ds.len() {
                        Seq::empty()
                    } else {
                        seq![ToSteamView::Reliable(payload)]
                    }
                }
            &&& after_all(s, ds).inbound == s.inbound
        }),
{
    let n = packets.len();
    let ds = datagrams_of(packets);
    let states = Seq::new((n + 1) as nat, |k: int| after_all(s, ds.take(k)));
    let partial = states.map_values(|now: PeerView| now.inbound);
    let outs = Seq::new(
        n,
        |k: int| {
            let out = states[k].delivered(packets[k]).1;
            if out.len() == 0 {
                None
            } else {
                Some(out[0]->Reliable_0)
            }
        },
    );
    let parts = reassembly::parts_of(packets);
    assert(ds.take(0) =~= Seq::empty());
    assert forall|k: int| 0 <= k < n implies {
        &&& reassembly::collects(
            partial[k],
            partial[k + 1],
            id,
            payload.len(),
            parts[k],
            #[trigger] outs[k],
        )
        &&& states[k].translated(ds[k]).1 == Some(
            frame::frame_bytes(FrameView::Ack(packets[k].seq)),
        )
        &&& states[k].translated(ds[k]).2 == match outs[k] {
            None => Seq::empty(),
            Some(whole) => seq![ToSteamView::Reliable(whole)],
        }
    } by {
        let p = packets[k];
        assert(reassembly::is_piece(p, id, payload.len()));
        assert(parts[k].is_of(payload));
        assert forall|j: int| 0 <= j < k implies (#[trigger] packets.take(k)[j]).seq != p.seq
            && packets.take(k)[j].payload.len() <= u64::MAX by {
            assert(packets[j].seq != packets[k].seq);
            assert(parts[j].is_of(payload));
        }
        assert(ds.take(k) =~= datagrams_of(packets.take(k)));
        lemma_forwarded_grows(s, packets.take(k), p.seq);
        lemma_packet_is_translated(states[k], p);
        assert(ds.take(k + 1).drop_last() =~= ds.take(k));
        assert(ds.take(k + 1).last() == ds[k]);
        assert(states[k + 1] == states[k].delivered(p).0);
        assert(states[k].so_far(p.chunk->Some_0) == reassembly::there_of(
            partial[k],
            id,
            payload.len(),
        ));
    }
    reassembly::lemma_parts_are_collected(partial, outs, id, parts, payload);
    assert(ds.take(n as int) =~= ds);
    assert forall|k: int|
        #![trigger ds.take(k)]
        0 <= k < ds.len() implies {
        let (_, reply, out) = after_all(s, ds.take(k)).translated(ds[k]);
        &&& reply == Some(frame::frame_bytes(FrameView::Ack(packets[k].seq)))
        &&& out == if k + 1 < ds.len() {
            Seq::empty()
        } else {
            seq![ToSteamView::Reliable(payload)]
        }
    } by {
        assert(states[k] == after_all(s, ds.take(k)));
        let out = outs[k];
    }
}

/// What beatermp sends outside its reliable stream reaches Steam as it was and
/// is not acked; acks and greetings end here.
pub proof fn law_other_frames_are_passed_or_swallowed(s: PeerView, datagram: Seq<u8>)
    ensures
        match frame::parsed(datagram) {
            Ok(FrameView::Unreliable(payload)) => s.translated(datagram) == (
                s,
                None::<Seq<u8>>,
                seq![ToSteamView::Unreliable(payload)],
            ),
            Ok(FrameView::Reliable(_)) => true,
            _ => s.translated(datagram) == (s, None::<Seq<u8>>, Seq::<ToSteamView>::empty()),
        },
{
}

/// Only car states, pings, pongs and avatar states travel unreliably: the events
/// 11, 21, 22 and 29.
pub proof fn law_streams_travel_unreliably(payload: Seq<u8>)
    ensures
        travels_unreliably(payload) <==> match crate::bytes::read_u32(payload, 0) {
            Ok((disc, _)) => disc == 11 || disc == 21 || disc == 22 || disc == 29,
            Err(_) => false,
        },
{
}

/// A reliable client event goes out whole, for the first time, with the time it
/// was sent at, and off the ordered stream.
pub proof fn law_reliable_event_goes_out_whole(s: PeerView, payload: Seq<u8>, now_secs: u64)
    requires
        payload.len() <= u64::MAX,
        !travels_unreliably(payload),
    ensures
        frame::parsed(s.wrapped(payload, now_secs).1) == Ok::<FrameView, Error>(
            FrameView::Reliable(
                PacketView {
                    payload,
                    seq: s.next_seq,
                    resend: 0,
                    sent_at: now_secs,
                    ordered_index: None,
                    chunk: None,
                },
            ),
        ),
{
    frame::law_encoded_frame_parses_back(
        FrameView::Reliable(
            PacketView {
                payload,
                seq: s.next_seq,
                resend: 0,
                sent_at: now_secs,
                ordered_index: None,
                chunk: None,
            },
        ),
    );
}

/// A new peer's client events are numbered from one, and nothing has come for it
/// yet. A client event that travels reliably takes the next number; one that does
/// not takes none, and goes out bare.
pub proof fn law_numbers_start_at_one(s: PeerView, payload: Seq<u8>, now_secs: u64, n: u32)
    ensures
        fresh_peer().next_seq == 1,
        !fresh_peer().forwarded.contains(n) && !fresh_peer().inbound.contains_key(n),
        travels_unreliably(payload) ==> s.wrapped(payload, now_secs) == (s, seq![1u8] + payload),
        !travels_unreliably(payload) ==> s.wrapped(payload, now_secs).0 == (PeerView {
            next_seq: ((s.next_seq + 1) % 0x1_0000_0000) as u32,
            ..s
        }),
{
}

/// A piece of a chunked payload goes where it says, into the payload that the
/// first piece under its number announced, and touches no other payload; only the
/// piece that completes its payload has something delivered, all of it at once.
pub proof fn law_piece_goes_where_it_belongs(s: PeerView, p: PacketView, other: u32)
    requires
        p.chunk is Some,
        !s.forwarded.contains(p.seq),
        other != p.chunk->Some_0.id,
    ensures
        ({
            let chunk = p.chunk->Some_0;
            let after = s.delivered(p).0;
            let out = s.delivered(p).1;
            let known = s.inbound.contains_key(chunk.id);
            let size = if known {
                s.inbound[chunk.id].buf.len() as int
            } else {
                chunk.total_size as int
            };
            let had = if known {
                s.inbound[chunk.id].have
            } else {
                0
            };
            let end = chunk.offset + p.payload.len();
            let have = had + p.payload.len();
            &&& after.next_seq == s.next_seq
            &&& after.forwarded == s.forwarded.insert(p.seq)
            &&& after.inbound.contains_key(other) == s.inbound.contains_key(other)
            &&& s.inbound.contains_key(other) ==> after.inbound[other] == s.inbound[other]
            &&& end > size ==> out.len() == 0 && after.inbound.contains_key(chunk.id)
                && after.inbound[chunk.id].have == had && (known ==> after.inbound[chunk.id]
                == s.inbound[chunk.id])
            &&& end <= size && have < size ==> {
                let buf = after.inbound[chunk.id].buf;
                &&& out.len() == 0
                &&& after.inbound.contains_key(chunk.id) && after.inbound[chunk.id].have == have
                &&& buf.len() == size && buf.subrange(chunk.offset as int, end) == p.payload
                &&& known ==> forall|i: int|
                    0 <= i < size && !(chunk.offset <= i < end) ==> #[trigger] buf[i]
                        == s.inbound[chunk.id].buf[i]
            }
            &&& end <= size && have >= size ==> {
                &&& !after.inbound.contains_key(chunk.id)
                &&& out.len() == 1
                &&& out[0] matches ToSteamView::Reliable(buf) && buf.len() == size
                    && buf.subrange(chunk.offset as int, end) == p.payload
            }
        }),
{
    let chunk = p.chunk->Some_0;
    let grown = s.so_far(chunk).with(chunk.offset as int, p.payload);
    let end = chunk.offset + p.payload.len();
    if end <= grown.buf.len() {
        assert(grown.buf.subrange(chunk.offset as int, end) =~= p.payload);
    }
}

} // verus!
