//! One datagram from a client, from the envelope to the event inside.

use vstd::prelude::*;

use crate::event;
use crate::event::{event_kind, Event};
use crate::frame;
use crate::frame::{encode, parse, Frame, FrameView, GREETING_ID};
use crate::link;
use crate::link::{Received, ReceivedView};
use crate::messages;
use crate::messages::decode_crossed_finish;
use crate::server::client;
use crate::server::client::{Client, ClientView, Clock};
use crate::server::note;
use crate::server::note::{Note, NoteView};
use crate::server::race::RACE_END_DELAY;
use crate::server::state;
use crate::server::state::{Server, ServerView};

verus! {

impl ServerView {
    /// With a finish taken, and what became of it.
    pub open spec fn finish_taken(self, from: u64, payload: Seq<u8>, clock: Clock) -> (
        ServerView,
        Option<NoteView>,
    ) {
        match messages::read_crossed_finish(payload) {
            Err(error) => (self, Some(NoteView::BadEvent { what: "CrossedFinish", error })),
            Ok((finish, _)) => if !self.racing {
                (self, Some(NoteView::FinishOutsideRace))
            } else {
                (
                    self.crossed(from, finish, clock),
                    Some(NoteView::CrossedFinish { time_bits: finish.time_bits }),
                )
            },
        }
    }

    /// With a client's event re-tagged as `twin`, if it is in the lobby.
    pub open spec fn retagged_if_hosted(
        self,
        from: u64,
        kind: Event,
        twin: Event,
        payload: Seq<u8>,
        clock: Clock,
    ) -> (ServerView, Option<NoteView>) {
        if !self.hosts(from) {
            (self, None)
        } else {
            self.retagged(from, kind.disc(), twin.disc(), payload, true, clock)
        }
    }

    /// With a whole event from `from` taken, and what became of it.
    pub open spec fn heard(self, from: u64, payload: Seq<u8>, clock: Clock) -> (
        ServerView,
        Option<NoteView>,
    ) {
        match event::event_of(payload) {
            Ok(Event::ClientInfo) => self.introduced(from, payload, clock),
            Ok(Event::GarageState) => self.garaged(from, payload, clock),
            Ok(Event::Chat) => self.chatted(from, payload, clock),
            Ok(Event::CrossedFinish) => self.finish_taken(from, payload, clock),
            Ok(Event::Ready) => self.readied(from, payload, clock),
            Ok(Event::Disconnect) => self.disconnected(from, payload, clock),
            Ok(Event::RequestVisitGarage) => self.visit_requested(from, payload, clock),
            Ok(Event::VisitGarageResponse) => self.visit_answered(from, payload, clock),
            Ok(Event::UpdateLocation) => self.retagged_if_hosted(
                from,
                Event::UpdateLocation,
                Event::UpdateLocationBroadcast,
                payload,
                clock,
            ),
            Ok(Event::StopGarageVisit) => self.retagged_if_hosted(
                from,
                Event::StopGarageVisit,
                Event::StopGarageVisitBroadcast,
                payload,
                clock,
            ),
            _ => self.passed_on(from, payload, true, clock),
        }
    }

    /// With `from` known and seen just now: any valid datagram proves the peer
    /// is alive and (re)creates its entry.
    pub open spec fn seen(self, from: u64, clock: Clock) -> ServerView {
        let s = if self.knows(from) {
            self
        } else {
            ServerView {
                clients: self.clients.push(
                    client::newcomer(from, self.next_client_id, clock.now),
                ),
                next_client_id: link::wrap32(self.next_client_id + 1),
                ..self
            }
        };
        s.with_client(s.seat(from), ClientView { last_seen: clock.now, ..s.client(from) })
    }

    /// With a greeting echoed, and what became of it: it is a bare connectivity
    /// check.
    pub open spec fn greeted(self, from: u64, id: u32) -> (ServerView, Option<NoteView>) {
        (
            self.sent(from, frame::frame_bytes(FrameView::Greeting(id))),
            Some(
                if id != GREETING_ID {
                    NoteView::UnexpectedGreeting(id)
                } else {
                    NoteView::GreetingEchoed
                },
            ),
        )
    }

    /// With an ack taken, and what became of it.
    pub open spec fn acked(self, from: u64, seq: u32) -> (ServerView, Option<NoteView>) {
        let c = self.client(from);
        let out = c.out.acked(seq);
        (
            self.with_client(self.seat(from), ClientView { out, ..c }),
            if out.pending.len() == c.out.pending.len() {
                Some(NoteView::AckForNothing(seq))
            } else {
                None
            },
        )
    }

    /// With a reliable packet taken, and what became of it. It is acked first,
    /// unconditionally: a lost ack is why the peer retransmits, and a retransmit
    /// must not be applied twice.
    pub open spec fn packet_taken(self, from: u64, p: frame::PacketView, clock: Clock) -> (
        ServerView,
        Option<NoteView>,
    ) {
        let c = self.client(from);
        let (seen, got) = c.seen.received(p);
        let s = self.sent(from, frame::frame_bytes(FrameView::Ack(p.seq))).with_client(
            self.seat(from),
            ClientView { seen, ..c },
        );
        match got {
            ReceivedView::Again => (s, Some(NoteView::ReAcked { seq: p.seq, resend: p.resend })),
            ReceivedView::PastEnd(id) => (s, Some(NoteView::BadChunk(id))),
            ReceivedView::Partial => (s, None),
            ReceivedView::Whole(payload) => s.heard(from, payload, clock),
        }
    }

    /// With a datagram taken, and what became of it.
    pub open spec fn handled(self, from: u64, datagram: Seq<u8>, clock: Clock) -> (
        ServerView,
        Option<NoteView>,
    ) {
        match frame::parsed(datagram) {
            Err(error) => (
                self,
                Some(NoteView::Ignored { len: datagram.len() as usize, error }),
            ),
            Ok(FrameView::Greeting(id)) => self.seen(from, clock).greeted(from, id),
            Ok(FrameView::Ack(seq)) => self.seen(from, clock).acked(from, seq),
            Ok(FrameView::Unreliable(payload)) => self.seen(from, clock).heard_loosely(
                from,
                payload,
                clock,
            ),
            Ok(FrameView::Reliable(p)) => self.seen(from, clock).packet_taken(from, p, clock),
        }
    }
}

/// Seeing a client keeps the server sound, and finds it.
pub proof fn lemma_seen_keeps(s: ServerView, from: u64, clock: Clock)
    requires
        s.wf(),
    ensures
        s.seen(from, clock).wf(),
        s.seen(from, clock).knows(from),
        s.seen(from, clock).client(from).seen == (if s.knows(from) {
            s.client(from).seen
        } else {
            client::newcomer(from, s.next_client_id, clock.now).seen
        }),
{
    let grown = if s.knows(from) {
        s
    } else {
        ServerView {
            clients: s.clients.push(client::newcomer(from, s.next_client_id, clock.now)),
            next_client_id: link::wrap32(s.next_client_id + 1),
            ..s
        }
    };
    state::lemma_seat_of(s.clients, from);
    state::lemma_seat_of(grown.clients, from);
    let n = s.clients.len() as int;
    if !s.knows(from) {
        assert(grown.clients[n].addr == from);
        assert(grown.seat(from) == n);
        assert forall|i: int| 0 <= i < n implies grown.clients[i] == s.clients[i] by {}
        assert forall|i: int, j: int| 0 <= i < j < grown.clients.len() implies (
        #[trigger] grown.clients[i]).addr != (#[trigger] grown.clients[j]).addr by {
            assert(grown.clients[i] == s.clients[i]);
            if j < n {
                assert(grown.clients[j] == s.clients[j]);
            }
        }
    }
    let i = grown.seat(from);
    let after = s.seen(from, clock);
    assert(after.clients == grown.clients.update(
        i,
        ClientView { last_seen: clock.now, ..grown.clients[i] },
    ));
    state::lemma_same_seat(grown.clients, after.clients, from);
}

impl Server {
    /// Take a whole event.
    pub fn handle_event(&mut self, from: u64, payload: Vec<u8>, clock: Clock) -> (note: Option<
        Note,
    >)
        requires
            old(self)@.wf(),
            old(self)@.knows(from),
            clock.now + RACE_END_DELAY <= u64::MAX,
        ensures
            (final(self)@, note::noted(note)) == old(self)@.heard(from, payload@, clock),
            final(self)@.wf(),
    {
        match event_kind(payload.as_slice()) {
            Ok(Event::ClientInfo) => self.introduce(from, payload.as_slice(), clock),
            Ok(Event::GarageState) => self.take_garage(from, payload, clock),
            Ok(Event::Chat) => self.chat(from, payload, clock),
            Ok(Event::CrossedFinish) => {
                let finish = match decode_crossed_finish(payload.as_slice()) {
                    Ok(finish) => finish,
                    Err(error) => return Some(Note::BadEvent { what: "CrossedFinish", error }),
                };
                if !self.racing {
                    return Some(Note::FinishOutsideRace);
                }
                self.car_finished(from, finish, clock);
                Some(Note::CrossedFinish { time_bits: finish.time_bits })
            },
            Ok(Event::Ready) => self.take_ready(from, payload.as_slice(), clock),
            Ok(Event::Disconnect) => self.disconnect(from, payload.as_slice(), clock),
            Ok(Event::RequestVisitGarage) => self.request_visit(from, payload, clock),
            Ok(Event::VisitGarageResponse) => self.answer_visit(from, payload, clock),
            // Client events whose broadcast twin is the same body tagged with
            // the sender.
            Ok(Event::UpdateLocation) => {
                if !self.hosts(from) {
                    return None;
                }
                self.retag(
                    from,
                    Event::UpdateLocation.to_u32(),
                    Event::UpdateLocationBroadcast.to_u32(),
                    payload.as_slice(),
                    true,
                    clock,
                )
            },
            Ok(Event::StopGarageVisit) => {
                if !self.hosts(from) {
                    return None;
                }
                self.retag(
                    from,
                    Event::StopGarageVisit.to_u32(),
                    Event::StopGarageVisitBroadcast.to_u32(),
                    payload.as_slice(),
                    true,
                    clock,
                )
            },
            // Everything else, including events this server does not model.
            _ => self.pass_on(from, payload, true, clock),
        }
    }

    /// Know `from`, and note that it was seen just now; returns its place.
    fn see(&mut self, from: u64, clock: Clock) -> (i: usize)
        requires
            old(self)@.wf(),
        ensures
            final(self)@ == old(self)@.seen(from, clock),
            final(self)@.wf(),
            final(self)@.knows(from),
            i == final(self)@.seat(from),
            i < final(self).clients@.len(),
            final(self).clients@[i as int]@ == final(self)@.client(from),
    {
        let ghost before = self@;
        proof {
            lemma_seen_keeps(before, from, clock);
        }
        if self.seat(from) == self.clients.len() {
            let id: u32 = self.next_client_id;
            self.next_client_id = id.wrapping_add(1);
            self.clients.push(Client::new(from, id, clock.now));
            assert(self@.clients =~= before.clients.push(client::newcomer(from, id, clock.now)));
            proof {
                state::lemma_seat_of(before.clients, from);
                state::lemma_seat_of(self@.clients, from);
                assert(self@.clients[before.clients.len() as int].addr == from);
            }
        }
        let ghost grown = self@;
        let i: usize = self.seat(from);
        self.clients[i].last_seen = clock.now;
        assert(self.clients@[i as int]@ =~= ClientView {
            last_seen: clock.now,
            ..grown.clients[i as int]
        });
        assert(self@.clients =~= before.seen(from, clock).clients);
        proof {
            state::lemma_same_seat(grown.clients, self@.clients, from);
        }
        i
    }

    /// Handle one datagram. Returns what became of it, for logging; after
    /// [`Note::CrossedFinish`] the caller is to call
    /// [`Server::announce_finish`].
    pub fn handle(&mut self, from: u64, datagram: &[u8], clock: Clock) -> (note: Option<Note>)
        requires
            old(self)@.wf(),
            clock.now + RACE_END_DELAY <= u64::MAX,
        ensures
            (final(self)@, note::noted(note)) == old(self)@.handled(from, datagram@, clock),
            final(self)@.wf(),
    {
        let ghost before = self@;
        let frame = match parse(datagram) {
            Ok(frame) => frame,
            Err(error) => return Some(Note::Ignored { len: datagram.len(), error }),
        };
        let i: usize = self.see(from, clock);
        let ghost seen = self@;
        proof {
            lemma_seen_keeps(before, from, clock);
        }
        match frame {
            // The greeting is a bare connectivity check: echo it unchanged.
            Frame::Greeting(id) => {
                self.outbox.send(from, encode(&Frame::Greeting(id)));
                if id != GREETING_ID {
                    return Some(Note::UnexpectedGreeting(id));
                }
                Some(Note::GreetingEchoed)
            },
            Frame::Ack(seq) => {
                let ghost c = seen.client(from);
                let found: bool = self.clients[i].out.ack(seq);
                assert(self.clients@[i as int]@ =~= ClientView { out: c.out.acked(seq), ..c });
                assert(self@.clients =~= seen.clients.update(
                    i as int,
                    ClientView { out: c.out.acked(seq), ..c },
                ));
                assert(self@.clients_wf());
                if found {
                    None
                } else {
                    Some(Note::AckForNothing(seq))
                }
            },
            Frame::Unreliable(payload) => self.handle_unreliable(from, payload, clock),
            Frame::Reliable(p) => {
                // Ack first, unconditionally: a lost ack is why the peer
                // retransmits, and a retransmit must not be applied twice.
                let ghost c = seen.client(from);
                let ghost packet = p@;
                let seq: u32 = p.seq;
                let resend: u8 = p.resend;
                assert(c.wf(seen.maps.len())) by {
                    assert(seen.clients[i as int].wf(seen.maps.len()));
                }
                self.outbox.send(from, encode(&Frame::Ack(seq)));
                let got = self.clients[i].seen.receive(p);
                let ghost after = c.seen.received(packet).0;
                assert(self.clients@[i as int]@ =~= ClientView { seen: after, ..c });
                assert(self@.clients =~= seen.clients.update(
                    i as int,
                    ClientView { seen: after, ..c },
                ));
                assert(self@.clients_wf());
                proof {
                    state::lemma_same_seat(seen.clients, self@.clients, from);
                }
                match got {
                    Received::Again => Some(Note::ReAcked { seq, resend }),
                    Received::PastEnd(id) => Some(Note::BadChunk(id)),
                    Received::Partial => None,
                    Received::Whole(payload) => self.handle_event(from, payload, clock),
                }
            },
        }
    }
}

} // verus!
