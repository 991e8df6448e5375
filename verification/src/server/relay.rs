//! Garage visits, and passing events on to the rest of the lobby.

use vstd::prelude::*;

use crate::bytes;
use crate::event;
use crate::event::{event_discriminant, event_kind, Event};
use crate::frame::encode_unreliable;
use crate::link::elapsed;
use crate::messages;
use crate::messages::{
    broadcast_twin, broadcast_verbatim, clock_of, decode_visit_request, encode_clock,
    encode_garage_visit_broadcast, encode_location_in_garage, encode_visit_garage_response,
    encode_with_sender, encode_with_sender_disc, CarState,
};
use crate::player::PlayerId;
use crate::server::client;
use crate::server::client::{ClientView, Clock, Message};
use crate::server::note;
use crate::server::note::{Note, NoteView};
use crate::server::state;
use crate::server::state::{Audience, Server, ServerView};

verus! {

/// A real host relayed ~100 Hz avatar updates from a garage visitor at ~20 Hz,
/// reliably; going faster only grows the retransmit queues.
pub const AVATAR_RELAY_INTERVAL: u64 = 50_000_000;

impl ServerView {
    /// With `visitor` shown in `owner`'s garage to everyone but `from`.
    pub open spec fn visit_shown(
        self,
        from: u64,
        visitor: PlayerId,
        owner: PlayerId,
        clock: Clock,
    ) -> ServerView {
        self.told(
            Audience::LobbyBut(from),
            seq![
                client::ordered(messages::garage_visit_bytes(visitor, owner)),
                client::ordered(messages::location_in_garage_bytes(visitor, owner)),
            ],
            clock,
        )
    }

    /// With `from`'s request to visit a garage taken, and what became of it. The
    /// host answers for its own garage. Any other request goes to the owner
    /// alone, since clients answer any request they receive; the reply comes
    /// back without a visitor id, hence the note of who is waiting.
    pub open spec fn visit_requested(self, from: u64, payload: Seq<u8>, clock: Clock) -> (
        ServerView,
        Option<NoteView>,
    ) {
        match messages::read_id_event(payload, Event::RequestVisitGarage, "RequestVisitGarage") {
            Err(error) => (self, Some(NoteView::BadEvent { what: "RequestVisitGarage", error })),
            Ok((owner, _)) => {
                let visitor = self.client(from).id;
                let i = state::seat_of_player(self.clients, owner);
                if !self.knows(from) {
                    (self, None)
                } else if owner == PlayerId::host() {
                    (
                        self.told(
                            Audience::One(from),
                            seq![
                                client::ordered(
                                    messages::visit_garage_response_bytes(
                                        PlayerId::host(),
                                        self.host.garage,
                                        self.host.prefix,
                                        self.host.scene,
                                    ),
                                ),
                            ],
                            clock,
                        ).visit_shown(from, visitor, owner, clock),
                        Some(NoteView::Visiting(owner)),
                    )
                } else if i >= self.clients.len() {
                    (self, Some(NoteView::UnknownOwner(owner)))
                } else {
                    let c = self.clients[i];
                    (
                        self.with_client(
                            i,
                            ClientView { visitors: c.visitors.push(from), ..c },
                        ).told(
                            Audience::One(c.addr),
                            seq![client::ordered(payload)],
                            clock,
                        ).visit_shown(from, visitor, owner, clock),
                        Some(NoteView::Visiting(owner)),
                    )
                }
            },
        }
    }

    /// With `payload` sent to each of `visitors`, one after the other.
    pub open spec fn forwarded(self, visitors: Seq<u64>, payload: Seq<u8>, clock: Clock) -> ServerView
        decreases visitors.len(),
    {
        if visitors.len() == 0 {
            self
        } else {
            self.forwarded(visitors.drop_last(), payload, clock).told(
                Audience::One(visitors.last()),
                seq![client::ordered(payload)],
                clock,
            )
        }
    }

    /// With `from`'s garage sent to everyone who asked for it, and what became
    /// of it.
    pub open spec fn visit_answered(self, from: u64, payload: Seq<u8>, clock: Clock) -> (
        ServerView,
        Option<NoteView>,
    ) {
        if !self.knows(from) {
            (self, None)
        } else {
            let c = self.client(from);
            (
                self.with_client(
                    self.seat(from),
                    ClientView { visitors: Seq::empty(), ..c },
                ).forwarded(c.visitors, payload, clock),
                Some(NoteView::VisitAnswered { visitors: c.visitors.len() as usize }),
            )
        }
    }

    /// With a lobby member's event re-tagged as the broadcast `twin`, and what
    /// became of it.
    pub open spec fn retagged(
        self,
        from: u64,
        disc: u32,
        twin: u32,
        payload: Seq<u8>,
        reliable: bool,
        clock: Clock,
    ) -> (ServerView, Option<NoteView>) {
        (
            self.told(
                Audience::LobbyBut(from),
                seq![
                    client::ordered(
                        messages::with_sender_bytes(twin, self.client(from).id, payload),
                    ),
                ],
                clock,
            ),
            Some(
                NoteView::Retagged {
                    disc,
                    twin,
                    reliable,
                    peers: self.size(Audience::LobbyBut(from)) as usize,
                },
            ),
        )
    }

    /// An event that is passed on re-tagged: it has a broadcast twin, and its
    /// sender is in the lobby.
    pub open spec fn has_twin(self, from: u64, payload: Seq<u8>) -> bool {
        &&& bytes::read_u32(payload, 0) is Ok
        &&& messages::twin_of(bytes::read_u32(payload, 0)->Ok_0.0) is Some
        &&& self.hosts(from)
    }

    /// An event that is passed on as it is: the chat line alone.
    pub open spec fn is_verbatim(payload: Seq<u8>) -> bool {
        match bytes::read_u32(payload, 0) {
            Ok((disc, _)) => disc == Event::Chat.disc(),
            Err(_) => false,
        }
    }

    /// With an event that the server does not model passed on, and what became
    /// of it, as a real host does: a client event with a broadcast twin is
    /// re-tagged with the sender, the chat line is forwarded as it is. Anything
    /// else is consumed, be it another client event or too short to be one;
    /// forwarding it would put something no peer expects on the wire. `reliable`
    /// is how the event came.
    pub open spec fn passed_on(
        self,
        from: u64,
        payload: Seq<u8>,
        reliable: bool,
        clock: Clock,
    ) -> (ServerView, Option<NoteView>) {
        match bytes::read_u32(payload, 0) {
            Err(error) => (self, Some(NoteView::BadEvent { what: "event", error })),
            Ok((disc, _)) => if self.has_twin(from, payload) {
                self.retagged(
                    from,
                    disc,
                    messages::twin_of(disc)->Some_0,
                    payload,
                    reliable,
                    clock,
                )
            } else if !ServerView::is_verbatim(payload) {
                (self, Some(NoteView::Consumed { disc, reliable }))
            } else {
                (
                    if reliable {
                        self.told(Audience::LobbyBut(from), seq![client::ordered(payload)], clock)
                    } else {
                        self.posted(Audience::LobbyBut(from), state::loose(payload))
                    },
                    Some(
                        NoteView::Relayed {
                            event: Event::Chat,
                            reliable,
                            peers: self.size(Audience::LobbyBut(from)) as usize,
                        },
                    ),
                )
            },
        }
    }

    /// With an unreliable event taken, and what became of it.
    pub open spec fn heard_loosely(self, from: u64, payload: Seq<u8>, clock: Clock) -> (
        ServerView,
        Option<NoteView>,
    ) {
        match event::event_of(payload) {
            Ok(Event::Ping) => match messages::read_clock(payload) {
                // Echo the clock we were just given, not our own.
                Ok((theirs, _)) => (
                    self.sent(from, state::loose(messages::clock_bytes(Event::Pong, theirs))),
                    None,
                ),
                Err(_) => (self, None),
            },
            Ok(Event::Pong) => (self, None),
            Ok(Event::CarState) => if !self.hosts(from) {
                (self, None)
            } else {
                match messages::read_car_state(payload) {
                    Ok((car, _)) => (
                        self.posted(
                            Audience::LobbyBut(from),
                            state::loose(
                                messages::car_broadcast_bytes(self.client(from).id, car),
                            ),
                        ),
                        None,
                    ),
                    Err(error) => (self, Some(NoteView::BadEvent { what: "CarState", error })),
                }
            },
            Ok(Event::UpdateAvatarState) => if !self.hosts(from) || elapsed(
                clock.now,
                self.client(from).last_avatar,
            ) < AVATAR_RELAY_INTERVAL {
                (self, None)
            } else {
                let c = self.client(from);
                (
                    self.with_client(
                        self.seat(from),
                        ClientView { last_avatar: clock.now, ..c },
                    ).told(
                        Audience::LobbyBut(from),
                        seq![
                            client::ordered(
                                messages::with_sender_bytes(
                                    Event::UpdateAvatarStateBroadcast.disc(),
                                    c.id,
                                    payload,
                                ),
                            ),
                        ],
                        clock,
                    ),
                    None,
                )
            },
            _ => self.passed_on(from, payload, false, clock),
        }
    }
}

impl Server {
    /// Show `visitor` in `owner`'s garage to everyone but `from`.
    fn show_visit(&mut self, from: u64, visitor: PlayerId, owner: PlayerId, clock: Clock)
        ensures
            final(self)@ == old(self)@.visit_shown(from, visitor, owner, clock),
            old(self)@.wf() ==> final(self)@.wf(),
    {
        let msgs: [Message; 2] = [
            Message { payload: encode_garage_visit_broadcast(visitor, owner), ordered: true },
            Message { payload: encode_location_in_garage(visitor, owner), ordered: true },
        ];
        assert(client::messages(msgs@) =~= seq![
            client::ordered(messages::garage_visit_bytes(visitor, owner)),
            client::ordered(messages::location_in_garage_bytes(visitor, owner)),
        ]);
        self.tell(Audience::LobbyBut(from), msgs.as_slice(), clock);
    }

    /// A client wants to see a garage.
    pub fn request_visit(&mut self, from: u64, payload: Vec<u8>, clock: Clock) -> (note: Option<
        Note,
    >)
        requires
            old(self)@.wf(),
        ensures
            (final(self)@, note::noted(note)) == old(self)@.visit_requested(from, payload@, clock),
            final(self)@.wf(),
    {
        let ghost before = self@;
        let owner = match decode_visit_request(payload.as_slice()) {
            Ok(owner) => owner,
            Err(error) => return Some(Note::BadEvent { what: "RequestVisitGarage", error }),
        };
        let at: usize = self.seat(from);
        if at == self.clients.len() {
            return None;
        }
        let visitor = self.clients[at].id;
        if owner == PlayerId::host() {
            let response = encode_visit_garage_response(
                PlayerId::host(),
                self.host.garage.as_slice(),
                &self.host.interior,
            );
            self.tell_one(Audience::One(from), response, true, clock);
        } else {
            // Clients answer any request they receive, so only the owner may
            // see it; the reply comes back without a visitor id, hence the note
            // of who is waiting.
            let i: usize = self.seat_of_player(owner);
            if i == self.clients.len() {
                return Some(Note::UnknownOwner(owner));
            }
            let ghost c = before.clients[i as int];
            let owner_addr: u64 = self.clients[i].addr;
            self.clients[i].visitors.push(from);
            assert(self.clients@[i as int]@ =~= ClientView {
                visitors: c.visitors.push(from),
                ..c
            });
            assert(self@.clients =~= before.clients.update(
                i as int,
                ClientView { visitors: c.visitors.push(from), ..c },
            ));
            assert(self@.clients_wf());
            self.tell_one(Audience::One(owner_addr), payload, true, clock);
        }
        self.show_visit(from, visitor, owner, clock);
        Some(Note::Visiting(owner))
    }

    /// A client shows its garage to those who asked.
    pub fn answer_visit(&mut self, from: u64, payload: Vec<u8>, clock: Clock) -> (note: Option<
        Note,
    >)
        requires
            old(self)@.wf(),
        ensures
            (final(self)@, note::noted(note)) == old(self)@.visit_answered(from, payload@, clock),
            final(self)@.wf(),
    {
        let ghost before = self@;
        let i: usize = self.seat(from);
        if i == self.clients.len() {
            return None;
        }
        let ghost c = before.client(from);
        let mut visitors: Vec<u64> = Vec::new();
        std::mem::swap(&mut visitors, &mut self.clients[i].visitors);
        assert(visitors@ == c.visitors);
        assert(self.clients@[i as int]@ =~= ClientView { visitors: Seq::empty(), ..c });
        let ghost emptied = before.with_client(
            i as int,
            ClientView { visitors: Seq::empty(), ..c },
        );
        assert(self@.clients =~= emptied.clients);
        assert(self@.clients_wf());
        let msgs: [Message; 1] = [Message { payload, ordered: true }];
        let ghost body = payload@;
        assert(client::messages(msgs@) =~= seq![client::ordered(body)]);
        let mut k: usize = 0;
        assert(visitors@.take(0) =~= Seq::empty());
        while k < visitors.len()
            invariant
                k <= visitors@.len(),
                client::messages(msgs@) == seq![client::ordered(body)],
                self@ == emptied.forwarded(visitors@.take(k as int), body, clock),
                self@.wf(),
            decreases visitors@.len() - k,
        {
            assert(visitors@.take(k + 1).drop_last() =~= visitors@.take(k as int));
            assert(visitors@.take(k + 1).last() == visitors@[k as int]);
            self.tell(Audience::One(visitors[k]), msgs.as_slice(), clock);
            k = k + 1;
        }
        assert(visitors@.take(k as int) =~= visitors@);
        Some(Note::VisitAnswered { visitors: visitors.len() })
    }

    /// Re-tag a lobby member's event with its id and send it to the others.
    pub fn retag(
        &mut self,
        from: u64,
        disc: u32,
        twin: u32,
        payload: &[u8],
        reliable: bool,
        clock: Clock,
    ) -> (note: Option<Note>)
        requires
            old(self)@.wf(),
            old(self)@.hosts(from),
        ensures
            (final(self)@, note::noted(note)) == old(self)@.retagged(
                from,
                disc,
                twin,
                payload@,
                reliable,
                clock,
            ),
            final(self)@.wf(),
    {
        let i: usize = self.seat(from);
        let peers: usize = self.size(Audience::LobbyBut(from));
        let broadcast = encode_with_sender_disc(twin, self.clients[i].id, payload);
        self.tell_one(Audience::LobbyBut(from), broadcast, true, clock);
        Some(Note::Retagged { disc, twin, reliable, peers })
    }

    /// Whether the client with the key `addr` is connected and in the lobby.
    pub fn hosts(&self, addr: u64) -> (r: bool)
        ensures
            r == self@.hosts(addr),
    {
        let i: usize = self.seat(addr);
        i < self.clients.len() && self.clients[i].in_lobby()
    }

    /// Pass on an event that the server does not model. Both the reliable and
    /// the unreliable receive paths use this: what a twin is re-tagged to does
    /// not depend on how the client's frame arrived.
    pub fn pass_on(&mut self, from: u64, payload: Vec<u8>, reliable: bool, clock: Clock) -> (note:
        Option<Note>)
        requires
            old(self)@.wf(),
        ensures
            (final(self)@, note::noted(note)) == old(self)@.passed_on(from, payload@, reliable, clock),
            final(self)@.wf(),
    {
        let disc: u32 = match event_discriminant(payload.as_slice()) {
            Ok(disc) => disc,
            Err(error) => return Some(Note::BadEvent { what: "event", error }),
        };
        if let Some(twin) = broadcast_twin(disc) {
            if self.hosts(from) {
                return self.retag(from, disc, twin, payload.as_slice(), reliable, clock);
            }
        }
        if !broadcast_verbatim(disc) {
            return Some(Note::Consumed { disc, reliable });
        }
        let peers: usize = self.size(Audience::LobbyBut(from));
        if reliable {
            self.tell_one(Audience::LobbyBut(from), payload, true, clock);
        } else {
            self.post(Audience::LobbyBut(from), payload.as_slice());
        }
        Some(Note::Relayed { event: Event::Chat, reliable, peers })
    }

    /// Take an event that came unreliably.
    pub fn handle_unreliable(&mut self, from: u64, payload: Vec<u8>, clock: Clock) -> (note: Option<
        Note,
    >)
        requires
            old(self)@.wf(),
        ensures
            (final(self)@, note::noted(note)) == old(self)@.heard_loosely(from, payload@, clock),
            final(self)@.wf(),
    {
        let ghost before = self@;
        match event_kind(payload.as_slice()) {
            Ok(Event::Ping) => {
                // Echo the clock we were just given, not our own.
                if let Ok(theirs) = clock_of(payload.as_slice()) {
                    let pong = encode_clock(Event::Pong, theirs);
                    self.outbox.send(from, encode_unreliable(pong.as_slice()));
                }
                None
            },
            Ok(Event::Pong) => None,
            Ok(Event::CarState) => {
                let i: usize = self.seat(from);
                if i == self.clients.len() || !self.clients[i].in_lobby() {
                    return None;
                }
                match CarState::decode(payload.as_slice()) {
                    Ok(car) => {
                        let broadcast = car.encode_broadcast(self.clients[i].id);
                        self.post(Audience::LobbyBut(from), broadcast.as_slice());
                        None
                    },
                    Err(error) => Some(Note::BadEvent { what: "CarState", error }),
                }
            },
            Ok(Event::UpdateAvatarState) => {
                let i: usize = self.seat(from);
                if i == self.clients.len() || !self.clients[i].in_lobby() {
                    return None;
                }
                if elapsed(clock.now, self.clients[i].last_avatar) < AVATAR_RELAY_INTERVAL {
                    return None;
                }
                let ghost c = before.client(from);
                let broadcast = encode_with_sender(
                    Event::UpdateAvatarStateBroadcast,
                    self.clients[i].id,
                    payload.as_slice(),
                );
                self.clients[i].last_avatar = clock.now;
                assert(self.clients@[i as int]@ =~= ClientView { last_avatar: clock.now, ..c });
                assert(self@.clients =~= before.clients.update(
                    i as int,
                    ClientView { last_avatar: clock.now, ..c },
                ));
                assert(self@.clients_wf());
                self.tell_one(Audience::LobbyBut(from), broadcast, true, clock);
                None
            },
            _ => self.pass_on(from, payload, false, clock),
        }
    }
}

} // verus!
