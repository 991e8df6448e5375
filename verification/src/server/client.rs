//! What the server knows about a connected client, and how it is told things.

use vstd::prelude::*;

use crate::link;
use crate::link::{DatagramView, Inbound, InboundView, Outbound, OutboundView, Outbox};
use crate::player::{ClientInfo, ClientInfoView, PlayerId};

verus! {

/// The time a step happens at.
#[derive(Debug, Clone, Copy, PartialEq, Eq, Structural)]
pub struct Clock {
    /// Nanoseconds since the server started.
    pub now: u64,
    /// Whole seconds since the Unix epoch.
    pub unix: u64,
    /// Seconds since the server started, as the bits of an `f32`.
    pub seconds: u32,
}

/// One reliable message, on the ordered stream or not.
pub struct Message {
    pub payload: Vec<u8>,
    pub ordered: bool,
}

/// What a [`Message`] holds.
#[verifier::ext_equal]
pub struct MessageView {
    pub payload: Seq<u8>,
    pub ordered: bool,
}

impl View for Message {
    type V = MessageView;

    open spec fn view(&self) -> MessageView {
        MessageView { payload: self.payload@, ordered: self.ordered }
    }
}

/// The messages of `v`, by their views.
pub open spec fn messages(v: Seq<Message>) -> Seq<MessageView> {
    v.map_values(|m: Message| m@)
}

/// A message on the ordered stream.
pub open spec fn ordered(payload: Seq<u8>) -> MessageView {
    MessageView { payload, ordered: true }
}

/// A message outside the ordered stream.
pub open spec fn unordered(payload: Seq<u8>) -> MessageView {
    MessageView { payload, ordered: false }
}

/// What this server knows about a connected client.
pub struct Client {
    /// The key of the client's address.
    pub addr: u64,
    /// Identity as the client announced it; `None` until its `ClientInfo`.
    pub info: Option<ClientInfo>,
    /// Assigned slot. `u32::MAX` is the host in the game's own captures, so
    /// assigned client ids start at 1; this server never splits screens.
    pub id: PlayerId,
    pub last_seen: u64,
    /// The client's `GarageState` payload, kept so it can be committed to
    /// every other lobby member. `Some` once the join handshake is complete
    /// and the client is in the lobby.
    pub garage: Option<Vec<u8>>,
    pub ready: bool,
    /// Spawned into the current race. A client that joins mid-race sits in
    /// the lobby and must not hold up the countdown or the race end.
    pub racing: bool,
    /// Crossed the finish in the current race.
    pub finished: bool,
    /// Reliable packets to this client.
    pub out: Outbound,
    /// Reliable packets from this client.
    pub seen: Inbound,
    /// Clients waiting for this one's `VisitGarageResponse`; the response
    /// does not name the visitor, so the host has to remember who asked.
    pub visitors: Vec<u64>,
    /// Last avatar-state relay; a real host forwards ~100 Hz input at ~20 Hz.
    pub last_avatar: u64,
    /// Rotation index this player wants raced next, from `!vote`. Dies with
    /// the client, so a leaver's vote never counts.
    pub vote: Option<usize>,
}

/// What a [`Client`] holds.
#[verifier::ext_equal]
pub struct ClientView {
    pub addr: u64,
    pub info: Option<ClientInfoView>,
    pub id: PlayerId,
    pub last_seen: u64,
    pub garage: Option<Seq<u8>>,
    pub ready: bool,
    pub racing: bool,
    pub finished: bool,
    pub out: OutboundView,
    pub seen: InboundView,
    pub visitors: Seq<u64>,
    pub last_avatar: u64,
    pub vote: Option<usize>,
}

impl View for Client {
    type V = ClientView;

    open spec fn view(&self) -> ClientView {
        ClientView {
            addr: self.addr,
            info: match self.info {
                Some(info) => Some(info@),
                None => None,
            },
            id: self.id,
            last_seen: self.last_seen,
            garage: match self.garage {
                Some(garage) => Some(garage@),
                None => None,
            },
            ready: self.ready,
            racing: self.racing,
            finished: self.finished,
            out: self.out@,
            seen: self.seen@,
            visitors: self.visitors@,
            last_avatar: self.last_avatar,
            vote: self.vote,
        }
    }
}

/// A client that just connected.
pub open spec fn newcomer(addr: u64, client_id: u32, now: u64) -> ClientView {
    ClientView {
        addr,
        info: None,
        id: PlayerId { client_id, player_index: 1 },
        last_seen: now,
        garage: None,
        ready: false,
        racing: false,
        finished: false,
        out: OutboundView { next_seq: 1, next_ordered: 0, next_chunk: 1, pending: Seq::empty() },
        seen: InboundView { processed: Seq::empty(), partial: Map::empty() },
        visitors: Seq::empty(),
        last_avatar: now,
        vote: None,
    }
}

impl ClientView {
    /// The vote is for one of `maps` rotation entries, and no payload being
    /// reassembled is too large.
    pub open spec fn wf(self, maps: nat) -> bool {
        &&& self.vote matches Some(index) ==> index < maps
        &&& self.seen.bounded()
    }

    /// Joined: the garage is known.
    pub open spec fn in_lobby(self) -> bool {
        self.garage is Some
    }

    /// In the lobby, with a vote for rotation entry `index`.
    pub open spec fn wants(self, index: int) -> bool {
        self.in_lobby() && match self.vote {
            Some(v) => v == index,
            None => false,
        }
    }

    pub open spec fn name(self) -> Seq<char> {
        match self.info {
            Some(info) => info.name,
            None => Seq::empty(),
        }
    }

    /// Entity index for this client's car.
    pub open spec fn entity(self) -> u32 {
        link::wrap32(0x1000 + self.id.client_id)
    }

    /// With `msgs` queued, one after the other.
    pub open spec fn told(self, msgs: Seq<MessageView>, clock: Clock) -> ClientView
        decreases msgs.len(),
    {
        if msgs.len() == 0 {
            self
        } else {
            let before = self.told(msgs.drop_last(), clock);
            let m = msgs.last();
            ClientView {
                out: before.out.queued(m.payload, m.ordered, clock.now, clock.unix),
                ..before
            }
        }
    }

    /// The datagrams that tell `msgs`.
    pub open spec fn mail(self, msgs: Seq<MessageView>, clock: Clock) -> Seq<DatagramView>
        decreases msgs.len(),
    {
        if msgs.len() == 0 {
            Seq::empty()
        } else {
            let before = self.told(msgs.drop_last(), clock);
            let m = msgs.last();
            self.mail(msgs.drop_last(), clock) + link::carried(
                self.addr,
                before.out.packets(m.payload, m.ordered, clock.unix),
            )
        }
    }
}

/// Telling a client something changes its outgoing link alone.
pub proof fn lemma_told_keeps(c: ClientView, msgs: Seq<MessageView>, clock: Clock)
    ensures
        c.told(msgs, clock) == (ClientView { out: c.told(msgs, clock).out, ..c }),
    decreases msgs.len(),
{
    if msgs.len() > 0 {
        lemma_told_keeps(c, msgs.drop_last(), clock);
    }
}

impl Client {
    pub fn new(addr: u64, client_id: u32, now: u64) -> (c: Client)
        ensures
            c@ == newcomer(addr, client_id, now),
            c@.seen.bounded(),
    {
        let c = Client {
            addr,
            info: None,
            id: PlayerId { client_id, player_index: 1 },
            last_seen: now,
            garage: None,
            ready: false,
            racing: false,
            finished: false,
            out: Outbound::new(),
            seen: Inbound::new(),
            visitors: Vec::new(),
            last_avatar: now,
            vote: None,
        };
        assert(c@ =~= newcomer(addr, client_id, now));
        c
    }

    pub fn in_lobby(&self) -> (r: bool)
        ensures
            r == self@.in_lobby(),
    {
        self.garage.is_some()
    }

    pub fn name(&self) -> (s: &str)
        ensures
            s@ == self@.name(),
    {
        match &self.info {
            Some(info) => info.name.as_str(),
            None => {
                proof {
                    reveal_strlit("");
                    assert(""@ =~= Seq::empty());
                }
                ""
            },
        }
    }

    /// Entity index for this client's car. Any value distinct from the host's
    /// works: it is a label clients echo back in `CarState`.
    pub fn entity(&self) -> (e: u32)
        ensures
            e == self@.entity(),
    {
        self.id.client_id.wrapping_add(0x1000)
    }

    /// Queue `msgs`, one after the other.
    pub fn tell(&mut self, msgs: &[Message], clock: Clock, outbox: &mut Outbox)
        ensures
            final(self)@ == old(self)@.told(messages(msgs@), clock),
            final(outbox)@ == old(outbox)@ + old(self)@.mail(messages(msgs@), clock),
    {
        let ghost before = self@;
        let ghost all = messages(msgs@);
        let mut i: usize = 0;
        assert(all.take(0) =~= Seq::empty());
        assert(outbox@ =~= old(outbox)@ + before.mail(all.take(0), clock));
        while i < msgs.len()
            invariant
                i <= msgs@.len(),
                all == messages(msgs@),
                before == old(self)@,
                self@ == before.told(all.take(i as int), clock),
                outbox@ == old(outbox)@ + before.mail(all.take(i as int), clock),
            decreases msgs@.len() - i,
        {
            let ghost here = self@;
            let ghost sent = outbox@;
            let m = &msgs[i];
            proof {
                lemma_told_keeps(before, all.take(i as int), clock);
                assert(all.take(i + 1).drop_last() =~= all.take(i as int));
                assert(all.take(i + 1).last() == all[i as int]);
                assert(all[i as int] == m@);
            }
            self.out.queue(
                self.addr,
                m.payload.as_slice(),
                m.ordered,
                clock.now,
                clock.unix,
                outbox,
            );
            assert(self@ =~= (ClientView {
                out: here.out.queued(m@.payload, m@.ordered, clock.now, clock.unix),
                ..here
            }));
            assert(outbox@ =~= old(outbox)@ + before.mail(all.take(i + 1), clock));
            i = i + 1;
        }
        assert(all.take(i as int) =~= all);
    }
}

} // verus!
