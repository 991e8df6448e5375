//! What is relayed between clients, who is known, and what time does, as the
//! clients see it.

use vstd::prelude::*;

use crate::bytes;
use crate::error::Error;
use crate::event;
use crate::event::Event;
use crate::frame;
use crate::frame::{FrameView, PacketView};
use crate::le;
use crate::link;
use crate::link::{DatagramView, InboundView, OutboundView, PendingView};
use crate::link_laws;
use crate::messages;
use crate::messages::CarStateView;
use crate::player::PlayerId;
use crate::server::client;
use crate::server::client::{ClientView, Clock, MessageView};
use crate::server::handle;
use crate::server::hearing;
use crate::server::race_laws;
use crate::server::start_laws;
use crate::server::state;
use crate::server::state::{Audience, ServerView};

verus! {

// ---------------------------------------------------------------------------
// What is sent unreliably
// ---------------------------------------------------------------------------

/// A step sends the client with the key `addr` exactly these payloads, outside
/// the reliable stream, and leaves its link as it is.
pub open spec fn sees(
    before: ServerView,
    after: ServerView,
    addr: u64,
    payloads: Seq<Seq<u8>>,
) -> bool {
    &&& hearing::adds_mail(before, after)
    &&& before.knows(addr) && after.knows(addr)
    &&& hearing::mail_to(before, after, addr) == payloads.map_values(
        |p: Seq<u8>| DatagramView { to: addr, bytes: seq![1u8] + p },
    )
    &&& after.client(addr).out == before.client(addr).out
}

/// Of what is posted to an audience, a member gets one, and anyone else nothing.
proof fn lemma_own_post(clients: Seq<ClientView>, to: Audience, bytes: Seq<u8>, addr: u64)
    requires
        race_laws::distinct(clients),
    ensures
        ({
            let i = state::seat_of(clients, addr);
            state::all_posted(clients, to, bytes).filter(|d: DatagramView| d.to == addr) == if i
                < clients.len() && to.has(clients[i]) {
                seq![DatagramView { to: addr, bytes }]
            } else {
                Seq::empty()
            }
        }),
    decreases clients.len(),
{
    let f = |d: DatagramView| d.to == addr;
    let i = state::seat_of(clients, addr);
    state::lemma_seat_of(clients, addr);
    if clients.len() == 0 {
        reveal(Seq::filter);
        assert(state::all_posted(clients, to, bytes).filter(f) =~= Seq::empty());
    } else {
        let init = clients.drop_last();
        let c = clients.last();
        let n = clients.len() - 1;
        assert(forall|k: int| 0 <= k < n ==> init[k] == clients[k]);
        lemma_own_post(init, to, bytes, addr);
        state::lemma_seat_of(init, addr);
        let before = state::all_posted(init, to, bytes);
        let own = if to.has(c) {
            seq![DatagramView { to: c.addr, bytes }]
        } else {
            Seq::empty()
        };
        Seq::filter_distributes_over_add(before, own, f);
        if c.addr == addr {
            assert forall|k: int| 0 <= k < n implies (#[trigger] init[k]).addr != addr by {
                assert(clients[k].addr != clients[n].addr);
            }
            assert(i == n);
            hearing::lemma_all_pass(own, f);
            assert(before.filter(f) + own =~= own);
        } else {
            hearing::lemma_none_pass(own, f);
            assert(before.filter(f) + Seq::empty() =~= before.filter(f));
            if i < n {
                hearing::lemma_key_finds(init, i);
            } else {
                let k = state::seat_of(init, addr);
                if k < n {
                    assert(clients[k].addr == addr);
                }
            }
        }
    }
}

/// What is posted to an audience, its members see, and nobody else.
proof fn lemma_sees_posted(s: ServerView, to: Audience, payload: Seq<u8>, addr: u64)
    requires
        race_laws::distinct(s.clients),
        s.knows(addr),
    ensures
        sees(
            s,
            s.posted(to, state::loose(payload)),
            addr,
            if to.has(s.client(addr)) {
                seq![payload]
            } else {
                Seq::empty()
            },
        ),
{
    let after = s.posted(to, state::loose(payload));
    let n = s.outbox.len() as int;
    state::lemma_seat_of(s.clients, addr);
    lemma_own_post(s.clients, to, state::loose(payload), addr);
    assert(after.outbox.take(n) =~= s.outbox);
    assert(after.outbox.skip(n) =~= state::all_posted(s.clients, to, state::loose(payload)));
    let seen = if to.has(s.client(addr)) {
        seq![payload]
    } else {
        Seq::empty()
    };
    assert(hearing::mail_to(s, after, addr) =~= seen.map_values(
        |p: Seq<u8>| DatagramView { to: addr, bytes: seq![1u8] + p },
    ));
}

proof fn lemma_sees_nothing(s: ServerView, addr: u64)
    requires
        s.knows(addr),
    ensures
        sees(s, s, addr, Seq::empty()),
{
    let n = s.outbox.len() as int;
    assert(s.outbox.take(n) =~= s.outbox);
    assert(s.outbox.skip(n) =~= Seq::empty());
    reveal(Seq::filter);
    assert(hearing::mail_to(s, s, addr) =~= Seq::<Seq<u8>>::empty().map_values(
        |p: Seq<u8>| DatagramView { to: addr, bytes: seq![1u8] + p },
    ));
}

/// A lobby member's car state is seen by everyone else in the lobby, with its
/// owner; the owner itself and those outside the lobby see nothing. A car state
/// from outside the lobby changes nothing.
pub proof fn law_car_state_reaches_the_others(
    s: ServerView,
    from: u64,
    payload: Seq<u8>,
    car: CarStateView,
    end: int,
    i: int,
    clock: Clock,
)
    requires
        s.wf(),
        s.knows(from),
        event::event_of(payload) == Ok::<Event, Error>(Event::CarState),
        messages::read_car_state(payload) == Ok::<(CarStateView, int), Error>((car, end)),
        0 <= i < s.clients.len(),
    ensures
        ({
            let after = s.heard_loosely(from, payload, clock).0;
            &&& after.clients == s.clients
            &&& sees(
                s,
                after,
                s.clients[i].addr,
                if s.client(from).garage is Some && s.clients[i].garage is Some
                    && s.clients[i].addr != from {
                    seq![messages::car_broadcast_bytes(s.client(from).id, car)]
                } else {
                    Seq::empty()
                },
            )
            &&& s.client(from).garage is None ==> after == s
        }),
{
    let addr = s.clients[i].addr;
    hearing::lemma_key_finds(s.clients, i);
    lemma_sees_nothing(s, addr);
    lemma_sees_posted(
        s,
        Audience::LobbyBut(from),
        messages::car_broadcast_bytes(s.client(from).id, car),
        addr,
    );
}

/// A chat line that comes outside the reliable stream is passed on that way, as
/// it was, to everyone else in the lobby.
pub proof fn law_loose_chat_is_passed_on(
    s: ServerView,
    from: u64,
    payload: Seq<u8>,
    i: int,
    clock: Clock,
)
    requires
        s.wf(),
        event::event_of(payload) == Ok::<Event, Error>(Event::Chat),
        0 <= i < s.clients.len(),
    ensures
        ({
            let after = s.heard_loosely(from, payload, clock).0;
            &&& after.clients == s.clients
            &&& sees(
                s,
                after,
                s.clients[i].addr,
                if s.clients[i].garage is Some && s.clients[i].addr != from {
                    seq![payload]
                } else {
                    Seq::empty()
                },
            )
        }),
{
    hearing::lemma_key_finds(s.clients, i);
    lemma_sees_posted(s, Audience::LobbyBut(from), payload, s.clients[i].addr);
}

// ---------------------------------------------------------------------------
// Twins
// ---------------------------------------------------------------------------

/// A lobby member's event that is broadcast as `twin` is heard by everyone else
/// in the lobby, on the ordered stream: the twin's number, who sent it, and the
/// event's body. Its sender and those outside the lobby hear nothing. A Ready and
/// a garage that come reliably, and a car or avatar state that does not, are
/// another matter.
pub proof fn law_twin_is_heard(
    s: ServerView,
    from: u64,
    payload: Seq<u8>,
    disc: u32,
    twin: u32,
    i: int,
    clock: Clock,
)
    requires
        s.wf(),
        s.knows(from),
        s.client(from).garage is Some,
        payload.len() >= 4,
        bytes::read_u32(payload, 0) == Ok::<(u32, int), Error>((disc, 4)),
        messages::twin_of(disc) == Some(twin),
        0 <= i < s.clients.len(),
    ensures
        ({
            let msgs = if s.clients[i].garage is Some && s.clients[i].addr != from {
                seq![
                    client::ordered(
                        le::u32_bytes(twin) + le::u32_bytes(s.client(from).id.client_id)
                            + le::u32_bytes(s.client(from).id.player_index) + payload.skip(4),
                    ),
                ]
            } else {
                Seq::empty()
            };
            &&& disc != 6 && disc != 16 ==> hearing::hears(
                s,
                s.heard(from, payload, clock).0,
                s.clients[i].addr,
                msgs,
                clock,
            )
            &&& disc != 11 && disc != 29 ==> hearing::hears(
                s,
                s.heard_loosely(from, payload, clock).0,
                s.clients[i].addr,
                msgs,
                clock,
            )
        }),
{
    let addr = s.clients[i].addr;
    let id = s.client(from).id;
    let told = seq![client::ordered(messages::with_sender_bytes(twin, id, payload))];
    hearing::lemma_key_finds(s.clients, i);
    hearing::lemma_hears_told(s, Audience::LobbyBut(from), told, addr, clock);
    assert(messages::with_sender_bytes(twin, id, payload) =~= le::u32_bytes(twin)
        + le::u32_bytes(id.client_id) + le::u32_bytes(id.player_index) + payload.skip(4));
}

/// An avatar update of a lobby member is heard by everyone else in the lobby,
/// unless one was heard less than 50 milliseconds ago.
pub proof fn law_avatar_update_is_heard(
    s: ServerView,
    from: u64,
    payload: Seq<u8>,
    i: int,
    clock: Clock,
)
    requires
        s.wf(),
        s.knows(from),
        s.client(from).garage is Some,
        payload.len() >= 4,
        event::event_of(payload) == Ok::<Event, Error>(Event::UpdateAvatarState),
        0 <= i < s.clients.len(),
    ensures
        ({
            let after = s.heard_loosely(from, payload, clock).0;
            let soon = clock.now < s.client(from).last_avatar + 50_000_000;
            &&& soon ==> after == s
            &&& hearing::hears(
                s,
                after,
                s.clients[i].addr,
                if !soon && s.clients[i].garage is Some && s.clients[i].addr != from {
                    seq![
                        client::ordered(
                            le::u32_bytes(30) + le::u32_bytes(s.client(from).id.client_id)
                                + le::u32_bytes(s.client(from).id.player_index) + payload.skip(
                                4,
                            ),
                        ),
                    ]
                } else {
                    Seq::empty()
                },
                clock,
            )
        }),
{
    let addr = s.clients[i].addr;
    let c = s.client(from);
    let none = Seq::<MessageView>::empty();
    let soon = clock.now < c.last_avatar + 50_000_000;
    hearing::lemma_key_finds(s.clients, i);
    state::lemma_seat_of(s.clients, from);
    hearing::lemma_hears_nothing(s, s, addr, clock);
    if !soon {
        let set = s.with_client(s.seat(from), ClientView { last_avatar: clock.now, ..c });
        let told = seq![client::ordered(messages::with_sender_bytes(30, c.id, payload))];
        let heard = if s.clients[i].garage is Some && addr != from {
            told
        } else {
            none
        };
        hearing::lemma_hears_nothing(s, set, addr, clock);
        hearing::lemma_heard(s, set, addr, none, clock);
        assert(set.client(addr).addr == addr && set.client(addr).garage == s.clients[i].garage);
        hearing::lemma_hears_told(set, Audience::LobbyBut(from), told, addr, clock);
        hearing::lemma_hears_twice(
            s,
            set,
            set.told(Audience::LobbyBut(from), told, clock),
            addr,
            none,
            heard,
            clock,
        );
        assert(none + heard =~= heard);
        assert(messages::with_sender_bytes(30, c.id, payload) =~= le::u32_bytes(30)
            + le::u32_bytes(c.id.client_id) + le::u32_bytes(c.id.player_index) + payload.skip(4));
    }
}

// ---------------------------------------------------------------------------
// Who is known
// ---------------------------------------------------------------------------

/// Any datagram that parses makes its sender known, behind everyone who came
/// before: with the next client id, no name, no garage, nothing to ack and
/// nothing waiting. Of a sender that is known it only notes the time.
pub proof fn law_sender_is_known(s: ServerView, from: u64, clock: Clock)
    requires
        s.wf(),
    ensures
        ({
            let after = s.seen(from, clock);
            let n = s.clients.len() as int;
            &&& after.outbox == s.outbox && after.racing == s.racing && after.maps == s.maps
                && after.map_index == s.map_index
            &&& !s.knows(from) ==> {
                let c = after.clients[n];
                &&& after.clients.len() == n + 1
                &&& after.next_client_id == (s.next_client_id + 1) % 0x1_0000_0000
                &&& after.clients.take(n) == s.clients
                &&& c.addr == from && c.last_seen == clock.now
                &&& c.id == (PlayerId { client_id: s.next_client_id, player_index: 1 })
                &&& c.info is None && c.garage is None && c.vote is None
                &&& !c.ready && !c.racing && !c.finished
                &&& c.out.next_seq == 1 && c.out.next_ordered == 0 && c.out.pending.len() == 0
                &&& c.seen.processed.len() == 0 && c.visitors.len() == 0
            }
            &&& s.knows(from) ==> {
                &&& after.clients.len() == n
                &&& after.next_client_id == s.next_client_id
                &&& forall|i: int|
                    0 <= i < n ==> #[trigger] after.clients[i] == if s.clients[i].addr == from {
                        ClientView { last_seen: clock.now, ..s.clients[i] }
                    } else {
                        s.clients[i]
                    }
            }
        }),
{
    let after = s.seen(from, clock);
    let n = s.clients.len() as int;
    state::lemma_seat_of(s.clients, from);
    if s.knows(from) {
        assert forall|i: int| 0 <= i < n implies #[trigger] after.clients[i]
            == if s.clients[i].addr == from {
            ClientView { last_seen: clock.now, ..s.clients[i] }
        } else {
            s.clients[i]
        } by {
            if s.clients[i].addr == from {
                hearing::lemma_key_finds(s.clients, i);
            }
        }
    } else {
        let grown = s.clients.push(client::newcomer(from, s.next_client_id, clock.now));
        state::lemma_seat_of(grown, from);
        assert(grown[n].addr == from);
        assert(forall|i: int| 0 <= i < n ==> grown[i] == s.clients[i]);
        assert(state::seat_of(grown, from) == n);
        assert(after.clients =~= grown.update(n, ClientView { last_seen: clock.now, ..grown[n] }));
        assert(after.clients.take(n) =~= s.clients);
    }
}

/// An ack takes the packet of that number out of what waits for its sender's
/// acks, and nothing else; it is not answered.
pub proof fn law_ack_is_taken(s: ServerView, from: u64, seq: u32, clock: Clock)
    requires
        s.wf(),
        s.knows(from),
    ensures
        ({
            let after = s.handled(from, frame::frame_bytes(FrameView::Ack(seq)), clock).0;
            &&& after.outbox == s.outbox
            &&& after.clients.len() == s.clients.len()
            &&& forall|i: int|
                0 <= i < s.clients.len() && (#[trigger] s.clients[i]).addr != from
                    ==> after.clients[i] == s.clients[i]
            &&& forall|p: PendingView|
                #![trigger after.client(from).out.pending.contains(p)]
                after.client(from).out.pending.contains(p) <==> s.client(
                    from,
                ).out.pending.contains(p) && p.packet.seq != seq
        }),
{
    frame::law_encoded_frame_parses_back(FrameView::Ack(seq));
    let seen = s.seen(from, clock);
    law_sender_is_known(s, from, clock);
    state::lemma_seat_of(s.clients, from);
    handle::lemma_seen_keeps(s, from, clock);
    assert forall|i: int| 0 <= i < s.clients.len() implies (#[trigger] s.clients[i]).addr
        == seen.clients[i].addr by {
        assert(seen.clients[i] == seen.clients[i]);
    }
    state::lemma_same_seat(s.clients, seen.clients, from);
    let i = s.seat(from);
    let c = seen.client(from);
    assert(seen.clients[i] == ClientView { last_seen: clock.now, ..s.clients[i] });
    let after = seen.acked(from, seq).0;
    link_laws::law_acked_packet_stops_waiting(c.out, seq);
    assert forall|k: int| 0 <= k < seen.clients.len() implies (#[trigger] seen.clients[k]).addr
        == after.clients[k].addr by {}
    state::lemma_same_seat(seen.clients, after.clients, from);
    assert forall|k: int|
        0 <= k < s.clients.len() && (#[trigger] s.clients[k]).addr != from implies after.clients[k]
        == s.clients[k] by {
        assert(seen.clients[k] == s.clients[k]);
    }
}

// ---------------------------------------------------------------------------
// Time
// ---------------------------------------------------------------------------

/// A client is silent for too long once more than fifteen seconds have passed
/// since it was last heard from; a packet is due once a second has since it was
/// last sent; and it is given up after fifteen resends.
pub proof fn law_patience(c: ClientView, o: OutboundView, p: PendingView, now: u64)
    ensures
        c.stale(now) <==> now > c.last_seen + 15_000_000_000,
        p.due(now) <==> now >= p.last_sent + 1_000_000_000,
        o.alive().contains(p) <==> o.pending.contains(p) && p.packet.resend < 15,
{
    let live = |p: PendingView| p.packet.resend < link::MAX_RESENDS;
    crate::seqs::lemma_filter_holds(o.pending, live);
    if o.alive().contains(p) {
        let k = choose|k: int| 0 <= k < o.alive().len() && o.alive()[k] == p;
        assert(live(o.alive()[k]));
    }
    if o.pending.contains(p) && p.packet.resend < 15 {
        assert(live(p));
    }
}

/// A tick ends with one ping for every client that is left, with the server's
/// clock, in the order they came.
pub proof fn law_tick_pings_everyone(s: ServerView, i: int, clock: Clock)
    requires
        0 <= i < s.ticked(clock).clients.len(),
    ensures
        ({
            let after = s.ticked(clock);
            let n = after.clients.len() as int;
            let m = after.outbox.len() as int;
            &&& n <= m
            &&& after.outbox[m - n + i] == DatagramView {
                to: after.clients[i].addr,
                bytes: seq![1u8] + le::u32_bytes(21) + le::u32_bytes(clock.seconds),
            }
        }),
{
    let retried = s.evicted(s.stale(clock.now), clock).retried(clock.now);
    let after = s.ticked(clock);
    let ping = state::loose(messages::clock_bytes(Event::Ping, clock.seconds));
    lemma_posted_to_everyone(retried.clients, ping);
    let pings = state::all_posted(retried.clients, Audience::Everyone, ping);
    assert(after.outbox == retried.outbox + pings);
    assert(ping =~= seq![1u8] + le::u32_bytes(21) + le::u32_bytes(clock.seconds));
    assert(pings[i] == DatagramView { to: retried.clients[i].addr, bytes: ping });
}

proof fn lemma_posted_to_everyone(clients: Seq<ClientView>, bytes: Seq<u8>)
    ensures
        state::all_posted(clients, Audience::Everyone, bytes) == Seq::new(
            clients.len(),
            |i: int| DatagramView { to: clients[i].addr, bytes },
        ),
    decreases clients.len(),
{
    let all = Seq::new(clients.len(), |i: int| DatagramView { to: clients[i].addr, bytes });
    if clients.len() > 0 {
        lemma_posted_to_everyone(clients.drop_last(), bytes);
    }
    assert(state::all_posted(clients, Audience::Everyone, bytes) =~= all);
}

/// The server ticks once a second, and streams the phantom's car state twenty
/// times a second to everyone in the lobby while a race runs; before either is
/// due, nothing happens by itself.
pub proof fn law_time_is_kept(s: ServerView, i: int, clock: Clock)
    requires
        s.wf(),
        0 <= i < s.clients.len(),
        clock.now + 1_000_000_000 <= u64::MAX,
    ensures
        s.ticked_if_due(clock).next_tick == if clock.now >= s.next_tick {
            (clock.now + 1_000_000_000) as u64
        } else {
            s.next_tick
        },
        clock.now < s.next_tick ==> s.ticked_if_due(clock) == s,
        clock.now < s.next_tick && !s.racing ==> s.advanced(clock) == s,
        ({
            let streams = s.racing && clock.now >= s.next_car_state;
            let after = s.streamed_if_due(clock);
            &&& after.clients == s.clients && after.racing == s.racing
            &&& after.next_car_state == if streams {
                (clock.now + 50_000_000) as u64
            } else {
                s.next_car_state
            }
            &&& sees(
                s,
                after,
                s.clients[i].addr,
                if streams && s.clients[i].garage is Some {
                    seq![s.live_host_state(clock)]
                } else {
                    Seq::empty()
                },
            )
        }),
{
    let addr = s.clients[i].addr;
    hearing::lemma_key_finds(s.clients, i);
    lemma_sees_nothing(s, addr);
    lemma_sees_posted(s, Audience::Lobby, s.live_host_state(clock), addr);
    let posted = s.posted(Audience::Lobby, state::loose(s.live_host_state(clock)));
    let after = s.streamed_if_due(clock);
    if s.racing && clock.now >= s.next_car_state {
        assert(after.outbox == posted.outbox);
        assert(hearing::mail_to(s, after, addr) == hearing::mail_to(s, posted, addr));
    }
}

/// The phantom's streamed state is its captured one, standing where it parks:
/// but for the pose in the first 28 of its last 94 bytes, the flag that clears
/// three seconds after the race went, and the clock, nothing differs.
#[verifier::rlimit(30)]
pub proof fn law_phantom_is_streamed_where_it_parks(s: ServerView, started: Clock, clock: Clock)
    requires
        s.wf(),
    ensures
        ({
            let race = s.race_started(started);
            let live = race.live_host_state(clock);
            let n = s.host.state.len() as int;
            let t = s.maps[s.map_index];
            let pose = crate::server::start_laws::parked(
                t,
                crate::server::start_laws::joined(s),
            );
            &&& live.len() == n
            &&& live.subrange(n - 94, n - 66) == messages::pose_bytes(pose@)
            &&& live[n - 10] == 1
            &&& live.subrange(n - 4, n) == le::u32_bytes(clock.seconds)
            &&& forall|k: int|
                0 <= k < n && !(n - 94 <= k < n - 66) && k != n - 10 && !(n - 4 <= k < n)
                    ==> #[trigger] live[k] == s.host.state[k]
        }),
{
    broadcast use crate::le::group_widths;

    let race = s.race_started(started);
    let live = race.live_host_state(clock);
    let n = s.host.state.len() as int;
    let t = s.maps[s.map_index];
    assert(t.wf());
    crate::server::start_laws::lemma_lobby_size(s);
    let pose = crate::server::start_laws::parked(t, crate::server::start_laws::joined(s));
    assert(s.host_pose() == pose);
    messages::lemma_pose_bytes_width(pose@);
    assert(live.subrange(n - 94, n - 66) =~= messages::pose_bytes(pose@));
    assert(live.subrange(n - 4, n) =~= le::u32_bytes(clock.seconds));
}

/// The phantom's flag stays up until three seconds after the race went.
pub proof fn law_phantom_is_held_for_three_seconds(s: ServerView, clock: Clock)
    requires
        s.host_state.len() >= 94,
    ensures
        s.live_host_state(clock)[s.host_state.len() - 10] == (if s.race_go_at is None || clock.now
            < s.race_go_at->Some_0 + 3_000_000_000 {
            1u8
        } else {
            0u8
        }),
{
    broadcast use crate::le::group_widths;

}

// ---------------------------------------------------------------------------
// What mail carries
// ---------------------------------------------------------------------------

/// The payload bytes that reliable datagrams carry, one behind the other.
pub open spec fn carried_bytes(mail: Seq<DatagramView>) -> Seq<u8>
    decreases mail.len(),
{
    if mail.len() == 0 {
        Seq::empty()
    } else {
        carried_bytes(mail.drop_last()) + match frame::parsed(mail[mail.len() - 1].bytes) {
            Ok(FrameView::Reliable(p)) => p.payload,
            _ => Seq::empty(),
        }
    }
}

/// The payloads of messages, one behind the other.
pub open spec fn said_bytes(msgs: Seq<MessageView>) -> Seq<u8>
    decreases msgs.len(),
{
    if msgs.len() == 0 {
        Seq::empty()
    } else {
        said_bytes(msgs.drop_last()) + msgs[msgs.len() - 1].payload
    }
}

proof fn lemma_carried_adds(a: Seq<DatagramView>, b: Seq<DatagramView>)
    ensures
        carried_bytes(a + b) == carried_bytes(a) + carried_bytes(b),
    decreases b.len(),
{
    if b.len() == 0 {
        assert(a + b =~= a);
        assert(carried_bytes(a) + carried_bytes(b) =~= carried_bytes(a));
    } else {
        lemma_carried_adds(a, b.drop_last());
        assert((a + b).drop_last() =~= a + b.drop_last());
        assert((a + b)[(a + b).len() - 1] == b[b.len() - 1]);
        assert(carried_bytes(a + b) =~= carried_bytes(a) + carried_bytes(b));
    }
}

proof fn lemma_carried_packets(addr: u64, packets: Seq<PacketView>)
    requires
        forall|k: int| 0 <= k < packets.len() ==> (#[trigger] packets[k]).payload.len() <= 450,
    ensures
        carried_bytes(link::carried(addr, packets)) == link_laws::joined(packets),
    decreases packets.len(),
{
    if packets.len() > 0 {
        let init = packets.drop_last();
        let p = packets.last();
        assert(packets[packets.len() - 1] == p);
        lemma_carried_packets(addr, init);
        let all = link::carried(addr, packets);
        assert(all.drop_last() =~= link::carried(addr, init));
        frame::law_encoded_frame_parses_back(FrameView::Reliable(p));
    }
}

/// A client's mail carries what it is told, byte for byte and in order, each
/// datagram to that client, none with more than 450 bytes of it, none for a
/// second time.
pub proof fn law_mail_carries_what_is_told(c: ClientView, msgs: Seq<MessageView>, clock: Clock)
    ensures
        carried_bytes(c.mail(msgs, clock)) == said_bytes(msgs),
        forall|k: int|
            0 <= k < c.mail(msgs, clock).len() ==> {
                let d = #[trigger] c.mail(msgs, clock)[k];
                &&& d.to == c.addr
                &&& match frame::parsed(d.bytes) {
                    Ok(FrameView::Reliable(p)) => 0 < p.payload.len() <= 450 && p.resend == 0
                        && p.sent_at == clock.unix,
                    _ => false,
                }
            },
    decreases msgs.len(),
{
    if msgs.len() > 0 {
        let init = msgs.drop_last();
        let m = msgs.last();
        law_mail_carries_what_is_told(c, init, clock);
        client::lemma_told_keeps(c, init, clock);
        let here = c.told(init, clock).out;
        let packets = here.packets(m.payload, m.ordered, clock.unix);
        link_laws::law_packets_carry_the_payload(here, m.payload, m.ordered, clock.unix);
        assert forall|k: int| 0 <= k < packets.len() implies (#[trigger] packets[k]).payload.len()
            <= 450 by {
            assert(0 < packets[k].payload.len());
        }
        let before = c.mail(init, clock);
        let more = link::carried(c.addr, packets);
        let all = c.mail(msgs, clock);
        lemma_carried_adds(before, more);
        lemma_carried_packets(c.addr, packets);
        assert forall|k: int| 0 <= k < all.len() implies {
            let d = #[trigger] all[k];
            &&& d.to == c.addr
            &&& match frame::parsed(d.bytes) {
                Ok(FrameView::Reliable(p)) => 0 < p.payload.len() <= 450 && p.resend == 0
                    && p.sent_at == clock.unix,
                _ => false,
            }
        } by {
            if k < before.len() {
                assert(all[k] == before[k]);
            } else {
                let p = packets[k - before.len()];
                assert(all[k] == more[k - before.len()]);
                frame::law_encoded_frame_parses_back(FrameView::Reliable(p));
            }
        }
    }
}

// ---------------------------------------------------------------------------
// From the datagram to the event
// ---------------------------------------------------------------------------

/// `after` is `before` with the packet numbered `seq` of `from` acked and
/// remembered, and nothing else changed.
pub open spec fn is_taken(before: ServerView, after: ServerView, from: u64, seq: u32) -> bool {
    let n = before.clients.len() as int;
    &&& after.outbox == before.outbox.push(
        DatagramView { to: from, bytes: seq![2u8] + le::u32_bytes(seq) },
    )
    &&& after == (ServerView { outbox: after.outbox, clients: after.clients, ..before })
    &&& after.clients.len() == n
    &&& forall|i: int|
        0 <= i < n ==> #[trigger] after.clients[i] == if before.clients[i].addr == from {
            ClientView {
                seen: InboundView {
                    processed: link::remembering(before.clients[i].seen.processed, seq),
                    ..before.clients[i].seen
                },
                ..before.clients[i]
            }
        } else {
            before.clients[i]
        }
}

/// A whole reliable packet that is new is acked, remembered, and its event taken
/// at once, whether its sender was known before or not; what comes unreliably is
/// taken as it is, without an ack.
pub proof fn law_new_event_is_taken(s: ServerView, from: u64, p: PacketView, clock: Clock)
    requires
        s.wf(),
        p.payload.len() <= u64::MAX,
        p.chunk is None,
        s.knows(from) ==> !s.client(from).seen.processed.contains(p.seq),
    ensures
        exists|taken: ServerView|
            s.handled(from, frame::frame_bytes(FrameView::Reliable(p)), clock)
                == #[trigger] taken.heard(from, p.payload, clock) && is_taken(
                s.seen(from, clock),
                taken,
                from,
                p.seq,
            ),
        s.handled(from, frame::frame_bytes(FrameView::Unreliable(p.payload)), clock) == s.seen(
            from,
            clock,
        ).heard_loosely(from, p.payload, clock),
{
    frame::law_encoded_frame_parses_back(FrameView::Reliable(p));
    frame::law_encoded_frame_parses_back(FrameView::Unreliable(p.payload));
    let seen = s.seen(from, clock);
    handle::lemma_seen_keeps(s, from, clock);
    let i = seen.seat(from);
    state::lemma_seat_of(seen.clients, from);
    let c = seen.client(from);
    let received = c.seen.received(p).0;
    let ack = frame::frame_bytes(FrameView::Ack(p.seq));
    let taken = seen.sent(from, ack).with_client(i, ClientView { seen: received, ..c });
    assert(s.handled(from, frame::frame_bytes(FrameView::Reliable(p)), clock) == taken.heard(
        from,
        p.payload,
        clock,
    ));
    assert forall|k: int| 0 <= k < seen.clients.len() implies (#[trigger] seen.clients[k]).addr
        == taken.clients[k].addr by {}
    state::lemma_same_seat(seen.clients, taken.clients, from);
    assert(is_taken(seen, taken, from, p.seq));
}

/// The last 256 packets are remembered, the latest of them last.
pub proof fn law_the_last_packets_are_remembered(processed: Seq<u32>, seq: u32)
    requires
        processed.len() <= 256,
    ensures
        ({
            let after = link::remembering(processed, seq);
            &&& after.last() == seq
            &&& after.len() == if processed.len() < 256 {
                processed.len() + 1
            } else {
                256
            }
            &&& processed.len() < 256 ==> after.drop_last() == processed
            &&& processed.len() == 256 ==> after.drop_last() == processed.skip(1)
        }),
{
    let after = link::remembering(processed, seq);
    if processed.len() < 256 {
        assert(after.drop_last() =~= processed);
    } else {
        assert(after.drop_last() =~= processed.skip(1));
    }
}

/// An audience is as large as it counts: everyone in the lobby, or everyone in
/// it but one, or one, or everyone.
pub proof fn law_audiences_are_counted(s: ServerView, addr: u64)
    ensures
        s.size(Audience::Lobby) == start_laws::count(s.clients, |c: ClientView| c.garage is Some),
        s.size(Audience::LobbyBut(addr)) == start_laws::count(
            s.clients,
            |c: ClientView| c.garage is Some && c.addr != addr,
        ),
        s.size(Audience::One(addr)) == start_laws::count(s.clients, |c: ClientView| c.addr == addr),
        s.size(Audience::Everyone) == s.clients.len(),
{
    let a = |c: ClientView| Audience::Lobby.has(c);
    let b = |c: ClientView| Audience::LobbyBut(addr).has(c);
    let d = |c: ClientView| Audience::One(addr).has(c);
    let e = |c: ClientView| Audience::Everyone.has(c);
    start_laws::lemma_count(s.clients, a);
    start_laws::lemma_count(s.clients, b);
    start_laws::lemma_count(s.clients, d);
    start_laws::lemma_same_count(s.clients, s.clients, |c: ClientView| c.garage is Some, a);
    start_laws::lemma_same_count(s.clients, s.clients, |c: ClientView| c.garage is Some && c.addr != addr, b);
    start_laws::lemma_same_count(s.clients, s.clients, |c: ClientView| c.addr == addr, d);
    hearing::lemma_all_pass(s.clients, e);
}

} // verus!
