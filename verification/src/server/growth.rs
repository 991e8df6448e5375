//! What no step of the server changes: its configuration, and the mail it has
//! already put out.

use vstd::prelude::*;

use crate::event;
use crate::event::Event;
use crate::frame;
use crate::frame::{FrameView, PacketView, CHUNK_SIZE};
use crate::link;
use crate::messages;
use crate::player::PlayerId;
use crate::reassembly;
use crate::server::chat;
use crate::server::client;
use crate::server::client::{ClientView, Clock, MessageView};
use crate::server::race;
use crate::server::state;
use crate::server::state::{Audience, ServerView};
use crate::text;

verus! {

/// `after` has the configuration of `before`, and its mail with nothing but more
/// mail behind it.
pub open spec fn grows(before: ServerView, after: ServerView) -> bool {
    &&& after.name == before.name
    &&& after.maps == before.maps
    &&& after.settings == before.settings
    &&& after.host == before.host
    &&& before.outbox.len() <= after.outbox.len()
    &&& after.outbox.take(before.outbox.len() as int) == before.outbox
}

/// A datagram that carries an event, and not for another time: neither an ack
/// nor a greeting nor a retransmit.
#[verifier::opaque]
pub open spec fn is_news(bytes: Seq<u8>) -> bool {
    exists|f: FrameView|
        bytes == #[trigger] frame::frame_bytes(f) && match f {
            FrameView::Unreliable(_) => true,
            FrameView::Reliable(p) => p.resend == 0 && p.payload.len() <= CHUNK_SIZE,
            _ => false,
        }
}

proof fn lemma_is_news(f: FrameView)
    requires
        match f {
            FrameView::Unreliable(_) => true,
            FrameView::Reliable(p) => p.resend == 0 && p.payload.len() <= CHUNK_SIZE,
            _ => false,
        },
    ensures
        is_news(frame::frame_bytes(f)),
{
    reveal(is_news);
}

/// What news is read as.
pub proof fn lemma_news_is_parsed(bytes: Seq<u8>)
    requires
        is_news(bytes),
    ensures
        match frame::parsed(bytes) {
            Ok(FrameView::Unreliable(_)) => true,
            Ok(FrameView::Reliable(p)) => p.resend == 0,
            _ => false,
        },
{
    reveal(is_news);
    let f = choose|f: FrameView|
        bytes == #[trigger] frame::frame_bytes(f) && match f {
            FrameView::Unreliable(_) => true,
            FrameView::Reliable(p) => p.resend == 0 && p.payload.len() <= CHUNK_SIZE,
            _ => false,
        };
    frame::law_encoded_frame_parses_back(f);
}

/// Like [`grows`], and what is added is news.
#[verifier::opaque]
pub open spec fn carries_on(before: ServerView, after: ServerView) -> bool {
    &&& grows(before, after)
    &&& forall|k: int|
        before.outbox.len() <= k < after.outbox.len() ==> is_news(
            (#[trigger] after.outbox[k]).bytes,
        )
}

/// Growing twice is growing.
pub proof fn lemma_grows_twice(a: ServerView, b: ServerView, c: ServerView)
    requires
        grows(a, b),
        grows(b, c),
    ensures
        grows(a, c),
{
    let n = a.outbox.len() as int;
    let m = b.outbox.len() as int;
    assert(c.outbox.take(n) =~= c.outbox.take(m).take(n));
}

/// Carrying on twice is carrying on.
pub broadcast proof fn lemma_carries_on_twice(a: ServerView, b: ServerView, c: ServerView)
    requires
        #[trigger] carries_on(a, b),
        #[trigger] carries_on(b, c),
    ensures
        carries_on(a, c),
{
    reveal(carries_on);
    lemma_grows_twice(a, b, c);
    let m = b.outbox.len() as int;
    assert forall|k: int| a.outbox.len() <= k < c.outbox.len() implies is_news(
        (#[trigger] c.outbox[k]).bytes,
    ) by {
        if k < m {
            assert(c.outbox.take(m)[k] == b.outbox[k]);
        }
    }
}

/// Carrying on is growing.
pub proof fn lemma_carries_on(a: ServerView, b: ServerView)
    requires
        carries_on(a, b),
    ensures
        grows(a, b),
        forall|k: int|
            a.outbox.len() <= k < b.outbox.len() ==> is_news((#[trigger] b.outbox[k]).bytes),
{
    reveal(carries_on);
}

/// What keeps the configuration and the mail carries on.
pub proof fn lemma_same_grows(a: ServerView, b: ServerView)
    requires
        b.name == a.name,
        b.maps == a.maps,
        b.settings == a.settings,
        b.host == a.host,
        b.outbox == a.outbox,
    ensures
        carries_on(a, b),
{
    reveal(carries_on);
    assert(b.outbox.take(a.outbox.len() as int) =~= a.outbox);
}

/// What a client is told is news.
proof fn lemma_mail_is_news(c: ClientView, msgs: Seq<MessageView>, clock: Clock)
    ensures
        forall|k: int|
            0 <= k < c.mail(msgs, clock).len() ==> is_news(
                (#[trigger] c.mail(msgs, clock)[k]).bytes,
            ),
    decreases msgs.len(),
{
    if msgs.len() > 0 {
        let init = msgs.drop_last();
        let m = msgs.last();
        lemma_mail_is_news(c, init, clock);
        let before = c.mail(init, clock);
        let all = c.mail(msgs, clock);
        let packets = c.told(init, clock).out.packets(m.payload, m.ordered, clock.unix);
        assert forall|k: int| 0 <= k < all.len() implies is_news((#[trigger] all[k]).bytes) by {
            if k < before.len() {
                assert(all[k] == before[k]);
            } else {
                let i = k - before.len();
                assert(all[k] == link::carried(c.addr, packets)[i]);
                reassembly::lemma_piece_is_inside(m.payload, i);
                lemma_is_news(FrameView::Reliable(packets[i]));
            }
        }
    }
}

proof fn lemma_all_mail_is_news(
    clients: Seq<ClientView>,
    to: Audience,
    msgs: Seq<MessageView>,
    clock: Clock,
)
    ensures
        forall|k: int|
            0 <= k < state::all_mail(clients, to, msgs, clock).len() ==> is_news(
                (#[trigger] state::all_mail(clients, to, msgs, clock)[k]).bytes,
            ),
    decreases clients.len(),
{
    if clients.len() > 0 {
        lemma_all_mail_is_news(clients.drop_last(), to, msgs, clock);
        lemma_mail_is_news(clients.last(), msgs, clock);
        let before = state::all_mail(clients.drop_last(), to, msgs, clock);
        let all = state::all_mail(clients, to, msgs, clock);
        assert forall|k: int| 0 <= k < all.len() implies is_news((#[trigger] all[k]).bytes) by {
            if k < before.len() {
                assert(all[k] == before[k]);
            } else {
                assert(all[k] == clients.last().mail(msgs, clock)[k - before.len()]);
            }
        }
    }
}

pub proof fn lemma_all_posted_is_the_same(clients: Seq<ClientView>, to: Audience, bytes: Seq<u8>)
    ensures
        forall|k: int|
            0 <= k < state::all_posted(clients, to, bytes).len() ==> (#[trigger] state::all_posted(
                clients,
                to,
                bytes,
            )[k]).bytes == bytes,
    decreases clients.len(),
{
    if clients.len() > 0 {
        lemma_all_posted_is_the_same(clients.drop_last(), to, bytes);
        let before = state::all_posted(clients.drop_last(), to, bytes);
        let all = state::all_posted(clients, to, bytes);
        assert forall|k: int| 0 <= k < all.len() implies (#[trigger] all[k]).bytes == bytes by {
            if k < before.len() {
                assert(all[k] == before[k]);
            }
        }
    }
}

pub broadcast proof fn lemma_told_grows(
    s: ServerView,
    to: Audience,
    msgs: Seq<MessageView>,
    clock: Clock,
)
    ensures
        carries_on(s, #[trigger] s.told(to, msgs, clock)),
{
    reveal(carries_on);
    let after = s.told(to, msgs, clock);
    let n = s.outbox.len() as int;
    lemma_all_mail_is_news(s.clients, to, msgs, clock);
    assert(after.outbox.take(n) =~= s.outbox);
    assert forall|k: int| n <= k < after.outbox.len() implies is_news(
        (#[trigger] after.outbox[k]).bytes,
    ) by {
        assert(after.outbox[k] == state::all_mail(s.clients, to, msgs, clock)[k - n]);
    }
}

pub broadcast proof fn lemma_said_all_grows(s: ServerView, line: Seq<char>, clock: Clock)
    ensures
        carries_on(s, #[trigger] s.said_all(line, clock)),
{
    let msgs = seq![client::ordered(chat::system_line(line))];
    let told = s.told(Audience::Lobby, msgs, clock);
    lemma_told_grows(s, Audience::Lobby, msgs, clock);
    lemma_same_grows(told, s.said_all(line, clock));
    lemma_carries_on_twice(s, told, s.said_all(line, clock));
}

pub broadcast proof fn lemma_posted_grows(s: ServerView, to: Audience, payload: Seq<u8>)
    ensures
        carries_on(s, #[trigger] s.posted(to, state::loose(payload))),
{
    reveal(carries_on);
    let after = s.posted(to, state::loose(payload));
    let n = s.outbox.len() as int;
    lemma_all_posted_is_the_same(s.clients, to, state::loose(payload));
    lemma_is_news(FrameView::Unreliable(payload));
    assert(after.outbox.take(n) =~= s.outbox);
    assert forall|k: int| n <= k < after.outbox.len() implies is_news(
        (#[trigger] after.outbox[k]).bytes,
    ) by {
        assert(after.outbox[k] == state::all_posted(s.clients, to, state::loose(payload))[k - n]);
    }
}

pub broadcast proof fn lemma_sent_grows(s: ServerView, addr: u64, payload: Seq<u8>)
    ensures
        carries_on(s, #[trigger] s.sent(addr, state::loose(payload))),
{
    reveal(carries_on);
    let after = s.sent(addr, state::loose(payload));
    lemma_is_news(FrameView::Unreliable(payload));
    assert(after.outbox.take(s.outbox.len() as int) =~= s.outbox);
}

/// Sending anything at all grows.
pub proof fn lemma_any_sent_grows(s: ServerView, addr: u64, bytes: Seq<u8>)
    ensures
        grows(s, s.sent(addr, bytes)),
{
    assert(s.sent(addr, bytes).outbox.take(s.outbox.len() as int) =~= s.outbox);
}

pub broadcast proof fn lemma_with_client_grows(s: ServerView, i: int, c: ClientView)
    ensures
        carries_on(s, #[trigger] s.with_client(i, c)),
{
    lemma_same_grows(s, s.with_client(i, c));
}

pub broadcast group group_steps_grow {
    lemma_carries_on_twice,
    lemma_told_grows,
    lemma_said_all_grows,
    lemma_posted_grows,
    lemma_sent_grows,
    lemma_with_client_grows,
}

pub proof fn lemma_moved_grows(s: ServerView, index: int, clock: Clock)
    ensures
        carries_on(s, s.moved_to(index, clock)),
{
    broadcast use group_steps_grow;

    let t = s.maps[index];
    let on = ServerView { map_index: index, ..s };
    lemma_same_grows(s, on);
    let told = on.told(
        Audience::Lobby,
        seq![
            client::ordered(
                messages::lobby_change_map_bytes(t.name, t.variant),
            ),
        ],
        clock,
    );
    let moved = told.votes_cleared();
    lemma_same_grows(told, moved);
    lemma_said_all_grows(
        moved,
        "Next race: "@ + moved.describe(index) + ". !vote picks another."@,
        clock,
    );
}

pub proof fn lemma_voted_grows(s: ServerView, from: u64, target: Seq<char>, clock: Clock)
    ensures
        carries_on(s, s.voted(from, target, clock)),
{
    broadcast use group_steps_grow;

    lemma_same_grows(s, s);
    if let Ok(index) = s.find_map(target) {
        let c = s.client(from);
        let counted = s.with_client(
            s.seat(from),
            ClientView { vote: Some(index as usize), ..c },
        );
        let heard = counted.said_all(counted.vote_line(c.name(), index), clock);
        lemma_moved_grows(heard.said_all("Vote passed."@, clock), index, clock);
    }
}

pub proof fn lemma_commanded_grows(s: ServerView, from: u64, command: Seq<char>, clock: Clock)
    ensures
        carries_on(s, s.commanded(from, command, clock)),
{
    broadcast use group_steps_grow;

    let arg = match text::split_at_first(command, ' ') {
        Some((_, arg)) => arg,
        None => Seq::empty(),
    };
    lemma_voted_grows(s, from, text::trimmed(arg), clock);
}

pub proof fn lemma_chatted_grows(s: ServerView, from: u64, payload: Seq<u8>, clock: Clock)
    ensures
        carries_on(s, s.chatted(from, payload, clock).0),
{
    broadcast use group_steps_grow;

    lemma_same_grows(s, s);
    if let Ok((line, _)) = messages::read_chat(payload) {
        let relayed = s.told(
            Audience::LobbyBut(from),
            seq![client::ordered(payload)],
            clock,
        );
        if let Some(command) = chat::command_in(line, s.client(from).name()) {
            lemma_commanded_grows(relayed, from, command, clock);
        }
    }
}

pub proof fn lemma_started_grows(s: ServerView, clock: Clock)
    ensures
        carries_on(s, s.race_started(clock)),
{
    broadcast use group_steps_grow;

    let told = s.told(Audience::Lobby, s.start_messages(), clock);
    lemma_same_grows(told, s.race_started(clock));
}

pub proof fn lemma_settled_grows(s: ServerView, clock: Clock)
    ensures
        carries_on(s, s.settled(clock)),
{
    broadcast use group_steps_grow;

    lemma_same_grows(s, s);
    let msgs = seq![
        client::unordered(
            messages::car_crossed_finish_bytes(
                PlayerId::host(),
                messages::Finish {
                    entity: race::HOST_ENTITY,
                    generation: messages::GENERATION,
                    time_bits: s.host_time,
                },
            ),
        ),
    ];
    let told = s.told(Audience::Lobby, msgs, clock);
    if s.settled(clock) != s {
        lemma_same_grows(told, s.settled(clock));
    }
}

pub proof fn lemma_ended_grows(s: ServerView, clock: Clock)
    ensures
        carries_on(s, s.race_closed(clock)),
        carries_on(s, s.race_ended(clock)),
{
    broadcast use group_steps_grow;

    let msgs = seq![
        client::ordered(
            messages::tagged(Event::RaceEnd, seq![1u8]),
        ),
        client::ordered(
            messages::garage_commit_bytes(
                PlayerId::host(),
                s.host.garage,
            ),
        ),
    ];
    let told = s.told(Audience::Lobby, msgs, clock);
    let closed = s.race_closed(clock);
    lemma_same_grows(told, closed);
    match closed.leader() {
        Some(index) => {
            lemma_moved_grows(closed.said_all(closed.vote_won_line(index), clock), index, clock);
        },
        None => {
            lemma_moved_grows(closed, closed.following(), clock);
        },
    }
}

pub proof fn lemma_removed_grows(s: ServerView, addr: u64, clock: Clock)
    ensures
        carries_on(s, s.removed(addr, clock)),
{
    broadcast use group_steps_grow;

    lemma_same_grows(s, s);
    let c = s.client(addr);
    let without = ServerView { clients: s.clients.remove(s.seat(addr)), ..s };
    lemma_same_grows(s, without);
    lemma_same_grows(without, without);
    let heard = if c.in_lobby() {
        without.told(
            Audience::Lobby,
            seq![
                client::unordered(messages::player_left_bytes(c.id)),
            ],
            clock,
        )
    } else {
        without
    };
    assert(carries_on(without, heard));
    lemma_ended_grows(heard, clock);
    lemma_settled_grows(heard, clock);
}

pub proof fn lemma_readied_grows(s: ServerView, from: u64, payload: Seq<u8>, clock: Clock)
    ensures
        carries_on(s, s.readied(from, payload, clock).0),
{
    broadcast use group_steps_grow;

    lemma_same_grows(s, s);
    if let Ok((ready, _)) = messages::read_ready(payload) {
        let c = s.client(from);
        let marked = s.with_client(s.seat(from), ClientView { ready, ..c }).told(
            Audience::LobbyBut(from),
            seq![
                client::ordered(
                    messages::ready_broadcast_bytes(c.id, ready),
                ),
            ],
            clock,
        );
        let told = marked.told(
            Audience::Lobby,
            seq![
                client::ordered(
                    messages::ready_broadcast_bytes(
                        PlayerId::host(),
                        true,
                    ),
                ),
                client::unordered(
                    messages::tagged(Event::RaceGo, Seq::empty()),
                ),
            ],
            clock,
        );
        lemma_same_grows(told, marked.gone(clock));
        lemma_started_grows(marked, clock);
    }
}

pub proof fn lemma_crossed_grows(
    s: ServerView,
    from: u64,
    finish: messages::Finish,
    clock: Clock,
)
    ensures
        carries_on(s, s.crossed(from, finish, clock)),
{
    broadcast use group_steps_grow;

    lemma_same_grows(s, s);
    let c = s.client(from);
    let told = s.with_client(s.seat(from), ClientView { finished: true, ..c }).told(
        Audience::LobbyBut(from),
        seq![
            client::unordered(
                messages::car_crossed_finish_bytes(c.id, finish),
            ),
        ],
        clock,
    );
    if s.knows(from) {
        lemma_same_grows(told, s.crossed(from, finish, clock));
    }
}

pub proof fn lemma_forwarded_grows(
    s: ServerView,
    visitors: Seq<u64>,
    payload: Seq<u8>,
    clock: Clock,
)
    ensures
        carries_on(s, s.forwarded(visitors, payload, clock)),
    decreases visitors.len(),
{
    broadcast use group_steps_grow;

    lemma_same_grows(s, s);
    if visitors.len() > 0 {
        lemma_forwarded_grows(s, visitors.drop_last(), payload, clock);
    }
}

proof fn lemma_visited_grows(s: ServerView, from: u64, payload: Seq<u8>, clock: Clock)
    ensures
        carries_on(s, s.visit_requested(from, payload, clock).0),
        carries_on(s, s.visit_answered(from, payload, clock).0),
{
    broadcast use group_steps_grow;

    lemma_same_grows(s, s);
    let emptied = s.with_client(
        s.seat(from),
        ClientView { visitors: Seq::empty(), ..s.client(from) },
    );
    lemma_forwarded_grows(emptied, s.client(from).visitors, payload, clock);
}

proof fn lemma_joined_grows(s: ServerView, from: u64, payload: Seq<u8>, clock: Clock)
    ensures
        carries_on(s, s.introduced(from, payload, clock).0),
        carries_on(s, s.garaged(from, payload, clock).0),
{
    broadcast use group_steps_grow;

    lemma_same_grows(s, s);
}

proof fn lemma_passed_on_grows(
    s: ServerView,
    from: u64,
    payload: Seq<u8>,
    reliable: bool,
    clock: Clock,
)
    ensures
        carries_on(s, s.passed_on(from, payload, reliable, clock).0),
{
    broadcast use group_steps_grow;

    lemma_same_grows(s, s);
}

/// An event that is taken adds mail and keeps the configuration.
pub proof fn lemma_heard_grows(s: ServerView, from: u64, payload: Seq<u8>, clock: Clock)
    ensures
        carries_on(s, s.heard(from, payload, clock).0),
{
    lemma_same_grows(s, s);
    match event::event_of(payload) {
        Ok(Event::ClientInfo) | Ok(Event::GarageState) => {
            lemma_joined_grows(s, from, payload, clock);
        },
        Ok(Event::Chat) => {
            lemma_chatted_grows(s, from, payload, clock);
        },
        Ok(Event::CrossedFinish) => {
            if let Ok((finish, _)) = messages::read_crossed_finish(payload) {
                lemma_crossed_grows(s, from, finish, clock);
            }
        },
        Ok(Event::Ready) => {
            lemma_readied_grows(s, from, payload, clock);
        },
        Ok(Event::Disconnect) => {
            lemma_removed_grows(s, from, clock);
        },
        Ok(Event::RequestVisitGarage) | Ok(Event::VisitGarageResponse) => {
            lemma_visited_grows(s, from, payload, clock);
        },
        Ok(Event::UpdateLocation) | Ok(Event::StopGarageVisit) => {
            broadcast use lemma_told_grows;

        },
        _ => {
            lemma_passed_on_grows(s, from, payload, true, clock);
        },
    }
}

pub proof fn lemma_heard_loosely_grows(s: ServerView, from: u64, payload: Seq<u8>, clock: Clock)
    ensures
        carries_on(s, s.heard_loosely(from, payload, clock).0),
{
    broadcast use group_steps_grow;

    lemma_same_grows(s, s);
}

pub proof fn lemma_seen_grows(s: ServerView, from: u64, clock: Clock)
    ensures
        carries_on(s, s.seen(from, clock)),
        s.seen(from, clock).outbox == s.outbox,
{
    lemma_same_grows(s, s.seen(from, clock));
}

pub proof fn lemma_evicted_grows(s: ServerView, addrs: Seq<u64>, clock: Clock)
    ensures
        carries_on(s, s.evicted(addrs, clock)),
    decreases addrs.len(),
{
    broadcast use group_steps_grow;

    lemma_same_grows(s, s);
    if addrs.len() > 0 {
        lemma_evicted_grows(s, addrs.drop_last(), clock);
        lemma_removed_grows(s.evicted(addrs.drop_last(), clock), addrs.last(), clock);
    }
}

pub proof fn lemma_ticked_grows(s: ServerView, clock: Clock)
    ensures
        grows(s, s.ticked(clock)),
{
    let evicted = s.evicted(s.stale(clock.now), clock);
    lemma_evicted_grows(s, s.stale(clock.now), clock);
    lemma_carries_on(s, evicted);
    let retried = evicted.retried(clock.now);
    assert(retried.outbox.take(evicted.outbox.len() as int) =~= evicted.outbox);
    let ping = messages::clock_bytes(Event::Ping, clock.seconds);
    lemma_posted_grows(retried, Audience::Everyone, ping);
    lemma_carries_on(retried, s.ticked(clock));
    lemma_grows_twice(s, evicted, retried);
    lemma_grows_twice(s, retried, s.ticked(clock));
}

pub proof fn lemma_streamed_grows(s: ServerView, clock: Clock)
    ensures
        carries_on(s, s.streamed_if_due(clock)),
{
    let posted = s.posted(Audience::Lobby, state::loose(s.live_host_state(clock)));
    lemma_same_grows(s, s);
    if s.racing && clock.now >= s.next_car_state {
        lemma_posted_grows(s, Audience::Lobby, s.live_host_state(clock));
        lemma_same_grows(posted, s.streamed_if_due(clock));
        lemma_carries_on_twice(s, posted, s.streamed_if_due(clock));
    }
}

/// What is done behind the ack of a reliable packet carries on.
pub proof fn lemma_taken_grows(s: ServerView, from: u64, p: PacketView, clock: Clock)
    ensures
        carries_on(
            s.sent(from, frame::frame_bytes(FrameView::Ack(p.seq))),
            s.packet_taken(from, p, clock).0,
        ),
{
    let c = s.client(from);
    let (seen, got) = c.seen.received(p);
    let acked = s.sent(from, frame::frame_bytes(FrameView::Ack(p.seq)));
    let taken = acked.with_client(s.seat(from), ClientView { seen, ..c });
    lemma_with_client_grows(acked, s.seat(from), ClientView { seen, ..c });
    if let link::ReceivedView::Whole(payload) = got {
        lemma_heard_grows(taken, from, payload, clock);
        lemma_carries_on_twice(acked, taken, s.packet_taken(from, p, clock).0);
    }
}

/// A datagram adds mail and keeps the configuration.
proof fn lemma_handled_grows(s: ServerView, from: u64, datagram: Seq<u8>, clock: Clock)
    ensures
        grows(s, s.handled(from, datagram, clock).0),
{
    let seen = s.seen(from, clock);
    let after = s.handled(from, datagram, clock).0;
    lemma_same_grows(s, s);
    lemma_carries_on(s, s);
    lemma_seen_grows(s, from, clock);
    lemma_carries_on(s, seen);
    match frame::parsed(datagram) {
        Err(_) => {},
        Ok(FrameView::Greeting(id)) => {
            lemma_any_sent_grows(seen, from, frame::frame_bytes(FrameView::Greeting(id)));
            lemma_grows_twice(s, seen, after);
        },
        Ok(FrameView::Ack(seq)) => {
            let c = seen.client(from);
            lemma_with_client_grows(
                seen,
                seen.seat(from),
                ClientView { out: c.out.acked(seq), ..c },
            );
            lemma_carries_on(seen, after);
            lemma_grows_twice(s, seen, after);
        },
        Ok(FrameView::Unreliable(payload)) => {
            lemma_heard_loosely_grows(seen, from, payload, clock);
            lemma_carries_on(seen, after);
            lemma_grows_twice(s, seen, after);
        },
        Ok(FrameView::Reliable(p)) => {
            let acked = seen.sent(from, frame::frame_bytes(FrameView::Ack(p.seq)));
            lemma_any_sent_grows(seen, from, frame::frame_bytes(FrameView::Ack(p.seq)));
            lemma_taken_grows(seen, from, p, clock);
            lemma_carries_on(acked, after);
            lemma_grows_twice(s, seen, acked);
            lemma_grows_twice(s, acked, after);
        },
    }
}

/// Handling a datagram, announcing a finish and letting time pass keep the
/// server's name, rotation, settings and host car, and take nothing back that
/// was put out to be sent.
pub proof fn law_configuration_stays_and_mail_is_only_added(
    s: ServerView,
    from: u64,
    datagram: Seq<u8>,
    shown: Seq<char>,
    host_time: u64,
    clock: Clock,
)
    ensures
        grows(s, s.handled(from, datagram, clock).0),
        grows(s, s.finish_announced(from, shown, host_time, clock)),
        grows(s, s.advanced(clock)),
{
    lemma_handled_grows(s, from, datagram, clock);
    // A finish.
    let timed = ServerView { host_time, ..s };
    let line = s.client(from).name() + " finished P"@ + text::decimal(s.finishers())
        + " in "@ + shown;
    let said = timed.said_all(line, clock);
    lemma_same_grows(s, s);
    lemma_same_grows(s, timed);
    lemma_said_all_grows(timed, line, clock);
    lemma_settled_grows(said, clock);
    lemma_carries_on_twice(s, timed, said);
    lemma_carries_on_twice(s, said, said.settled(clock));
    lemma_carries_on(s, s.finish_announced(from, shown, host_time, clock));
    // Time.
    let ticked = s.ticked_if_due(clock);
    lemma_carries_on(s, s);
    if clock.now >= s.next_tick {
        lemma_ticked_grows(s, clock);
        lemma_same_grows(s.ticked(clock), ticked);
        lemma_carries_on(s.ticked(clock), ticked);
        lemma_grows_twice(s, s.ticked(clock), ticked);
    }
    lemma_streamed_grows(ticked, clock);
    let streamed = ticked.streamed_if_due(clock);
    lemma_ended_grows(streamed, clock);
    lemma_same_grows(streamed, streamed);
    lemma_carries_on_twice(ticked, streamed, s.advanced(clock));
    lemma_carries_on(ticked, s.advanced(clock));
    lemma_grows_twice(s, ticked, s.advanced(clock));
}

} // verus!
