//! What the server promises.

use vstd::prelude::*;

use crate::bytes;
use crate::error::Error;
use crate::event;
use crate::event::Event;
use crate::frame;
use crate::frame::{FrameView, PacketView};
use crate::le;
use crate::link;
use crate::link::{DatagramView, InboundView};
use crate::messages;
use crate::player::PlayerId;
use crate::server::chat;
use crate::server::client;
use crate::server::client::{ClientView, Clock, MessageView};
use crate::server::growth;
use crate::server::handle;
use crate::server::lobby;
use crate::server::note::NoteView;
use crate::server::race;
use crate::server::race::{
    CAR_STATE_CLOCK, CAR_STATE_GRID_HOLD, GRID_HOLD, HOST_ENTITY,
};
use crate::server::state;
use crate::server::state::{Audience, ServerView, CAR_STATE_LEN};

verus! {

broadcast use crate::le::group_widths;

// ---------------------------------------------------------------------------
// Who is reached
// ---------------------------------------------------------------------------

/// What is posted to an audience reaches each of its members, and nobody else.
pub proof fn law_posts_reach_the_audience(clients: Seq<ClientView>, to: Audience, bytes: Seq<u8>)
    ensures
        forall|k: int|
            0 <= k < state::all_posted(clients, to, bytes).len() ==> {
                let d = #[trigger] state::all_posted(clients, to, bytes)[k];
                d.bytes == bytes && is_for(clients, to, d)
            },
        forall|i: int|
            0 <= i < clients.len() && to.has(#[trigger] clients[i]) ==> state::all_posted(
                clients,
                to,
                bytes,
            ).contains(DatagramView { to: clients[i].addr, bytes }),
    decreases clients.len(),
{
    if clients.len() > 0 {
        let init = clients.drop_last();
        let last = clients.last();
        law_posts_reach_the_audience(init, to, bytes);
        let before = state::all_posted(init, to, bytes);
        let all = state::all_posted(clients, to, bytes);
        assert forall|k: int| 0 <= k < all.len() implies {
            let d = #[trigger] all[k];
            d.bytes == bytes && is_for(clients, to, d)
        } by {
            if k < before.len() {
                assert(all[k] == before[k]);
                assert(is_for(init, to, before[k]));
                let i = choose|i: int|
                    0 <= i < init.len() && to.has(#[trigger] init[i]) && before[k].to
                        == init[i].addr;
                assert(clients[i] == init[i]);
            } else {
                assert(clients[clients.len() - 1] == last);
            }
        }
        assert forall|i: int|
            0 <= i < clients.len() && to.has(#[trigger] clients[i]) implies all.contains(
            DatagramView { to: clients[i].addr, bytes },
        ) by {
            let d = DatagramView { to: clients[i].addr, bytes };
            if i < init.len() {
                assert(init[i] == clients[i]);
                assert(before.contains(d));
                let k = choose|k: int| 0 <= k < before.len() && before[k] == d;
                assert(all[k] == d);
            } else {
                assert(all[before.len() as int] == d);
            }
        }
    }
}

/// `d` is addressed to a member of the audience.
pub open spec fn is_for(clients: Seq<ClientView>, to: Audience, d: DatagramView) -> bool {
    exists|i: int|
        0 <= i < clients.len() && to.has(#[trigger] clients[i]) && d.to == clients[i].addr
}

/// A client's mail is addressed to it.
pub proof fn lemma_mail_is_addressed(c: ClientView, msgs: Seq<MessageView>, clock: Clock)
    ensures
        forall|k: int| 0 <= k < c.mail(msgs, clock).len() ==> (#[trigger] c.mail(msgs, clock)[k]).to
            == c.addr,
    decreases msgs.len(),
{
    if msgs.len() > 0 {
        lemma_mail_is_addressed(c, msgs.drop_last(), clock);
        let before = c.mail(msgs.drop_last(), clock);
        let all = c.mail(msgs, clock);
        assert forall|k: int| 0 <= k < all.len() implies (#[trigger] all[k]).to == c.addr by {
            if k < before.len() {
                assert(all[k] == before[k]);
            }
        }
    }
}

/// What an audience is told goes to its members, and to nobody else: each
/// datagram is addressed to one of them, and each of them gets all of its own.
pub proof fn law_messages_reach_the_audience(
    clients: Seq<ClientView>,
    to: Audience,
    msgs: Seq<MessageView>,
    clock: Clock,
)
    ensures
        forall|k: int|
            0 <= k < state::all_mail(clients, to, msgs, clock).len() ==> is_for(
                clients,
                to,
                #[trigger] state::all_mail(clients, to, msgs, clock)[k],
            ),
        forall|i: int, k: int|
            0 <= i < clients.len() && to.has(#[trigger] clients[i]) && 0 <= k < clients[i].mail(
                msgs,
                clock,
            ).len() ==> state::all_mail(clients, to, msgs, clock).contains(
                #[trigger] clients[i].mail(msgs, clock)[k],
            ),
    decreases clients.len(),
{
    if clients.len() > 0 {
        let init = clients.drop_last();
        let last = clients.last();
        law_messages_reach_the_audience(init, to, msgs, clock);
        lemma_mail_is_addressed(last, msgs, clock);
        let before = state::all_mail(init, to, msgs, clock);
        let all = state::all_mail(clients, to, msgs, clock);
        assert forall|k: int| 0 <= k < all.len() implies is_for(clients, to, #[trigger] all[k]) by {
            if k < before.len() {
                assert(all[k] == before[k]);
                assert(is_for(init, to, before[k]));
                let i = choose|i: int|
                    0 <= i < init.len() && to.has(#[trigger] init[i]) && before[k].to
                        == init[i].addr;
                assert(clients[i] == init[i]);
            } else {
                assert(all[k] == last.mail(msgs, clock)[k - before.len()]);
                assert(clients[clients.len() - 1] == last);
            }
        }
        assert forall|i: int, k: int|
            0 <= i < clients.len() && to.has(#[trigger] clients[i]) && 0 <= k < clients[i].mail(
                msgs,
                clock,
            ).len() implies all.contains(#[trigger] clients[i].mail(msgs, clock)[k]) by {
            let d = clients[i].mail(msgs, clock)[k];
            if i < init.len() {
                assert(init[i] == clients[i]);
                assert(before.contains(init[i].mail(msgs, clock)[k]));
                let j = choose|j: int| 0 <= j < before.len() && before[j] == d;
                assert(all[j] == d);
            } else {
                assert(all[before.len() + k] == d);
            }
        }
    }
}

/// How many of `msgs` are on the ordered stream.
pub open spec fn ordered_count(msgs: Seq<MessageView>) -> nat {
    msgs.filter(|m: MessageView| m.ordered).len()
}

/// The ordered stream to a client has no gaps: each ordered message takes the
/// index behind the one before it, whatever else is sent in between.
pub proof fn law_ordered_stream_has_no_gaps(
    c: ClientView,
    msgs: Seq<MessageView>,
    clock: Clock,
)
    ensures
        c.told(msgs, clock).out.next_ordered == link::wrap32(
            c.out.next_ordered + ordered_count(msgs),
        ),
        forall|k: int, i: int|
            #![trigger c.told(msgs.take(k), clock).out.packet(
                msgs[k].payload,
                msgs[k].ordered,
                clock.unix,
                i,
            )]
            0 <= k < msgs.len() && msgs[k].ordered ==> c.told(msgs.take(k), clock).out.packet(
                msgs[k].payload,
                msgs[k].ordered,
                clock.unix,
                i,
            ).ordered_index == Some(
                link::wrap32(c.out.next_ordered + ordered_count(msgs.take(k))),
            ),
    decreases msgs.len(),
{
    let on = |m: MessageView| m.ordered;
    reveal(Seq::filter);
    if msgs.len() > 0 {
        let init = msgs.drop_last();
        law_ordered_stream_has_no_gaps(c, init, clock);
        assert(msgs.filter(on) == if msgs.last().ordered {
            init.filter(on).push(msgs.last())
        } else {
            init.filter(on)
        });
        assert forall|k: int, i: int|
            #![trigger c.told(msgs.take(k), clock).out.packet(
                msgs[k].payload,
                msgs[k].ordered,
                clock.unix,
                i,
            )]
            0 <= k < msgs.len() && msgs[k].ordered implies c.told(
            msgs.take(k),
            clock,
        ).out.packet(msgs[k].payload, msgs[k].ordered, clock.unix, i).ordered_index == Some(
            link::wrap32(c.out.next_ordered + ordered_count(msgs.take(k))),
        ) by {
            if k < init.len() {
                assert(init.take(k) =~= msgs.take(k));
                assert(init[k] == msgs[k]);
                assert(c.told(init.take(k), clock).out.packet(
                    init[k].payload,
                    init[k].ordered,
                    clock.unix,
                    i,
                ).ordered_index == Some(
                    link::wrap32(c.out.next_ordered + ordered_count(init.take(k))),
                ));
            } else {
                assert(msgs.take(k) =~= init);
            }
        }
    }
}

/// What a client is told waits for its acks, behind what waited before.
pub proof fn law_told_messages_wait_for_their_acks(
    c: ClientView,
    msgs: Seq<MessageView>,
    clock: Clock,
)
    ensures
        ({
            let after = c.told(msgs, clock).out.pending;
            &&& after.len() == c.out.pending.len() + c.mail(msgs, clock).len()
            &&& after.take(c.out.pending.len() as int) == c.out.pending
            &&& forall|k: int|
                0 <= k < c.mail(msgs, clock).len() ==> (#[trigger] c.mail(msgs, clock)[k])
                    == DatagramView {
                    to: c.addr,
                    bytes: frame::frame_bytes(
                        FrameView::Reliable(after[c.out.pending.len() + k].packet),
                    ),
                }
        }),
    decreases msgs.len(),
{
    let n = c.out.pending.len() as int;
    let after = c.told(msgs, clock).out.pending;
    if msgs.len() == 0 {
        assert(after.take(n) =~= c.out.pending);
    } else {
        let init = msgs.drop_last();
        let m = msgs.last();
        law_told_messages_wait_for_their_acks(c, init, clock);
        client::lemma_told_keeps(c, init, clock);
        let here = c.told(init, clock);
        let before = here.out.pending;
        let packets = here.out.packets(m.payload, m.ordered, clock.unix);
        let mail = c.mail(msgs, clock);
        assert(after == before + link::waiting(packets, clock.now));
        assert(after.take(n) =~= before.take(n));
        assert forall|k: int| 0 <= k < mail.len() implies (#[trigger] mail[k]) == DatagramView {
            to: c.addr,
            bytes: frame::frame_bytes(FrameView::Reliable(after[n + k].packet)),
        } by {
            let sent = c.mail(init, clock).len() as int;
            if k < sent {
                assert(mail[k] == c.mail(init, clock)[k]);
                assert(after[n + k] == before[n + k]);
            } else {
                assert(mail[k] == link::carried(c.addr, packets)[k - sent]);
                assert(after[n + k].packet == packets[k - sent]);
            }
        }
    }
}

// ---------------------------------------------------------------------------
// The envelope
// ---------------------------------------------------------------------------

/// A greeting is echoed to its sender, unchanged.
pub proof fn law_greeting_is_echoed(s: ServerView, from: u64, id: u32, clock: Clock)
    ensures
        ({
            let greeting = frame::frame_bytes(FrameView::Greeting(id));
            s.handled(from, greeting, clock).0.outbox == s.outbox.push(
                DatagramView { to: from, bytes: greeting },
            )
        }),
{
    frame::law_encoded_frame_parses_back(FrameView::Greeting(id));
}

/// A ping is answered with a pong that carries the ping's own clock.
pub proof fn law_ping_is_answered_with_its_clock(
    s: ServerView,
    from: u64,
    theirs: u32,
    clock: Clock,
)
    ensures
        s.handled(
            from,
            state::loose(messages::clock_bytes(Event::Ping, theirs)),
            clock,
        ).0.outbox == s.outbox.push(
            DatagramView {
                to: from,
                bytes: state::loose(messages::clock_bytes(Event::Pong, theirs)),
            },
        ),
{
    let ping = messages::clock_bytes(Event::Ping, theirs);
    frame::law_encoded_frame_parses_back(FrameView::Unreliable(ping));
    event::law_tagged_payload_is_its_event(Event::Ping, le::u32_bytes(theirs));
    messages::law_clock_round_trips(Event::Ping, theirs);
}

/// Every reliable packet is acked to its sender exactly once, before anything
/// else is sent: nothing that is put out behind the ack is an ack.
pub proof fn law_reliable_packet_is_acked_first_and_once(
    s: ServerView,
    from: u64,
    datagram: Seq<u8>,
    p: PacketView,
    clock: Clock,
)
    requires
        frame::parsed(datagram) == Ok::<FrameView, Error>(FrameView::Reliable(p)),
    ensures
        ({
            let n = s.outbox.len() as int;
            let after = s.handled(from, datagram, clock).0;
            &&& after.outbox.len() > n
            &&& after.outbox.take(n) == s.outbox
            &&& after.outbox[n] == DatagramView {
                to: from,
                bytes: frame::frame_bytes(FrameView::Ack(p.seq)),
            }
            &&& forall|k: int, seq: u32|
                n < k < after.outbox.len() ==> (#[trigger] after.outbox[k]).bytes
                    != #[trigger] frame::frame_bytes(FrameView::Ack(seq))
        }),
{
    let seen = s.seen(from, clock);
    let n = s.outbox.len() as int;
    let ack = frame::frame_bytes(FrameView::Ack(p.seq));
    let acked = seen.sent(from, ack);
    let after = s.handled(from, datagram, clock).0;
    growth::lemma_seen_grows(s, from, clock);
    growth::lemma_taken_grows(seen, from, p, clock);
    growth::lemma_carries_on(acked, after);
    let first = after.outbox.take(n + 1);
    assert(first == acked.outbox);
    assert(first[n] == DatagramView { to: from, bytes: ack });
    assert(after.outbox.take(n) =~= first.take(n));
    assert(first.take(n) =~= s.outbox);
    assert forall|k: int, seq: u32| n < k < after.outbox.len() implies (
    #[trigger] after.outbox[k]).bytes != #[trigger] frame::frame_bytes(FrameView::Ack(seq)) by {
        growth::lemma_news_is_parsed(after.outbox[k].bytes);
        frame::law_encoded_frame_parses_back(FrameView::Ack(seq));
    }
}

/// A retransmit of a processed packet is acked again and changes nothing but
/// when its sender was last seen.
pub proof fn law_retransmit_is_acked_but_not_applied(
    s: ServerView,
    from: u64,
    datagram: Seq<u8>,
    p: PacketView,
    clock: Clock,
)
    requires
        frame::parsed(datagram) == Ok::<FrameView, Error>(FrameView::Reliable(p)),
        s.wf(),
        s.knows(from),
        s.client(from).seen.processed.contains(p.seq),
    ensures
        s.handled(from, datagram, clock) == (
            s.seen(from, clock).sent(from, frame::frame_bytes(FrameView::Ack(p.seq))),
            Some(NoteView::ReAcked { seq: p.seq, resend: p.resend }),
        ),
        s.seen(from, clock) == s.with_client(
            s.seat(from),
            ClientView { last_seen: clock.now, ..s.client(from) },
        ),
{
    let seen = s.seen(from, clock);
    handle::lemma_seen_keeps(s, from, clock);
    let c = seen.client(from);
    let i = seen.seat(from);
    let acked = seen.sent(from, frame::frame_bytes(FrameView::Ack(p.seq)));
    state::lemma_seat_of(seen.clients, from);
    assert(ClientView { seen: c.seen, ..c } == c);
    assert(acked.with_client(i, ClientView { seen: c.seen, ..c }).clients =~= acked.clients);
}

/// A piece that reaches past the end of its payload, as the piece itself
/// announces it or as the first piece did, is acked and otherwise ignored: all
/// that is kept of it is its number, so that a retransmit is known as one.
pub proof fn law_piece_past_the_end_is_ignored(
    s: ServerView,
    from: u64,
    datagram: Seq<u8>,
    p: PacketView,
    clock: Clock,
)
    requires
        frame::parsed(datagram) == Ok::<FrameView, Error>(FrameView::Reliable(p)),
        p.chunk is Some,
        !s.seen(from, clock).client(from).seen.processed.contains(p.seq),
        s.seen(from, clock).client(from).seen.past_end(p.chunk->Some_0, p.payload.len()),
    ensures
        ({
            let seen = s.seen(from, clock);
            let c = seen.client(from);
            s.handled(from, datagram, clock) == (
                seen.sent(from, frame::frame_bytes(FrameView::Ack(p.seq))).with_client(
                    seen.seat(from),
                    ClientView {
                        seen: InboundView {
                            processed: link::remembering(c.seen.processed, p.seq),
                            ..c.seen
                        },
                        ..c
                    },
                ),
                Some(NoteView::BadChunk(p.chunk->Some_0.id)),
            )
        }),
{
}

/// A datagram that does not parse changes nothing.
pub proof fn law_stray_traffic_is_ignored(
    s: ServerView,
    from: u64,
    datagram: Seq<u8>,
    clock: Clock,
)
    requires
        frame::parsed(datagram) is Err,
    ensures
        s.handled(from, datagram, clock).0 == s,
{
}

/// A newcomer gets the next client id, and ids count up.
pub proof fn law_clients_are_numbered(s: ServerView, from: u64, clock: Clock)
    requires
        s.wf(),
        !s.knows(from),
    ensures
        s.seen(from, clock).client(from).id == (PlayerId {
            client_id: s.next_client_id,
            player_index: 1,
        }),
        s.seen(from, clock).next_client_id == link::wrap32(s.next_client_id + 1),
        s.seen(from, clock).clients.len() == s.clients.len() + 1,
{
    handle::lemma_seen_keeps(s, from, clock);
    let n = s.clients.len() as int;
    let after = s.seen(from, clock);
    state::lemma_seat_of(s.clients, from);
    state::lemma_seat_of(after.clients, from);
    let grown = s.clients.push(client::newcomer(from, s.next_client_id, clock.now));
    state::lemma_seat_of(grown, from);
    assert(grown[n].addr == from);
    assert(forall|i: int| 0 <= i < n ==> grown[i] == s.clients[i]);
    assert(state::seat_of(grown, from) == n);
    assert(after.clients =~= grown.update(n, ClientView { last_seen: clock.now, ..grown[n] }));
    state::lemma_same_seat(grown, after.clients, from);
}

/// As long as the counter has not wrapped, a newcomer's id is nobody else's, and
/// stays below the counter like all others.
pub proof fn law_newcomer_gets_an_unused_id(s: ServerView, from: u64, clock: Clock)
    requires
        s.wf(),
        !s.knows(from),
        s.next_client_id < u32::MAX,
        forall|i: int|
            0 <= i < s.clients.len() ==> (#[trigger] s.clients[i]).id.client_id < s.next_client_id,
    ensures
        ({
            let after = s.seen(from, clock);
            forall|i: int|
                0 <= i < after.clients.len() ==> {
                    &&& (#[trigger] after.clients[i]).id.client_id < after.next_client_id
                    &&& after.clients[i].addr != from ==> after.clients[i].id != after.client(
                        from,
                    ).id
                }
        }),
{
    law_clients_are_numbered(s, from, clock);
    let n = s.clients.len() as int;
    let after = s.seen(from, clock);
    let grown = s.clients.push(client::newcomer(from, s.next_client_id, clock.now));
    state::lemma_seat_of(s.clients, from);
    state::lemma_seat_of(grown, from);
    assert(grown[n].addr == from);
    assert(forall|i: int| 0 <= i < n ==> grown[i] == s.clients[i]);
    assert(state::seat_of(grown, from) == n);
    assert(after.clients =~= grown.update(n, ClientView { last_seen: clock.now, ..grown[n] }));
    assert forall|i: int| 0 <= i < after.clients.len() implies {
        &&& (#[trigger] after.clients[i]).id.client_id < after.next_client_id
        &&& after.clients[i].addr != from ==> after.clients[i].id != after.client(from).id
    } by {
        if i < n {
            assert(after.clients[i] == s.clients[i]);
        }
    }
}

// ---------------------------------------------------------------------------
// Joining
// ---------------------------------------------------------------------------

/// A joining client is sent one garage for every player it is told of: the
/// host's first, then those of the members listed, in their order. The host is
/// listed last.
pub proof fn law_newcomer_gets_a_garage_per_player(s: ServerView, id: PlayerId)
    ensures
        s.commits(id).len() == s.server_info(id).players.len(),
        s.server_info(id).players.last().id == PlayerId::host(),
        s.commits(id)[0] == client::unordered(
            messages::garage_commit_bytes(PlayerId::host(), s.host.garage),
        ),
        forall|k: int|
            0 <= k < s.others(id).len() ==> {
                let c = #[trigger] s.others(id)[k];
                &&& s.server_info(id).players[k] == lobby::entry_of(c)
                &&& s.commits(id)[k + 1] == lobby::commit_of(c)
            },
{
}

/// A client that joins while a race runs holds up neither the countdown nor the
/// end of the race.
pub proof fn law_late_joiner_does_not_hold_up_the_race(
    s: ServerView,
    from: u64,
    payload: Seq<u8>,
    clock: Clock,
)
    requires
        s.wf(),
        s.knows(from),
    ensures
        ({
            let after = s.garaged(from, payload, clock).0;
            &&& after.racing == s.racing
            &&& after.all_confirmed() == s.all_confirmed()
            &&& after.all_finished() == s.all_finished()
        }),
        !client::newcomer(from, s.next_client_id, clock.now).racing,
{
    let c = s.client(from);
    state::lemma_seat_of(s.clients, from);
    let kept = s.with_client(s.seat(from), ClientView { garage: Some(payload), ..c });
    let msgs = seq![client::ordered(messages::garage_commit_bytes(c.id, payload))];
    let parked = kept.told(Audience::LobbyBut(from), msgs, clock);
    state::lemma_told_keeps(kept, Audience::LobbyBut(from), msgs, clock);
    let line = "Next race: "@ + parked.describe(parked.upcoming()) + ". Chat !help for commands."@;
    let said = seq![client::ordered(chat::system_line(line))];
    state::lemma_told_keeps(parked, Audience::One(from), said, clock);
    let after = s.garaged(from, payload, clock).0;
    assert forall|i: int| 0 <= i < s.clients.len() implies (#[trigger] after.clients[i]).racing
        == s.clients[i].racing && after.clients[i].ready == s.clients[i].ready
        && after.clients[i].finished == s.clients[i].finished by {
        assert(kept.clients[i].racing == s.clients[i].racing);
        assert(parked.clients[i].racing == s.clients[i].racing);
        if !c.in_lobby() {
            assert(parked.said(from, line, clock).clients[i].racing == s.clients[i].racing);
        }
    }
    assert(after.clients.len() == s.clients.len());
    assert(s.all_confirmed() ==> after.all_confirmed()) by {
        if s.all_confirmed() {
            assert forall|i: int|
                0 <= i < after.clients.len() && (
                #[trigger] after.clients[i]).racing implies after.clients[i].ready by {
                assert(s.clients[i].ready);
            }
        }
    }
    assert(after.all_confirmed() ==> s.all_confirmed()) by {
        if after.all_confirmed() {
            assert forall|i: int|
                0 <= i < s.clients.len() && (
                #[trigger] s.clients[i]).racing implies s.clients[i].ready by {
                assert(after.clients[i].ready);
            }
        }
    }
    assert(s.all_finished() ==> after.all_finished()) by {
        if s.all_finished() {
            assert forall|i: int|
                0 <= i < after.clients.len() && (
                #[trigger] after.clients[i]).racing implies after.clients[i].finished by {
                assert(s.clients[i].finished);
            }
        }
    }
    assert(after.all_finished() ==> s.all_finished()) by {
        if after.all_finished() {
            assert forall|i: int|
                0 <= i < s.clients.len() && (
                #[trigger] s.clients[i]).racing implies s.clients[i].finished by {
                assert(after.clients[i].finished);
            }
        }
    }
}

// ---------------------------------------------------------------------------
// Ready
// ---------------------------------------------------------------------------

/// Ready as it stands once `from` has said `ready`.
pub open spec fn ready_after(s: ServerView, i: int, from: u64, ready: bool) -> bool {
    if i == s.seat(from) {
        ready
    } else {
        s.clients[i].ready
    }
}

/// The clients once `from` has said `ready` and the others were told.
proof fn lemma_marked(
    s: ServerView,
    from: u64,
    ready: bool,
    clock: Clock,
) -> (marked: ServerView)
    requires
        s.wf(),
        s.knows(from),
    ensures
        marked == s.with_client(s.seat(from), ClientView { ready, ..s.client(from) }).told(
            Audience::LobbyBut(from),
            seq![client::ordered(messages::ready_broadcast_bytes(s.client(from).id, ready))],
            clock,
        ),
        marked.clients.len() == s.clients.len(),
        forall|i: int|
            0 <= i < s.clients.len() ==> (#[trigger] marked.clients[i]).ready == ready_after(
                s,
                i,
                from,
                ready,
            ) && marked.clients[i].in_lobby() == s.clients[i].in_lobby()
                && marked.clients[i].racing == s.clients[i].racing,
{
    let set = s.with_client(s.seat(from), ClientView { ready, ..s.client(from) });
    let msgs = seq![client::ordered(messages::ready_broadcast_bytes(s.client(from).id, ready))];
    state::lemma_seat_of(s.clients, from);
    state::lemma_told_keeps(set, Audience::LobbyBut(from), msgs, clock);
    let marked = set.told(Audience::LobbyBut(from), msgs, clock);
    assert forall|i: int| 0 <= i < s.clients.len() implies (#[trigger] marked.clients[i]).ready
        == ready_after(s, i, from, ready) && marked.clients[i].in_lobby() == s.clients[i].in_lobby()
        && marked.clients[i].racing == s.clients[i].racing by {
        assert(marked.clients[i] == ClientView { out: marked.clients[i].out, ..set.clients[i] });
    }
    marked
}

/// The race starts as soon as every joined client is ready, and not before.
pub proof fn law_race_starts_when_everyone_is_ready(
    s: ServerView,
    from: u64,
    payload: Seq<u8>,
    ready: bool,
    end: int,
    clock: Clock,
)
    requires
        s.wf(),
        s.knows(from),
        !s.racing,
        messages::read_ready(payload) == Ok::<(bool, int), Error>((ready, end)),
    ensures
        s.readied(from, payload, clock).0.racing <==> {
            &&& exists|i: int| 0 <= i < s.clients.len() && (#[trigger] s.clients[i]).in_lobby()
            &&& forall|i: int|
                0 <= i < s.clients.len() && (#[trigger] s.clients[i]).in_lobby() ==> ready_after(
                    s,
                    i,
                    from,
                    ready,
                )
        },
{
    let marked = lemma_marked(s, from, ready, clock);
    if exists|i: int| 0 <= i < s.clients.len() && (#[trigger] s.clients[i]).in_lobby() {
        let i = choose|i: int| 0 <= i < s.clients.len() && (#[trigger] s.clients[i]).in_lobby();
        assert(marked.clients[i].in_lobby());
    }
    if marked.everyone_ready() {
        let i = choose|i: int|
            0 <= i < marked.clients.len() && (#[trigger] marked.clients[i]).in_lobby();
        assert(s.clients[i].in_lobby());
        assert forall|i: int|
            0 <= i < s.clients.len() && (#[trigger] s.clients[i]).in_lobby() implies ready_after(
            s,
            i,
            from,
            ready,
        ) by {
            assert(marked.clients[i].ready);
        }
    } else if forall|i: int|
        0 <= i < s.clients.len() && (#[trigger] s.clients[i]).in_lobby() ==> ready_after(
            s,
            i,
            from,
            ready,
        ) {
        assert forall|i: int|
            0 <= i < marked.clients.len() && (
            #[trigger] marked.clients[i]).in_lobby() implies marked.clients[i].ready by {
            assert(s.clients[i].in_lobby());
        }
    }
}

/// In a race, the countdown starts with the Ready that completes the racers'
/// grid confirms, and with no other. Only racers are waited for.
pub proof fn law_countdown_starts_when_every_racer_confirmed(
    s: ServerView,
    from: u64,
    payload: Seq<u8>,
    ready: bool,
    end: int,
    clock: Clock,
)
    requires
        s.wf(),
        s.knows(from),
        s.racing,
        messages::read_ready(payload) == Ok::<(bool, int), Error>((ready, end)),
    ensures
        ({
            let goes = {
                &&& s.client(from).racing
                &&& s.client(from).ready != ready
                &&& forall|i: int|
                    0 <= i < s.clients.len() && (#[trigger] s.clients[i]).racing ==> ready_after(
                        s,
                        i,
                        from,
                        ready,
                    )
            };
            &&& s.readied(from, payload, clock).0.race_go_at == if goes {
                Some(clock.now)
            } else {
                s.race_go_at
            }
            &&& s.readied(from, payload, clock).0.racing
        }),
{
    let marked = lemma_marked(s, from, ready, clock);
    if marked.all_confirmed() {
        assert forall|i: int|
            0 <= i < s.clients.len() && (#[trigger] s.clients[i]).racing implies ready_after(
            s,
            i,
            from,
            ready,
        ) by {
            assert(marked.clients[i].ready);
        }
    } else if forall|i: int|
        0 <= i < s.clients.len() && (#[trigger] s.clients[i]).racing ==> ready_after(
            s,
            i,
            from,
            ready,
        ) {
        assert forall|i: int|
            0 <= i < marked.clients.len() && (
            #[trigger] marked.clients[i]).racing implies marked.clients[i].ready by {
            assert(s.clients[i].racing);
        }
    }
}

/// A race that starts puts exactly the lobby in it; nobody has confirmed or
/// finished yet.
pub proof fn law_race_takes_the_whole_lobby(s: ServerView, clock: Clock)
    requires
        s.wf(),
    ensures
        ({
            let after = s.race_started(clock);
            &&& after.racing
            &&& after.clients.len() == s.clients.len()
            &&& after.first_finish is None && after.race_end_at is None && after.race_go_at is None
            &&& forall|i: int|
                0 <= i < s.clients.len() ==> {
                    &&& (#[trigger] after.clients[i]).racing == s.clients[i].in_lobby()
                    &&& !after.clients[i].ready
                    &&& !after.clients[i].finished
                }
        }),
{
    state::lemma_told_keeps(s, Audience::Lobby, s.start_messages(), clock);
    let told = s.told(Audience::Lobby, s.start_messages(), clock);
    let after = s.race_started(clock);
    assert forall|i: int| 0 <= i < s.clients.len() implies {
        &&& (#[trigger] after.clients[i]).racing == s.clients[i].in_lobby()
        &&& !after.clients[i].ready
        &&& !after.clients[i].finished
    } by {
        assert(told.clients[i] == ClientView { out: told.clients[i].out, ..s.clients[i] });
    }
}

/// `c` is put in order among cars that are in order.
proof fn lemma_lined_up_stays_sorted(line: Seq<ClientView>, c: ClientView)
    requires
        forall|i: int, j: int|
            0 <= i < j < line.len() ==> (#[trigger] line[i]).id.client_id <= (
            #[trigger] line[j]).id.client_id,
    ensures
        ({
            let grown = race::lined_up_with(line, c);
            &&& grown.to_multiset() == line.to_multiset().insert(c)
            &&& grown.len() == line.len() + 1
            &&& forall|i: int, j: int|
                0 <= i < j < grown.len() ==> (#[trigger] grown[i]).id.client_id <= (
                #[trigger] grown[j]).id.client_id
            &&& forall|x: ClientView| #[trigger]
                grown.contains(x) ==> line.contains(x) || x == c
        }),
    decreases line.len(),
{
    broadcast use vstd::seq_lib::group_to_multiset_ensures;

    let grown = race::lined_up_with(line, c);
    if line.len() == 0 || line.last().id.client_id <= c.id.client_id {
        assert forall|x: ClientView| #[trigger] grown.contains(x) implies line.contains(x) || x
            == c by {
            let k = choose|k: int| 0 <= k < grown.len() && grown[k] == x;
            if k < line.len() {
                assert(line[k] == x);
            }
        }
        assert forall|i: int, j: int| 0 <= i < j < grown.len() implies (
        #[trigger] grown[i]).id.client_id <= (#[trigger] grown[j]).id.client_id by {
            if j == line.len() {
                assert(line[i].id.client_id <= line[line.len() - 1].id.client_id || i
                    == line.len() - 1);
            }
        }
    } else {
        let init = line.drop_last();
        let last = line.last();
        lemma_lined_up_stays_sorted(init, c);
        let before = race::lined_up_with(init, c);
        assert(grown == before.push(last));
        assert(line =~= init.push(last));
        assert(grown.to_multiset() =~= line.to_multiset().insert(c));
        assert forall|x: ClientView| #[trigger] grown.contains(x) implies line.contains(x) || x
            == c by {
            let k = choose|k: int| 0 <= k < grown.len() && grown[k] == x;
            if k < before.len() {
                assert(before[k] == x);
                assert(before.contains(x));
                if x != c {
                    let m = choose|m: int| 0 <= m < init.len() && init[m] == x;
                    assert(line[m] == x);
                }
            } else {
                assert(line[line.len() - 1] == x);
            }
        }
        assert forall|i: int, j: int| 0 <= i < j < grown.len() implies (
        #[trigger] grown[i]).id.client_id <= (#[trigger] grown[j]).id.client_id by {
            if j == before.len() {
                assert(before.contains(grown[i])) by {
                    assert(before[i] == grown[i]);
                }
                if grown[i] != c {
                    let m = choose|m: int| 0 <= m < init.len() && init[m] == grown[i];
                    assert(line[m].id.client_id <= line[line.len() - 1].id.client_id);
                }
            }
        }
    }
}

/// The grid holds every lobby member's car once, in the order of their client
/// ids.
pub proof fn law_grid_is_the_lobby_in_order(clients: Seq<ClientView>)
    ensures
        ({
            let line = race::line_up(clients);
            &&& line.to_multiset() == clients.filter(
                |c: ClientView| c.in_lobby(),
            ).to_multiset()
            &&& forall|i: int, j: int|
                0 <= i < j < line.len() ==> (#[trigger] line[i]).id.client_id <= (
                #[trigger] line[j]).id.client_id
        }),
    decreases clients.len(),
{
    broadcast use vstd::seq_lib::group_to_multiset_ensures;

    reveal(Seq::filter);
    let joined = |c: ClientView| c.in_lobby();
    if clients.len() > 0 {
        let init = clients.drop_last();
        law_grid_is_the_lobby_in_order(init);
        if clients.last().in_lobby() {
            lemma_lined_up_stays_sorted(race::line_up(init), clients.last());
            assert(clients.filter(joined) == init.filter(joined).push(clients.last()));
        } else {
            assert(clients.filter(joined) == init.filter(joined));
        }
    }
}

// ---------------------------------------------------------------------------
// The phantom host
// ---------------------------------------------------------------------------

/// The phantom's streamed state is the one it started with, but for the grid
/// flag, which clears three seconds after the race went, and the clock.
pub proof fn law_streamed_state_patches_flag_and_clock(s: ServerView, clock: Clock)
    requires
        s.host_state.len() >= CAR_STATE_LEN,
    ensures
        ({
            let live = s.live_host_state(clock);
            let at = s.host_state.len() - CAR_STATE_LEN;
            &&& live.len() == s.host_state.len()
            &&& live[at + CAR_STATE_GRID_HOLD] == (if s.race_go_at is None || link::elapsed(
                clock.now,
                s.race_go_at->Some_0,
            ) < GRID_HOLD {
                1u8
            } else {
                0u8
            })
            &&& live.subrange(at + CAR_STATE_CLOCK, at + CAR_STATE_CLOCK + 4) == le::u32_bytes(
                clock.seconds,
            )
            &&& forall|i: int|
                0 <= i < live.len() && i != at + CAR_STATE_GRID_HOLD && !(at + CAR_STATE_CLOCK <= i
                    < at + CAR_STATE_CLOCK + 4) ==> #[trigger] live[i] == s.host_state[i]
        }),
{
    let live = s.live_host_state(clock);
    let at = s.host_state.len() - CAR_STATE_LEN;
    assert(live.subrange(at + CAR_STATE_CLOCK, at + CAR_STATE_CLOCK + 4) =~= le::u32_bytes(
        clock.seconds,
    ));
}

/// The car that is spawned for the phantom and the state that is streamed for it
/// agree on its pose.
pub proof fn law_spawn_and_state_agree_on_the_pose(s: ServerView, clock: Clock)
    requires
        s.wf(),
    ensures
        ({
            let after = s.race_started(clock);
            let at = after.host_state.len() - CAR_STATE_LEN;
            &&& after.host_state.subrange(at, at + 28) == messages::pose_bytes(s.host_pose()@)
            &&& s.start_messages()[2].payload == messages::spawn_car_bytes(
                PlayerId::host(),
                HOST_ENTITY,
                s.host.garage,
                s.host_pose()@,
            )
        }),
{
    messages::lemma_pose_bytes_width(s.host_pose()@);
    let after = s.race_started(clock);
    let at = after.host_state.len() - CAR_STATE_LEN;
    assert(after.host_state.subrange(at, at + 28) =~= messages::pose_bytes(s.host_pose()@));
}

} // verus!
