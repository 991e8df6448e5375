//! What is noted of a datagram, and which of them change nothing.

use vstd::prelude::*;

use crate::bytes;
use crate::error::Error;
use crate::event;
use crate::event::Event;
use crate::frame;
use crate::frame::{FrameView, PacketView};
use crate::messages;
use crate::messages::Finish;
use crate::player;
use crate::player::{ClientInfoView, PlayerId};
use crate::server::chat;
use crate::server::client::{ClientView, Clock};
use crate::server::handle;
use crate::server::note::NoteView;
use crate::server::relay_laws;
use crate::server::start_laws;
use crate::server::state;
use crate::server::state::ServerView;

verus! {

/// How many others than `from` are in the lobby.
pub open spec fn others(s: ServerView, from: u64) -> nat {
    start_laws::count(s.clients, |c: ClientView| c.garage is Some && c.addr != from)
}

/// What is passed on to the lobby is noted with how many it went to: everyone in
/// it but the sender.
pub proof fn law_notes_count_who_hears(
    s: ServerView,
    from: u64,
    payload: Seq<u8>,
    line: Seq<char>,
    end: int,
    clock: Clock,
)
    requires
        s.clients.len() <= usize::MAX,
        s.knows(from),
    ensures
        ({
            let noted = s.heard(from, payload, clock).1;
            let peers = others(s, from) as usize;
            &&& event::event_of(payload) == Ok::<Event, Error>(Event::GarageState) ==> noted
                == Some(NoteView::GarageCommitted { peers })
            &&& event::event_of(payload) == Ok::<Event, Error>(Event::Chat) && messages::read_chat(
                payload,
            ) == Ok::<(Seq<char>, int), Error>((line, end)) ==> noted == if s.client(from).garage
                is None {
                None
            } else {
                match chat::command_in(line, s.client(from).name()) {
                    None => Some(NoteView::ChatRelayed { peers }),
                    Some(command) => Some(NoteView::CommandHandled { command }),
                }
            }
        }),
        others(s, from) <= s.clients.len(),
{
    relay_laws::law_audiences_are_counted(s, from);
    lemma_others(s.clients, from);
}

proof fn lemma_others(clients: Seq<ClientView>, from: u64)
    ensures
        start_laws::count(clients, |c: ClientView| c.garage is Some && c.addr != from)
            <= clients.len(),
    decreases clients.len(),
{
    if clients.len() > 0 {
        lemma_others(clients.drop_last(), from);
    }
}

/// A Ready is noted as what it did: it started the race, it completed the grid,
/// it was one of several, or it came from someone who is not in the race.
pub proof fn law_ready_is_noted(
    s: ServerView,
    from: u64,
    payload: Seq<u8>,
    ready: bool,
    end: int,
    clock: Clock,
)
    requires
        s.wf(),
        s.clients.len() <= usize::MAX,
        s.knows(from),
        event::event_of(payload) == Ok::<Event, Error>(Event::Ready),
        messages::read_ready(payload) == Ok::<(bool, int), Error>((ready, end)),
    ensures
        ({
            let after = s.heard(from, payload, clock).0;
            let noted = s.heard(from, payload, clock).1;
            let peers = others(s, from) as usize;
            &&& !s.racing && after.racing ==> noted == Some(NoteView::RaceStarted { ready })
            &&& !s.racing && !after.racing ==> noted == Some(
                NoteView::ReadyChanged { ready, peers },
            )
            &&& s.racing && !s.client(from).racing ==> noted == Some(
                NoteView::ReadyDuringRace { ready, peers },
            )
            &&& s.racing && s.client(from).racing ==> noted == Some(
                NoteView::GridConfirmed { ready, peers },
            ) || noted == Some(NoteView::EveryoneConfirmed { ready })
            &&& noted == Some(NoteView::EveryoneConfirmed { ready }) ==> after.race_go_at == Some(
                clock.now,
            )
        }),
{
    relay_laws::law_audiences_are_counted(s, from);
}

/// An event whose body cannot be read is noted with why, and changes nothing.
pub proof fn law_unreadable_events_change_nothing(
    s: ServerView,
    from: u64,
    payload: Seq<u8>,
    error: Error,
    clock: Clock,
)
    ensures
        event::event_of(payload) == Ok::<Event, Error>(Event::ClientInfo)
            && player::read_client_info(payload) == Err::<(ClientInfoView, int), Error>(error)
            ==> s.heard(from, payload, clock) == (
            s,
            Some(NoteView::BadEvent { what: "ClientInfo", error }),
        ),
        event::event_of(payload) == Ok::<Event, Error>(Event::Chat) && messages::read_chat(payload)
            == Err::<(Seq<char>, int), Error>(error) ==> s.heard(from, payload, clock) == (
            s,
            Some(NoteView::BadEvent { what: "chat", error }),
        ),
        event::event_of(payload) == Ok::<Event, Error>(Event::CrossedFinish)
            && messages::read_crossed_finish(payload) == Err::<(Finish, int), Error>(error)
            ==> s.heard(from, payload, clock) == (
            s,
            Some(NoteView::BadEvent { what: "CrossedFinish", error }),
        ),
        event::event_of(payload) == Ok::<Event, Error>(Event::Ready) && messages::read_ready(
            payload,
        ) == Err::<(bool, int), Error>(error) ==> s.heard(from, payload, clock) == (
            s,
            Some(NoteView::BadEvent { what: "Ready", error }),
        ),
        event::event_of(payload) == Ok::<Event, Error>(Event::RequestVisitGarage)
            && messages::read_id_event(payload, Event::RequestVisitGarage, "RequestVisitGarage")
            == Err::<(PlayerId, int), Error>(error) ==> s.heard(from, payload, clock) == (
            s,
            Some(NoteView::BadEvent { what: "RequestVisitGarage", error }),
        ),
        bytes::read_u32(payload, 0) == Err::<(u32, int), Error>(error) ==> s.heard(
            from,
            payload,
            clock,
        ) == (s, Some(NoteView::BadEvent { what: "event", error })) && s.heard_loosely(
            from,
            payload,
            clock,
        ) == (s, Some(NoteView::BadEvent { what: "event", error })),
{
}

/// Of a client that is not in the lobby nothing is passed on: neither where its
/// car or its avatar is, nor what it does.
pub proof fn law_outsiders_reach_nobody(
    s: ServerView,
    from: u64,
    payload: Seq<u8>,
    disc: u32,
    clock: Clock,
)
    requires
        s.knows(from),
        s.client(from).garage is None,
        bytes::read_u32(payload, 0) == Ok::<(u32, int), Error>((disc, 4)),
        messages::twin_of(disc) is Some,
    ensures
        disc != 6 && disc != 16 ==> s.heard(from, payload, clock).0 == s,
        s.heard_loosely(from, payload, clock).0 == s,
{
}

/// A visit to a player that is not there is noted and changes nothing.
pub proof fn law_visit_to_nobody_changes_nothing(
    s: ServerView,
    from: u64,
    payload: Seq<u8>,
    owner: PlayerId,
    end: int,
    clock: Clock,
)
    requires
        s.knows(from),
        owner != start_laws::host_id(),
        forall|i: int| 0 <= i < s.clients.len() ==> (#[trigger] s.clients[i]).id != owner,
        event::event_of(payload) == Ok::<Event, Error>(Event::RequestVisitGarage),
        messages::read_id_event(payload, Event::RequestVisitGarage, "RequestVisitGarage") == Ok::<
            (PlayerId, int),
            Error,
        >((owner, end)),
    ensures
        s.heard(from, payload, clock) == (s, Some(NoteView::UnknownOwner(owner))),
{
    lemma_no_such_player(s.clients, owner);
}

proof fn lemma_no_such_player(clients: Seq<ClientView>, owner: PlayerId)
    requires
        forall|i: int| 0 <= i < clients.len() ==> (#[trigger] clients[i]).id != owner,
    ensures
        state::seat_of_player(clients, owner) == clients.len(),
    decreases clients.len(),
{
    if clients.len() > 0 {
        let rest = clients.skip(1);
        assert forall|i: int| 0 <= i < rest.len() implies (#[trigger] rest[i]).id != owner by {
            assert(rest[i] == clients[i + 1]);
        }
        lemma_no_such_player(rest, owner);
        assert(clients[0].id != owner);
    }
}

/// A greeting is noted as one if it holds the game's number, 257, and as odd if
/// it holds another; both are echoed. A datagram that does not parse is noted
/// with its length and changes nothing.
pub proof fn law_greetings_and_noise_are_noted(
    s: ServerView,
    from: u64,
    n: u32,
    datagram: Seq<u8>,
    error: Error,
    clock: Clock,
)
    requires
        datagram.len() <= usize::MAX,
    ensures
        s.handled(from, frame::frame_bytes(FrameView::Greeting(n)), clock).1 == if n == 257 {
            Some(NoteView::GreetingEchoed)
        } else {
            Some(NoteView::UnexpectedGreeting(n))
        },
        frame::parsed(datagram) == Err::<FrameView, Error>(error) ==> s.handled(
            from,
            datagram,
            clock,
        ) == (s, Some(NoteView::Ignored { len: datagram.len() as usize, error })),
{
    frame::law_encoded_frame_parses_back(FrameView::Greeting(n));
}

/// An ack is noted where nothing waits for it, and only there; a packet that came
/// before is noted with its number and how often it was sent.
pub proof fn law_idle_acks_and_repeats_are_noted(
    s: ServerView,
    from: u64,
    n: u32,
    p: PacketView,
    clock: Clock,
)
    requires
        s.wf(),
        s.knows(from),
        p.payload.len() <= u64::MAX,
        s.client(from).seen.processed.contains(p.seq),
    ensures
        s.handled(from, frame::frame_bytes(FrameView::Ack(n)), clock).1 == (if exists|k: int|
            0 <= k < s.client(from).out.pending.len() && (#[trigger] s.client(
                from,
            ).out.pending[k]).packet.seq == n {
            None
        } else {
            Some(NoteView::AckForNothing(n))
        }),
        s.handled(from, frame::frame_bytes(FrameView::Reliable(p)), clock).1 == Some(
            NoteView::ReAcked { seq: p.seq, resend: p.resend },
        ),
{
    frame::law_encoded_frame_parses_back(FrameView::Ack(n));
    frame::law_encoded_frame_parses_back(FrameView::Reliable(p));
    handle::lemma_seen_keeps(s, from, clock);
    let seen = s.seen(from, clock);
    state::lemma_seat_of(s.clients, from);
    state::lemma_same_seat(s.clients, seen.clients, from);
    let pending = s.client(from).out.pending;
    assert(seen.client(from).out.pending == pending);
    lemma_filtered(pending, n);
}

proof fn lemma_filtered(pending: Seq<crate::link::PendingView>, n: u32)
    ensures
        pending.filter(|p: crate::link::PendingView| p.packet.seq != n).len() <= pending.len(),
        pending.filter(|p: crate::link::PendingView| p.packet.seq != n).len() == pending.len()
            <==> !exists|k: int|
            0 <= k < pending.len() && (#[trigger] pending[k]).packet.seq == n,
    decreases pending.len(),
{
    let keep = |p: crate::link::PendingView| p.packet.seq != n;
    reveal(Seq::filter);
    if pending.len() > 0 {
        let init = pending.drop_last();
        lemma_filtered(init, n);
        if exists|k: int| 0 <= k < init.len() && (#[trigger] init[k]).packet.seq == n {
            let k = choose|k: int| 0 <= k < init.len() && (#[trigger] init[k]).packet.seq == n;
            assert(pending[k].packet.seq == n);
        }
        if exists|k: int| 0 <= k < pending.len() && (#[trigger] pending[k]).packet.seq == n {
            let k = choose|k: int|
                0 <= k < pending.len() && (#[trigger] pending[k]).packet.seq == n;
            if k < init.len() {
                assert(init[k].packet.seq == n);
            }
        }
        assert(pending.last() == pending[pending.len() - 1]);
    }
}

/// A pong changes nothing; a client that leaves is noted with the reason it gives,
/// or with none.
pub proof fn law_pongs_and_departures_are_noted(
    s: ServerView,
    from: u64,
    payload: Seq<u8>,
    clock: Clock,
)
    ensures
        event::event_of(payload) == Ok::<Event, Error>(Event::Pong) ==> s.heard_loosely(
            from,
            payload,
            clock,
        ) == (s, None::<NoteView>),
        event::event_of(payload) == Ok::<Event, Error>(Event::Disconnect) ==> s.heard(
            from,
            payload,
            clock,
        ) == (
            s.removed(from, clock),
            Some(
                NoteView::Disconnected {
                    reason: match messages::read_disconnect(payload) {
                        Ok((reason, _)) => reason,
                        Err(_) => 0,
                    },
                },
            ),
        ),
{
}

} // verus!
