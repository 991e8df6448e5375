//! What a race, a change of track and a departure leave of the state, and in what
//! order time does its work.

use vstd::prelude::*;

use crate::link::DatagramView;
use crate::messages::Finish;
use crate::server::client;
use crate::server::client::{ClientView, Clock, MessageView};
use crate::server::race_laws;
use crate::server::start_laws;
use crate::server::state;
use crate::server::state::{Audience, ServerView};

verus! {

/// The same client with the same flags and the same vote.
pub open spec fn same_player(a: ClientView, b: ClientView) -> bool {
    &&& race_laws::kept(a, b)
    &&& b.racing == a.racing && b.ready == a.ready && b.finished == a.finished
    &&& b.vote == a.vote
}

/// Clocks, tracks and settings are as they were.
pub open spec fn same_race(a: ServerView, b: ServerView) -> bool {
    &&& b.racing == a.racing && b.first_finish == a.first_finish && b.race_end_at == a.race_end_at
    &&& b.race_go_at == a.race_go_at && b.host_time == a.host_time && b.host_state == a.host_state
    &&& b.next_tick == a.next_tick && b.next_car_state == a.next_car_state
    &&& b.next_client_id == a.next_client_id
    &&& b.maps == a.maps && b.settings == a.settings && b.name == a.name && b.host == a.host
}

proof fn lemma_told(s: ServerView, to: Audience, msgs: Seq<MessageView>, clock: Clock)
    ensures
        ({
            let after = s.told(to, msgs, clock);
            &&& same_race(s, after) && after.map_index == s.map_index
            &&& after.clients.len() == s.clients.len()
            &&& forall|i: int|
                0 <= i < s.clients.len() ==> same_player(s.clients[i], #[trigger] after.clients[i])
        }),
{
    let after = s.told(to, msgs, clock);
    state::lemma_told_keeps(s, to, msgs, clock);
    assert forall|i: int| 0 <= i < s.clients.len() implies same_player(
        s.clients[i],
        #[trigger] after.clients[i],
    ) by {
        assert(after.clients[i] == ClientView { out: after.clients[i].out, ..s.clients[i] });
    }
}

/// A race starts afresh: nobody has finished it or confirmed at its grid, it has
/// not gone and has no end; exactly the lobby races. Votes stay, and the lobby
/// stays on its track.
pub proof fn law_race_starts_afresh(s: ServerView, clock: Clock)
    ensures
        ({
            let after = s.race_started(clock);
            &&& after.racing && after.first_finish is None && after.race_end_at is None
                && after.race_go_at is None
            &&& after.map_index == s.map_index && after.maps == s.maps && after.host_time
                == s.host_time
            &&& after.clients.len() == s.clients.len()
            &&& forall|i: int|
                0 <= i < s.clients.len() ==> {
                    let c = #[trigger] after.clients[i];
                    &&& race_laws::kept(s.clients[i], c) && c.vote == s.clients[i].vote
                    &&& c.racing == (s.clients[i].garage is Some) && !c.ready && !c.finished
                }
        }),
{
    let told = s.told(Audience::Lobby, s.start_messages(), clock);
    lemma_told(s, Audience::Lobby, s.start_messages(), clock);
    let after = s.race_started(clock);
    assert(after.clients == told.flags_reset(true).clients);
    assert forall|i: int| 0 <= i < s.clients.len() implies {
        let c = #[trigger] after.clients[i];
        &&& race_laws::kept(s.clients[i], c) && c.vote == s.clients[i].vote
        &&& c.racing == (s.clients[i].garage is Some) && !c.ready && !c.finished
    } by {
        assert(same_player(s.clients[i], told.clients[i]));
    }
}

/// A change of track withdraws the votes, and changes nothing else of anyone: who
/// is ready stays ready. The lobby's line about it is kept for the log.
pub proof fn law_track_change_keeps_the_players(s: ServerView, index: int, clock: Clock)
    ensures
        ({
            let after = s.moved_to(index, clock);
            &&& same_race(s, after) && after.map_index == index
            &&& after.clients.len() == s.clients.len()
            &&& forall|i: int|
                0 <= i < s.clients.len() ==> {
                    let c = #[trigger] after.clients[i];
                    &&& race_laws::kept(s.clients[i], c) && c.vote is None
                    &&& c.racing == s.clients[i].racing && c.ready == s.clients[i].ready
                        && c.finished == s.clients[i].finished
                }
            &&& after.said == s.said.push(
                "Next race: "@ + start_laws::described(s, index) + ". !vote picks another."@,
            )
        }),
{
    let on = ServerView { map_index: index, ..s };
    let t = s.maps[index];
    let news = seq![
        client::ordered(crate::messages::lobby_change_map_bytes(t.name, t.variant)),
    ];
    let told = on.told(Audience::Lobby, news, clock);
    let moved = told.votes_cleared();
    let line = "Next race: "@ + moved.describe(index) + ". !vote picks another."@;
    let msgs = seq![client::ordered(crate::server::chat::system_line(line))];
    lemma_told(on, Audience::Lobby, news, clock);
    lemma_told(moved, Audience::Lobby, msgs, clock);
    let after = s.moved_to(index, clock);
    assert(after.clients == moved.told(Audience::Lobby, msgs, clock).clients);
    assert forall|i: int| 0 <= i < s.clients.len() implies {
        let c = #[trigger] after.clients[i];
        &&& race_laws::kept(s.clients[i], c) && c.vote is None
        &&& c.racing == s.clients[i].racing && c.ready == s.clients[i].ready && c.finished
            == s.clients[i].finished
    } by {
        assert(same_player(on.clients[i], told.clients[i]));
        assert(moved.clients[i] == ClientView { vote: None, ..told.clients[i] });
        assert(same_player(
            moved.clients[i],
            moved.told(Audience::Lobby, msgs, clock).clients[i],
        ));
    }
    assert(moved.describe(index) =~= start_laws::described(s, index));
}

/// When someone leaves and the race goes on, or none runs, everyone else stays as
/// they were, flags and votes included, and in the same order.
pub proof fn law_departure_keeps_the_others(s: ServerView, addr: u64, clock: Clock)
    requires
        s.wf(),
        s.knows(addr),
        s.removed(addr, clock).racing == s.racing,
    ensures
        ({
            let after = s.removed(addr, clock);
            let rest = s.clients.remove(s.seat(addr));
            &&& after.clients.len() == rest.len()
            &&& forall|i: int|
                0 <= i < rest.len() ==> same_player(rest[i], #[trigger] after.clients[i])
            &&& after.map_index == s.map_index && after.first_finish == s.first_finish
                && after.race_go_at == s.race_go_at && after.host_time == s.host_time
            &&& after.next_client_id == s.next_client_id
        }),
{
    let rest = ServerView { clients: s.clients.remove(s.seat(addr)), ..s };
    let left = seq![
        client::unordered(crate::messages::player_left_bytes(s.client(addr).id)),
    ];
    lemma_told(rest, Audience::Lobby, left, clock);
    let heard = race_laws::without(s, addr, clock);
    race_laws::law_race_end_rotates(heard, clock);
    if heard.racing && heard.size(Audience::Lobby) == 0 {
        assert(!s.removed(addr, clock).racing);
    } else {
        let phantom = seq![
            client::unordered(
                crate::messages::car_crossed_finish_bytes(
                    crate::player::PlayerId::host(),
                    Finish {
                        entity: crate::server::race::HOST_ENTITY,
                        generation: crate::messages::GENERATION,
                        time_bits: heard.host_time,
                    },
                ),
            ),
        ];
        lemma_told(heard, Audience::Lobby, phantom, clock);
        let told = heard.told(Audience::Lobby, phantom, clock);
        let after = s.removed(addr, clock);
        assert(after.clients == heard.clients || after.clients == told.clients);
        assert forall|i: int| 0 <= i < rest.clients.len() implies same_player(
            rest.clients[i],
            #[trigger] after.clients[i],
        ) by {
            if s.client(addr).in_lobby() {
                assert(same_player(rest.clients[i], heard.clients[i]));
            }
            assert(same_player(heard.clients[i], told.clients[i]));
        }
    }
}

/// The phantom's time is the one that came with the latest announcement.
pub proof fn law_phantom_takes_the_latest_time(
    s: ServerView,
    from: u64,
    shown: Seq<char>,
    host_time: u64,
    clock: Clock,
)
    ensures
        s.finish_announced(from, shown, host_time, clock).host_time == if s.knows(from) {
            host_time
        } else {
            s.host_time
        },
        !s.knows(from) ==> s.finish_announced(from, shown, host_time, clock) == s,
{
}

/// Time does its work in order: the tick that is due, the car state that is due
/// then, and the end of the race that is over then.
pub proof fn law_time_does_its_work_in_order(s: ServerView, clock: Clock)
    requires
        clock.now + 1_000_000_000 <= u64::MAX,
    ensures
        ({
            let ticked = s.ticked_if_due(clock);
            let streamed = ticked.streamed_if_due(clock);
            let over = (streamed.race_end_at matches Some(t) && clock.now >= t) || (
            streamed.first_finish matches Some(t) && clock.now >= t + 180_000_000_000);
            &&& clock.now >= s.next_tick ==> ticked == (ServerView {
                next_tick: (clock.now + 1_000_000_000) as u64,
                ..s.ticked(clock)
            })
            &&& clock.now < s.next_tick ==> ticked == s
            &&& s.advanced(clock) == if streamed.racing && over {
                streamed.race_ended(clock)
            } else {
                streamed
            }
        }),
{
}

/// What an audience is told or sent goes out client by client, in the order they
/// came.
pub proof fn law_mail_goes_out_client_by_client(
    early: Seq<ClientView>,
    late: Seq<ClientView>,
    c: ClientView,
    to: Audience,
    msgs: Seq<MessageView>,
    bytes: Seq<u8>,
    clock: Clock,
)
    ensures
        state::all_mail(early + late, to, msgs, clock) == state::all_mail(early, to, msgs, clock)
            + state::all_mail(late, to, msgs, clock),
        state::all_mail(seq![c], to, msgs, clock) == (if to.has(c) {
            c.mail(msgs, clock)
        } else {
            Seq::empty()
        }),
        state::all_posted(early + late, to, bytes) == state::all_posted(early, to, bytes)
            + state::all_posted(late, to, bytes),
        state::all_posted(seq![c], to, bytes) == (if to.has(c) {
            seq![DatagramView { to: c.addr, bytes }]
        } else {
            Seq::empty()
        }),
    decreases late.len(),
{
    let none = Seq::<ClientView>::empty();
    assert(seq![c].drop_last() =~= none);
    assert(state::all_mail(none, to, msgs, clock) =~= Seq::empty());
    assert(state::all_posted(none, to, bytes) =~= Seq::empty());
    if late.len() == 0 {
        assert(early + late =~= early);
    } else {
        let all = early + late;
        law_mail_goes_out_client_by_client(early, late.drop_last(), c, to, msgs, bytes, clock);
        assert(all.drop_last() =~= early + late.drop_last());
        assert(all.last() == late.last());
    }
}

} // verus!
