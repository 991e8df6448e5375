//! What the server promises of the end of a race, of leaving, and of votes.

use vstd::prelude::*;

use crate::error::Error;
use crate::event;
use crate::event::Event;
use crate::link;
use crate::messages;
use crate::messages::{Finish, GENERATION};
use crate::player::PlayerId;
use crate::seqs;
use crate::server::chat;
use crate::server::client;
use crate::server::client::{ClientView, Clock, MessageView};
use crate::server::growth;
use crate::server::laws;
use crate::server::race::{HOST_ENTITY, RACE_END_DELAY};
use crate::server::relay::AVATAR_RELAY_INTERVAL;
use crate::server::state;
use crate::server::state::{Audience, ServerView};
use crate::server::votes;
use crate::text;

verus! {

// ---------------------------------------------------------------------------
// Clients stay who they are
// ---------------------------------------------------------------------------

/// `b` is the client `a`: packets, flags and votes aside, nothing changed.
pub open spec fn kept(a: ClientView, b: ClientView) -> bool {
    &&& b.addr == a.addr
    &&& b.id == a.id
    &&& b.info == a.info
    &&& b.last_seen == a.last_seen
    &&& b.garage == a.garage
    &&& b.seen == a.seen
    &&& b.visitors == a.visitors
    &&& b.last_avatar == a.last_avatar
}

/// The same clients, in the same order.
pub open spec fn all_kept(a: Seq<ClientView>, b: Seq<ClientView>) -> bool {
    &&& a.len() == b.len()
    &&& forall|i: int| 0 <= i < a.len() ==> kept(#[trigger] a[i], b[i])
}

/// No two clients share a key.
pub open spec fn distinct(clients: Seq<ClientView>) -> bool {
    forall|i: int, j: int|
        0 <= i < j < clients.len() ==> (#[trigger] clients[i]).addr != (#[trigger] clients[j]).addr
}

pub proof fn lemma_all_kept_twice(a: Seq<ClientView>, b: Seq<ClientView>, c: Seq<ClientView>)
    requires
        all_kept(a, b),
        all_kept(b, c),
    ensures
        all_kept(a, c),
{
    assert forall|i: int| 0 <= i < a.len() implies kept(#[trigger] a[i], c[i]) by {
        assert(kept(a[i], b[i]));
        assert(kept(b[i], c[i]));
    }
}

pub proof fn lemma_told_keeps_all(s: ServerView, to: Audience, msgs: Seq<MessageView>, clock: Clock)
    ensures
        all_kept(s.clients, s.told(to, msgs, clock).clients),
{
    state::lemma_told_keeps(s, to, msgs, clock);
    let after = s.told(to, msgs, clock);
    assert forall|i: int| 0 <= i < s.clients.len() implies kept(
        #[trigger] s.clients[i],
        after.clients[i],
    ) by {
        assert(after.clients[i] == ClientView { out: after.clients[i].out, ..s.clients[i] });
    }
}

pub proof fn lemma_moved_keeps_all(s: ServerView, index: int, clock: Clock)
    ensures
        all_kept(s.clients, s.moved_to(index, clock).clients),
        s.moved_to(index, clock).racing == s.racing,
        s.moved_to(index, clock).map_index == index,
        s.moved_to(index, clock).race_end_at == s.race_end_at,
        s.moved_to(index, clock).first_finish == s.first_finish,
        forall|i: int|
            0 <= i < s.clients.len() ==> {
                &&& (#[trigger] s.moved_to(index, clock).clients[i]).vote is None
                &&& s.moved_to(index, clock).clients[i].racing == s.clients[i].racing
                &&& s.moved_to(index, clock).clients[i].ready == s.clients[i].ready
                &&& s.moved_to(index, clock).clients[i].finished == s.clients[i].finished
            },
{
    let t = s.maps[index];
    let on = ServerView { map_index: index, ..s };
    let change = seq![client::ordered(messages::lobby_change_map_bytes(t.name, t.variant))];
    let told = on.told(Audience::Lobby, change, clock);
    let moved = told.votes_cleared();
    let line = "Next race: "@ + moved.describe(index) + ". !vote picks another."@;
    let said = seq![client::ordered(chat::system_line(line))];
    let after = s.moved_to(index, clock);
    assert(after.clients == moved.told(Audience::Lobby, said, clock).clients);
    lemma_told_keeps_all(on, Audience::Lobby, change, clock);
    state::lemma_told_keeps(on, Audience::Lobby, change, clock);
    lemma_told_keeps_all(moved, Audience::Lobby, said, clock);
    state::lemma_told_keeps(moved, Audience::Lobby, said, clock);
    assert(all_kept(told.clients, moved.clients));
    lemma_all_kept_twice(s.clients, told.clients, moved.clients);
    lemma_all_kept_twice(s.clients, moved.clients, after.clients);
    assert forall|i: int| 0 <= i < s.clients.len() implies {
        &&& (#[trigger] after.clients[i]).vote is None
        &&& after.clients[i].racing == s.clients[i].racing
        &&& after.clients[i].ready == s.clients[i].ready
        &&& after.clients[i].finished == s.clients[i].finished
    } by {
        assert(told.clients[i] == ClientView { out: told.clients[i].out, ..s.clients[i] });
        assert(moved.clients[i] == ClientView { vote: None, ..told.clients[i] });
        assert(after.clients[i] == ClientView { out: after.clients[i].out, ..moved.clients[i] });
    }
}

/// The messages that close a race.
spec fn closing(s: ServerView) -> Seq<MessageView> {
    seq![
        client::ordered(messages::tagged(Event::RaceEnd, seq![1u8])),
        client::ordered(messages::garage_commit_bytes(PlayerId::host(), s.host.garage)),
    ]
}

pub proof fn lemma_closed(s: ServerView, clock: Clock)
    ensures
        ({
            let closed = s.race_closed(clock);
            &&& all_kept(s.clients, closed.clients)
            &&& !closed.racing && closed.race_end_at is None && closed.first_finish is None
            &&& closed.map_index == s.map_index && closed.maps == s.maps
            &&& forall|i: int|
                0 <= i < s.clients.len() ==> {
                    &&& !(#[trigger] closed.clients[i]).racing && !closed.clients[i].ready
                        && !closed.clients[i].finished
                    &&& closed.clients[i].vote == s.clients[i].vote
                }
        }),
{
    let closed = s.race_closed(clock);
    lemma_told_keeps_all(s, Audience::Lobby, closing(s), clock);
    state::lemma_told_keeps(s, Audience::Lobby, closing(s), clock);
    let told = s.told(Audience::Lobby, closing(s), clock);
    assert(closed.clients == told.flags_reset(false).clients);
    assert forall|i: int| 0 <= i < s.clients.len() implies {
        &&& kept(#[trigger] s.clients[i], closed.clients[i])
        &&& !closed.clients[i].racing && !closed.clients[i].ready && !closed.clients[i].finished
        &&& closed.clients[i].vote == s.clients[i].vote
    } by {
        assert(told.clients[i] == ClientView { out: told.clients[i].out, ..s.clients[i] });
        assert(kept(s.clients[i], told.clients[i]));
    }
    assert forall|i: int| 0 <= i < s.clients.len() implies {
        &&& !(#[trigger] closed.clients[i]).racing && !closed.clients[i].ready
            && !closed.clients[i].finished
        &&& closed.clients[i].vote == s.clients[i].vote
    } by {
        assert(kept(s.clients[i], closed.clients[i]));
    }
}

/// Votes count alike where clients and their votes are the same.
proof fn lemma_same_votes(a: ServerView, b: ServerView, index: int)
    requires
        a.clients.len() == b.clients.len(),
        forall|i: int|
            0 <= i < a.clients.len() ==> (#[trigger] a.clients[i]).in_lobby()
                == b.clients[i].in_lobby() && a.clients[i].vote == b.clients[i].vote,
    ensures
        a.votes_for(index) == b.votes_for(index),
{
    lemma_same_count(a.clients, b.clients, |c: ClientView| c.wants(index));
}

/// Clients that agree on `p` have as many that pass it.
proof fn lemma_same_count(
    a: Seq<ClientView>,
    b: Seq<ClientView>,
    p: spec_fn(ClientView) -> bool,
)
    requires
        a.len() == b.len(),
        forall|i: int| 0 <= i < a.len() ==> p(#[trigger] a[i]) == p(b[i]),
    ensures
        a.filter(p).len() == b.filter(p).len(),
    decreases a.len(),
{
    reveal(Seq::filter);
    if a.len() > 0 {
        assert forall|i: int| 0 <= i < a.len() - 1 implies p(#[trigger] a.drop_last()[i]) == p(
            b.drop_last()[i],
        ) by {
            assert(a.drop_last()[i] == a[i]);
        }
        lemma_same_count(a.drop_last(), b.drop_last(), p);
        assert(p(a[a.len() - 1]) == p(b[b.len() - 1]));
    }
}

pub proof fn lemma_same_leader(a: ServerView, b: ServerView)
    requires
        a.maps == b.maps,
        a.clients.len() == b.clients.len(),
        forall|i: int|
            0 <= i < a.clients.len() ==> (#[trigger] a.clients[i]).in_lobby()
                == b.clients[i].in_lobby() && a.clients[i].vote == b.clients[i].vote,
    ensures
        a.leader() == b.leader(),
{
    assert forall|i: int| a.votes_for(i) == b.votes_for(i) by {
        lemma_same_votes(a, b, i);
    }
    assert forall|i: int| a.leads(i) == b.leads(i) by {
        if a.leads(i) {
            assert forall|j: int| 0 <= j < b.maps.len() implies #[trigger] b.votes_for(j)
                <= b.votes_for(i) by {
                assert(a.votes_for(j) <= a.votes_for(i));
            }
            assert forall|j: int| 0 <= j < i implies #[trigger] b.votes_for(j) < b.votes_for(
                i,
            ) by {
                assert(a.votes_for(j) < a.votes_for(i));
            }
        }
        if b.leads(i) {
            assert forall|j: int| 0 <= j < a.maps.len() implies #[trigger] a.votes_for(j)
                <= a.votes_for(i) by {
                assert(b.votes_for(j) <= b.votes_for(i));
            }
            assert forall|j: int| 0 <= j < i implies #[trigger] a.votes_for(j) < a.votes_for(
                i,
            ) by {
                assert(b.votes_for(j) < b.votes_for(i));
            }
        }
    }
    if exists|i: int| a.leads(i) {
        let i = choose|i: int| a.leads(i);
        votes::lemma_one_leader(a, i);
        votes::lemma_one_leader(b, i);
    }
}

// ---------------------------------------------------------------------------
// Votes and the rotation
// ---------------------------------------------------------------------------

/// The leader has the most votes, and more than every entry before it; there is
/// none where nobody voted.
pub proof fn law_leader_is_the_first_of_the_most_voted(s: ServerView)
    ensures
        match s.leader() {
            Some(index) => s.leads(index),
            None => forall|i: int| 0 <= i < s.maps.len() ==> #[trigger] s.votes_for(i) == 0,
        },
{
    if s.leader() is None {
        assert forall|i: int| 0 <= i < s.maps.len() implies #[trigger] s.votes_for(i) == 0 by {
            if s.votes_for(i) > 0 {
                lemma_someone_leads(s, s.maps.len() as int, i);
            }
        }
    }
}

/// Among the first `k` entries one has the most votes, and more than every entry
/// before it.
spec fn leads_among(s: ServerView, index: int, k: int) -> bool {
    &&& 0 <= index < k
    &&& s.votes_for(index) > 0
    &&& forall|j: int| 0 <= j < k ==> #[trigger] s.votes_for(j) <= s.votes_for(index)
    &&& forall|j: int| 0 <= j < index ==> #[trigger] s.votes_for(j) < s.votes_for(index)
}

proof fn lemma_someone_leads_among(s: ServerView, k: int, voted: int) -> (index: int)
    requires
        0 <= voted < k,
        s.votes_for(voted) > 0,
    ensures
        leads_among(s, index, k),
    decreases k,
{
    if exists|i: int| 0 <= i < k - 1 && #[trigger] s.votes_for(i) > 0 {
        let i = choose|i: int| 0 <= i < k - 1 && #[trigger] s.votes_for(i) > 0;
        let before = lemma_someone_leads_among(s, k - 1, i);
        if s.votes_for(k - 1) > s.votes_for(before) {
            assert forall|j: int| 0 <= j < k - 1 implies #[trigger] s.votes_for(j) < s.votes_for(
                k - 1,
            ) by {
                assert(s.votes_for(j) <= s.votes_for(before));
            }
            k - 1
        } else {
            before
        }
    } else {
        assert(voted == k - 1);
        assert forall|j: int| 0 <= j < k - 1 implies #[trigger] s.votes_for(j) < s.votes_for(
            k - 1,
        ) by {
            assert(!(s.votes_for(j) > 0));
        }
        k - 1
    }
}

proof fn lemma_someone_leads(s: ServerView, k: int, voted: int)
    requires
        k == s.maps.len(),
        0 <= voted < k,
        s.votes_for(voted) > 0,
    ensures
        s.leader() is Some,
{
    let index = lemma_someone_leads_among(s, k, voted);
    assert(s.leads(index));
}

/// Votes reset whenever the track changes.
pub proof fn law_votes_reset_when_the_track_changes(s: ServerView, index: int, clock: Clock)
    ensures
        s.moved_to(index, clock).map_index == index,
        forall|i: int|
            0 <= i < s.moved_to(index, clock).clients.len() ==> (#[trigger] s.moved_to(
                index,
                clock,
            ).clients[i]).vote is None,
{
    lemma_moved_keeps_all(s, index, clock);
}

/// Without a race, a vote for another track switches to it at once if it makes a
/// majority of the lobby, and leaves the lobby where it is if not; in a race it
/// never switches.
pub proof fn law_majority_switches_the_track_at_once(
    s: ServerView,
    from: u64,
    target: Seq<char>,
    index: int,
    clock: Clock,
)
    requires
        s.wf(),
        s.knows(from),
        target.len() > 0,
        s.find_map(target) == Ok::<int, Seq<char>>(index),
        s.racing || index != s.map_index,
    ensures
        ({
            let counted = s.with_client(
                s.seat(from),
                ClientView { vote: Some(index as usize), ..s.client(from) },
            );
            s.voted(from, target, clock).map_index == if !s.racing && counted.votes_for(index)
                >= counted.majority() {
                index
            } else {
                s.map_index
            }
        }),
{
    let c = s.client(from);
    let counted = s.with_client(s.seat(from), ClientView { vote: Some(index as usize), ..c });
    let heard = counted.said_all(counted.vote_line(c.name(), index), clock);
    lemma_moved_keeps_all(heard.said_all("Vote passed."@, clock), index, clock);
}

/// When a race ends, the lobby moves on to the vote leader if anyone voted, else
/// to the next entry of the rotation; nobody races, is ready, has finished, or
/// has a vote any more.
pub proof fn law_race_end_rotates(s: ServerView, clock: Clock)
    ensures
        ({
            let after = s.race_ended(clock);
            &&& after.map_index == match s.leader() {
                Some(index) => index,
                None => (s.map_index + 1) % s.maps.len() as int,
            }
            &&& !after.racing && after.first_finish is None && after.race_end_at is None
            &&& all_kept(s.clients, after.clients)
            &&& forall|i: int|
                0 <= i < after.clients.len() ==> {
                    let c = #[trigger] after.clients[i];
                    !c.racing && !c.ready && !c.finished && c.vote is None
                }
        }),
{
    let closed = s.race_closed(clock);
    lemma_closed(s, clock);
    assert forall|i: int| 0 <= i < s.clients.len() implies (
    #[trigger] s.clients[i]).in_lobby() == closed.clients[i].in_lobby() && s.clients[i].vote
        == closed.clients[i].vote by {
        assert(kept(s.clients[i], closed.clients[i]));
        assert(closed.clients[i].vote == s.clients[i].vote);
    }
    lemma_same_leader(s, closed);
    let after = s.race_ended(clock);
    let (before, index) = match closed.leader() {
        Some(index) => (closed.said_all(closed.vote_won_line(index), clock), index),
        None => (closed, closed.following()),
    };
    if let Some(index) = closed.leader() {
        let msgs = seq![client::ordered(chat::system_line(closed.vote_won_line(index)))];
        lemma_told_keeps_all(closed, Audience::Lobby, msgs, clock);
        state::lemma_told_keeps(closed, Audience::Lobby, msgs, clock);
        lemma_all_kept_twice(s.clients, closed.clients, before.clients);
    }
    lemma_moved_keeps_all(before, index, clock);
    lemma_all_kept_twice(s.clients, before.clients, after.clients);
    assert forall|i: int| 0 <= i < after.clients.len() implies {
        let c = #[trigger] after.clients[i];
        !c.racing && !c.ready && !c.finished && c.vote is None
    } by {
        assert(!closed.clients[i].racing);
        assert(before.clients[i].racing == closed.clients[i].racing);
    }
}

// ---------------------------------------------------------------------------
// The end of a race
// ---------------------------------------------------------------------------

/// After time has passed, no race still runs that is over: the pause behind the
/// last finish or the grace period behind the first has not run out.
pub proof fn law_race_does_not_outlive_its_end(s: ServerView, clock: Clock)
    ensures
        s.advanced(clock).racing ==> !s.advanced(clock).is_over(clock.now),
{
    lemma_ended_keeps_all(s.ticked_if_due(clock).streamed_if_due(clock), clock);
}

/// What the phantom's finish is told with.
spec fn host_finish(s: ServerView) -> Seq<MessageView> {
    seq![
        client::unordered(
            messages::car_crossed_finish_bytes(
                PlayerId::host(),
                Finish { entity: HOST_ENTITY, generation: GENERATION, time_bits: s.host_time },
            ),
        ),
    ]
}

pub proof fn lemma_settled(s: ServerView, clock: Clock)
    ensures
        all_kept(s.clients, s.settled(clock).clients),
        s.settled(clock).racing == s.racing,
        s.settled(clock).race_end_at == if s.racing && s.race_end_at is None && s.all_finished() {
            Some((clock.now + RACE_END_DELAY) as u64)
        } else {
            s.race_end_at
        },
{
    lemma_told_keeps_all(s, Audience::Lobby, host_finish(s), clock);
    assert(all_kept(s.clients, s.clients));
}

/// The finish of the last car still driving schedules the end of the race five
/// seconds later; the finish of any other car does not.
#[verifier::rlimit(30)]
pub proof fn law_last_finish_schedules_the_end(
    s: ServerView,
    from: u64,
    finish: Finish,
    shown: Seq<char>,
    host_time: u64,
    clock: Clock,
)
    requires
        s.wf(),
        s.knows(from),
        s.racing,
        s.race_end_at is None,
    ensures
        ({
            let after = s.crossed(from, finish, clock).finish_announced(
                from,
                shown,
                host_time,
                clock,
            );
            let last = forall|i: int|
                0 <= i < s.clients.len() && (#[trigger] s.clients[i]).racing && i != s.seat(from)
                    ==> s.clients[i].finished;
            &&& after.racing
            &&& after.race_end_at == if last {
                Some((clock.now + RACE_END_DELAY) as u64)
            } else {
                None
            }
        }),
{
    let c = s.client(from);
    state::lemma_seat_of(s.clients, from);
    let marked = s.with_client(s.seat(from), ClientView { finished: true, ..c });
    let relay = seq![client::unordered(messages::car_crossed_finish_bytes(c.id, finish))];
    let crossed = s.crossed(from, finish, clock);
    state::lemma_told_keeps(marked, Audience::LobbyBut(from), relay, clock);
    state::lemma_same_seat(s.clients, marked.clients, from);
    assert(crossed.clients == marked.told(Audience::LobbyBut(from), relay, clock).clients);
    assert(crossed.seat(from) == marked.told(Audience::LobbyBut(from), relay, clock).seat(from));
    let timed = ServerView { host_time, ..crossed };
    let line = crossed.client(from).name() + " finished P"@ + text::decimal(crossed.finishers())
        + " in "@ + shown;
    let said = seq![client::ordered(chat::system_line(line))];
    let heard = timed.told(Audience::Lobby, said, clock);
    state::lemma_told_keeps(timed, Audience::Lobby, said, clock);
    assert forall|i: int| 0 <= i < s.clients.len() implies (#[trigger] heard.clients[i]).racing
        == s.clients[i].racing && heard.clients[i].finished == (s.clients[i].finished || i
        == s.seat(from)) by {
        assert(crossed.clients[i] == ClientView {
            out: crossed.clients[i].out,
            ..marked.clients[i]
        });
        assert(heard.clients[i] == ClientView { out: heard.clients[i].out, ..timed.clients[i] });
    }
    if heard.all_finished() {
        assert forall|i: int|
            0 <= i < s.clients.len() && (#[trigger] s.clients[i]).racing && i != s.seat(
                from,
            ) implies s.clients[i].finished by {
            assert(heard.clients[i].finished);
        }
    } else if forall|i: int|
        0 <= i < s.clients.len() && (#[trigger] s.clients[i]).racing && i != s.seat(from)
            ==> s.clients[i].finished {
        assert forall|i: int|
            0 <= i < heard.clients.len() && (
            #[trigger] heard.clients[i]).racing implies heard.clients[i].finished by {
            assert(s.clients[i].racing);
        }
    }
    lemma_settled(heard, clock);
}

// ---------------------------------------------------------------------------
// Leaving
// ---------------------------------------------------------------------------

/// What the lobby hears before a race is settled or ended.
pub open spec fn without(s: ServerView, addr: u64, clock: Clock) -> ServerView {
    let rest = ServerView { clients: s.clients.remove(s.seat(addr)), ..s };
    if s.client(addr).in_lobby() {
        rest.told(
            Audience::Lobby,
            seq![client::unordered(messages::player_left_bytes(s.client(addr).id))],
            clock,
        )
    } else {
        rest
    }
}

#[verifier::rlimit(30)]
pub proof fn lemma_without(s: ServerView, addr: u64, clock: Clock)
    requires
        s.knows(addr),
        distinct(s.clients),
    ensures
        all_kept(s.clients.remove(s.seat(addr)), without(s, addr, clock).clients),
        distinct(without(s, addr, clock).clients),
        without(s, addr, clock).racing == s.racing,
        without(s, addr, clock).race_end_at == s.race_end_at,
        forall|i: int|
            0 <= i < without(s, addr, clock).clients.len() ==> {
                let c = #[trigger] without(s, addr, clock).clients[i];
                let was = s.clients.remove(s.seat(addr))[i];
                &&& c.addr != addr
                &&& c.racing == was.racing && c.finished == was.finished && c.vote == was.vote
            },
{
    state::lemma_seat_of(s.clients, addr);
    let seat = s.seat(addr);
    let rest = ServerView { clients: s.clients.remove(seat), ..s };
    let msgs = seq![client::unordered(messages::player_left_bytes(s.client(addr).id))];
    lemma_told_keeps_all(rest, Audience::Lobby, msgs, clock);
    state::lemma_told_keeps(rest, Audience::Lobby, msgs, clock);
    assert(all_kept(rest.clients, rest.clients));
    let after = without(s, addr, clock);
    let at = |i: int|
        if i < seat {
            i
        } else {
            i + 1
        };
    assert forall|i: int| 0 <= i < after.clients.len() implies {
        let c = #[trigger] after.clients[i];
        let was = rest.clients[i];
        &&& c.addr != addr
        &&& c.racing == was.racing && c.finished == was.finished && c.vote == was.vote
    } by {
        assert(rest.clients[i] == s.clients[at(i)]);
        assert(kept(rest.clients[i], after.clients[i]));
        if s.client(addr).in_lobby() {
            assert(after.clients[i] == ClientView {
                out: after.clients[i].out,
                ..rest.clients[i]
            });
        }
        if at(i) < seat {
            assert(s.clients[at(i)].addr != s.clients[seat].addr);
        } else {
            assert(s.clients[seat].addr != s.clients[at(i)].addr);
        }
    }
    assert forall|i: int, j: int|
        0 <= i < j < after.clients.len() implies (#[trigger] after.clients[i]).addr != (
    #[trigger] after.clients[j]).addr by {
        assert(kept(rest.clients[i], after.clients[i]));
        assert(kept(rest.clients[j], after.clients[j]));
        assert(rest.clients[i] == s.clients[at(i)]);
        assert(rest.clients[j] == s.clients[at(j)]);
    }
}

/// Removing a client removes that client and keeps all others.
pub proof fn lemma_removed(s: ServerView, addr: u64, clock: Clock)
    requires
        s.knows(addr),
        distinct(s.clients),
    ensures
        all_kept(s.clients.remove(s.seat(addr)), s.removed(addr, clock).clients),
        distinct(s.removed(addr, clock).clients),
        forall|i: int|
            0 <= i < s.removed(addr, clock).clients.len() ==> (#[trigger] s.removed(
                addr,
                clock,
            ).clients[i]).addr != addr,
{
    let rest = s.clients.remove(s.seat(addr));
    let heard = without(s, addr, clock);
    let after = s.removed(addr, clock);
    lemma_without(s, addr, clock);
    assert(all_kept(heard.clients, heard.clients));
    lemma_ended_keeps_all(heard, clock);
    lemma_settled(heard, clock);
    assert(all_kept(heard.clients, after.clients));
    lemma_all_kept_twice(rest, heard.clients, after.clients);
    assert forall|i: int| 0 <= i < after.clients.len() implies (#[trigger] after.clients[i]).addr
        != addr by {
        assert(kept(heard.clients[i], after.clients[i]));
        assert(heard.clients[i].addr != addr);
    }
    assert forall|i: int, j: int|
        0 <= i < j < after.clients.len() implies (#[trigger] after.clients[i]).addr != (
    #[trigger] after.clients[j]).addr by {
        assert(kept(heard.clients[i], after.clients[i]));
        assert(kept(heard.clients[j], after.clients[j]));
    }
}

pub proof fn lemma_ended_keeps_all(s: ServerView, clock: Clock)
    ensures
        all_kept(s.clients, s.race_ended(clock).clients),
        !s.race_ended(clock).racing,
{
    let closed = s.race_closed(clock);
    lemma_closed(s, clock);
    match closed.leader() {
        Some(index) => {
            let msgs = seq![client::ordered(chat::system_line(closed.vote_won_line(index)))];
            let heard = closed.told(Audience::Lobby, msgs, clock);
            lemma_told_keeps_all(closed, Audience::Lobby, msgs, clock);
            lemma_moved_keeps_all(heard, index, clock);
            lemma_all_kept_twice(s.clients, closed.clients, heard.clients);
            lemma_all_kept_twice(s.clients, heard.clients, s.race_ended(clock).clients);
        },
        None => {
            lemma_moved_keeps_all(closed, closed.following(), clock);
            lemma_all_kept_twice(s.clients, closed.clients, s.race_ended(clock).clients);
        },
    }
}

/// A client that leaves is gone, and its vote with it; everyone else stays, in
/// the same order.
pub proof fn law_leaver_is_gone_and_others_stay(s: ServerView, addr: u64, clock: Clock)
    requires
        s.wf(),
        s.knows(addr),
    ensures
        all_kept(s.clients.remove(s.seat(addr)), s.removed(addr, clock).clients),
        forall|i: int|
            0 <= i < s.removed(addr, clock).clients.len() ==> (#[trigger] s.removed(
                addr,
                clock,
            ).clients[i]).addr != addr,
{
    lemma_removed(s, addr, clock);
}

/// Everyone left in the lobby is told that a member has left.
pub proof fn law_leaving_is_announced(
    s: ServerView,
    addr: u64,
    other: int,
    k: int,
    clock: Clock,
)
    requires
        s.wf(),
        s.knows(addr),
        s.client(addr).in_lobby(),
        0 <= other < s.clients.len(),
        other != s.seat(addr),
        s.clients[other].in_lobby(),
        0 <= k < s.clients[other].mail(
            seq![client::unordered(messages::player_left_bytes(s.client(addr).id))],
            clock,
        ).len(),
    ensures
        s.removed(addr, clock).outbox.contains(
            s.clients[other].mail(
                seq![client::unordered(messages::player_left_bytes(s.client(addr).id))],
                clock,
            )[k],
        ),
{
    let seat = s.seat(addr);
    let msgs = seq![client::unordered(messages::player_left_bytes(s.client(addr).id))];
    let d = s.clients[other].mail(msgs, clock)[k];
    let rest = ServerView { clients: s.clients.remove(seat), ..s };
    let heard = rest.told(Audience::Lobby, msgs, clock);
    let after = s.removed(addr, clock);
    state::lemma_seat_of(s.clients, addr);
    let j = if other < seat {
        other
    } else {
        other - 1
    };
    assert(rest.clients[j] == s.clients[other]);
    laws::law_messages_reach_the_audience(rest.clients, Audience::Lobby, msgs, clock);
    assert(Audience::Lobby.has(rest.clients[j]));
    let mail = state::all_mail(rest.clients, Audience::Lobby, msgs, clock);
    assert(mail.contains(rest.clients[j].mail(msgs, clock)[k]));
    let m = choose|m: int| 0 <= m < mail.len() && mail[m] == d;
    let at = s.outbox.len() + m;
    assert(heard.outbox[at] == d);
    growth::lemma_same_grows(heard, heard);
    growth::lemma_ended_grows(heard, clock);
    growth::lemma_settled_grows(heard, clock);
    growth::lemma_carries_on(heard, after);
    assert(after.outbox.take(heard.outbox.len() as int)[at] == d);
    assert(after.outbox[at] == d);
}

/// Nobody is in an audience that counts nobody, and the other way round.
pub proof fn lemma_empty_audience(s: ServerView, to: Audience)
    ensures
        s.size(to) == 0 <==> forall|i: int|
            0 <= i < s.clients.len() ==> !to.has(#[trigger] s.clients[i]),
{
    let p = |c: ClientView| to.has(c);
    let kept = s.clients.filter(p);
    seqs::lemma_filter_holds(s.clients, p);
    if s.size(to) == 0 {
        assert forall|i: int| 0 <= i < s.clients.len() implies !to.has(#[trigger] s.clients[i]) by {
            if to.has(s.clients[i]) {
                assert(p(s.clients[i]));
                assert(s.clients.contains(s.clients[i]));
                assert(kept.contains(s.clients[i]));
            }
        }
    } else {
        assert(p(kept[0]));
        assert(s.clients.contains(kept[0]));
        let i = choose|i: int| 0 <= i < s.clients.len() && s.clients[i] == kept[0];
        assert(to.has(s.clients[i]));
    }
}

/// A race ends when the lobby empties: after someone has left, a race still runs
/// only if someone is still in the lobby.
pub proof fn law_race_ends_when_the_lobby_empties(s: ServerView, addr: u64, clock: Clock)
    requires
        s.wf(),
        s.knows(addr),
    ensures
        s.removed(addr, clock).racing <==> s.racing && exists|i: int|
            0 <= i < s.clients.len() && i != s.seat(addr) && (
            #[trigger] s.clients[i]).in_lobby(),
{
    let heard = without(s, addr, clock);
    let seat = s.seat(addr);
    let rest = s.clients.remove(seat);
    lemma_without(s, addr, clock);
    state::lemma_seat_of(s.clients, addr);
    lemma_empty_audience(heard, Audience::Lobby);
    lemma_ended_keeps_all(heard, clock);
    lemma_settled(heard, clock);
    if exists|i: int|
        0 <= i < s.clients.len() && i != seat && (#[trigger] s.clients[i]).in_lobby() {
        let i = choose|i: int|
            0 <= i < s.clients.len() && i != seat && (#[trigger] s.clients[i]).in_lobby();
        let j = if i < seat {
            i
        } else {
            i - 1
        };
        assert(rest[j] == s.clients[i]);
        assert(kept(rest[j], heard.clients[j]));
        assert(Audience::Lobby.has(heard.clients[j]));
    } else {
        assert forall|j: int| 0 <= j < heard.clients.len() implies !Audience::Lobby.has(
            #[trigger] heard.clients[j],
        ) by {
            let i = if j < seat {
                j
            } else {
                j + 1
            };
            assert(rest[j] == s.clients[i]);
            assert(kept(rest[j], heard.clients[j]));
        }
    }
}

/// A racer who leaves is not waited for: if everyone else who races has finished
/// and someone is left in the lobby, the end of the race is scheduled.
pub proof fn law_leaver_does_not_hold_up_the_end(s: ServerView, addr: u64, other: int, clock: Clock)
    requires
        s.wf(),
        s.knows(addr),
        s.racing,
        s.race_end_at is None,
        0 <= other < s.clients.len(),
        other != s.seat(addr),
        s.clients[other].in_lobby(),
        forall|i: int|
            0 <= i < s.clients.len() && (#[trigger] s.clients[i]).racing && i != s.seat(addr)
                ==> s.clients[i].finished,
    ensures
        s.removed(addr, clock).race_end_at == Some((clock.now + RACE_END_DELAY) as u64),
{
    let heard = without(s, addr, clock);
    let seat = s.seat(addr);
    let rest = s.clients.remove(seat);
    lemma_without(s, addr, clock);
    state::lemma_seat_of(s.clients, addr);
    lemma_empty_audience(heard, Audience::Lobby);
    let j = if other < seat {
        other
    } else {
        other - 1
    };
    assert(rest[j] == s.clients[other]);
    assert(kept(rest[j], heard.clients[j]));
    assert(Audience::Lobby.has(heard.clients[j]));
    assert forall|i: int|
        0 <= i < heard.clients.len() && (
        #[trigger] heard.clients[i]).racing implies heard.clients[i].finished by {
        let k = if i < seat {
            i
        } else {
            i + 1
        };
        assert(rest[i] == s.clients[k]);
    }
    lemma_settled(heard, clock);
}

// ---------------------------------------------------------------------------
// Timeouts
// ---------------------------------------------------------------------------

/// `c` is one of `clients`.
#[verifier::opaque]
pub open spec fn is_among(c: ClientView, clients: Seq<ClientView>) -> bool {
    exists|i: int| 0 <= i < clients.len() && kept(#[trigger] clients[i], c)
}

/// `c` is still one of `clients`.
#[verifier::opaque]
pub open spec fn stays_among(c: ClientView, clients: Seq<ClientView>) -> bool {
    exists|j: int| 0 <= j < clients.len() && kept(c, #[trigger] clients[j])
}

proof fn lemma_is_among(c: ClientView, clients: Seq<ClientView>, i: int)
    requires
        0 <= i < clients.len(),
        kept(clients[i], c),
    ensures
        is_among(c, clients),
{
    reveal(is_among);
}

proof fn lemma_stays_among(c: ClientView, clients: Seq<ClientView>, j: int)
    requires
        0 <= j < clients.len(),
        kept(c, clients[j]),
    ensures
        stays_among(c, clients),
{
    reveal(stays_among);
}

/// Which of `clients` became `c`.
proof fn lemma_origin(c: ClientView, clients: Seq<ClientView>) -> (i: int)
    requires
        is_among(c, clients),
    ensures
        0 <= i < clients.len(),
        kept(clients[i], c),
{
    reveal(is_among);
    choose|i: int| 0 <= i < clients.len() && kept(#[trigger] clients[i], c)
}

/// Which of `clients` `c` became.
proof fn lemma_heir(c: ClientView, clients: Seq<ClientView>) -> (j: int)
    requires
        stays_among(c, clients),
    ensures
        0 <= j < clients.len(),
        kept(c, clients[j]),
{
    reveal(stays_among);
    choose|j: int| 0 <= j < clients.len() && kept(c, #[trigger] clients[j])
}

/// `after` are the clients of `before` whose keys are not in `gone`.
pub open spec fn survive(
    before: Seq<ClientView>,
    after: Seq<ClientView>,
    gone: Seq<u64>,
) -> bool {
    &&& forall|j: int|
        0 <= j < after.len() ==> is_among(#[trigger] after[j], before) && !gone.contains(
            after[j].addr,
        )
    &&& forall|i: int|
        0 <= i < before.len() && !gone.contains((#[trigger] before[i]).addr) ==> stays_among(
            before[i],
            after,
        )
}

/// `after` are the clients of `before` whose key is not `addr`.
spec fn spares(before: Seq<ClientView>, after: Seq<ClientView>, addr: u64) -> bool {
    &&& forall|j: int|
        0 <= j < after.len() ==> is_among(#[trigger] after[j], before) && after[j].addr != addr
    &&& forall|i: int|
        0 <= i < before.len() && (#[trigger] before[i]).addr != addr ==> stays_among(
            before[i],
            after,
        )
}

proof fn lemma_survive_none(clients: Seq<ClientView>)
    ensures
        survive(clients, clients, Seq::<u64>::empty()),
{
    assert forall|i: int| 0 <= i < clients.len() implies is_among(#[trigger] clients[i], clients)
        && stays_among(clients[i], clients) by {
        lemma_is_among(clients[i], clients, i);
        lemma_stays_among(clients[i], clients, i);
    }
}

#[verifier::rlimit(30)]
proof fn lemma_survive_one_more(
    a: Seq<ClientView>,
    b: Seq<ClientView>,
    c: Seq<ClientView>,
    addrs: Seq<u64>,
)
    requires
        addrs.len() > 0,
        survive(a, b, addrs.drop_last()),
        spares(b, c, addrs.last()),
    ensures
        survive(a, c, addrs),
{
    let init = addrs.drop_last();
    assert(addrs =~= init.push(addrs.last()));
    assert forall|x: u64| #[trigger] addrs.contains(x) == (init.contains(x) || x
        == addrs.last()) by {
        if init.contains(x) {
            let m = choose|m: int| 0 <= m < init.len() && init[m] == x;
            assert(addrs[m] == x);
        }
        if x == addrs.last() {
            assert(addrs[addrs.len() - 1] == x);
        }
        if addrs.contains(x) {
            let m = choose|m: int| 0 <= m < addrs.len() && addrs[m] == x;
            if m < init.len() {
                assert(init[m] == x);
            }
        }
    }
    assert forall|j: int| 0 <= j < c.len() implies is_among(#[trigger] c[j], a)
        && !addrs.contains(c[j].addr) by {
        let k = lemma_origin(c[j], b);
        let i = lemma_origin(b[k], a);
        lemma_is_among(c[j], a, i);
    }
    assert forall|i: int| 0 <= i < a.len() && !addrs.contains((#[trigger] a[i]).addr) implies
        stays_among(a[i], c) by {
        let k = lemma_heir(a[i], b);
        let j = lemma_heir(b[k], c);
        lemma_stays_among(a[i], c, j);
    }
}

proof fn lemma_evicted(s: ServerView, addrs: Seq<u64>, clock: Clock)
    requires
        distinct(s.clients),
    ensures
        distinct(s.evicted(addrs, clock).clients),
        survive(s.clients, s.evicted(addrs, clock).clients, addrs),
    decreases addrs.len(),
{
    if addrs.len() == 0 {
        assert(addrs =~= Seq::empty());
        lemma_survive_none(s.clients);
    } else {
        let before = s.evicted(addrs.drop_last(), clock);
        lemma_evicted(s, addrs.drop_last(), clock);
        lemma_one_evicted(before, addrs.last(), clock);
        lemma_survive_one_more(
            s.clients,
            before.clients,
            before.removed(addrs.last(), clock).clients,
            addrs,
        );
    }
}

/// What removing the client of one key leaves.
proof fn lemma_one_evicted(s: ServerView, addr: u64, clock: Clock)
    requires
        distinct(s.clients),
    ensures
        distinct(s.removed(addr, clock).clients),
        spares(s.clients, s.removed(addr, clock).clients, addr),
{
    let after = s.removed(addr, clock);
    state::lemma_seat_of(s.clients, addr);
    if !s.knows(addr) {
        assert forall|j: int| 0 <= j < after.clients.len() implies {
            let c = #[trigger] after.clients[j];
            is_among(c, s.clients) && c.addr != addr
        } by {
            lemma_is_among(after.clients[j], s.clients, j);
        }
        assert forall|i: int| 0 <= i < s.clients.len() implies stays_among(
            #[trigger] s.clients[i],
            after.clients,
        ) by {
            lemma_stays_among(s.clients[i], after.clients, i);
        }
    } else {
        let seat = s.seat(addr);
        let rest = s.clients.remove(seat);
        lemma_removed(s, addr, clock);
        assert forall|j: int| 0 <= j < after.clients.len() implies {
            let c = #[trigger] after.clients[j];
            is_among(c, s.clients) && c.addr != addr
        } by {
            let i = if j < seat {
                j
            } else {
                j + 1
            };
            assert(kept(rest[j], after.clients[j]));
            assert(rest[j] == s.clients[i]);
            lemma_is_among(after.clients[j], s.clients, i);
        }
        assert forall|i: int|
            0 <= i < s.clients.len() && (#[trigger] s.clients[i]).addr != addr implies stays_among(
            s.clients[i],
            after.clients,
        ) by {
            let j = if i < seat {
                i
            } else {
                i - 1
            };
            assert(rest[j] == s.clients[i]);
            assert(kept(rest[j], after.clients[j]));
            lemma_stays_among(s.clients[i], after.clients, j);
        }
    }
}

/// A tick evicts exactly the clients that were silent for too long: of those
/// that remain none is stale, and everyone who was not stale remains.
#[verifier::rlimit(30)]
pub proof fn law_tick_evicts_the_silent(s: ServerView, clock: Clock)
    requires
        s.wf(),
    ensures
        ({
            let after = s.ticked(clock);
            &&& forall|j: int|
                0 <= j < after.clients.len() ==> is_among(#[trigger] after.clients[j], s.clients)
                    && !after.clients[j].stale(clock.now)
            &&& forall|i: int|
                0 <= i < s.clients.len() && !(#[trigger] s.clients[i]).stale(clock.now)
                    ==> stays_among(s.clients[i], after.clients)
        }),
{
    let gone = s.stale(clock.now);
    let evicted = s.evicted(gone, clock);
    let after = s.ticked(clock);
    let silent = |c: ClientView| c.stale(clock.now);
    lemma_evicted(s, gone, clock);
    seqs::lemma_filter_holds(s.clients, silent);
    assert(after.clients == evicted.retried(clock.now).clients);
    assert forall|i: int| 0 <= i < s.clients.len() implies gone.contains(
        (#[trigger] s.clients[i]).addr,
    ) == s.clients[i].stale(clock.now) by {
        let picked = s.clients.filter(silent);
        if s.clients[i].stale(clock.now) {
            assert(silent(s.clients[i]));
            assert(s.clients.contains(s.clients[i]));
            assert(picked.contains(s.clients[i]));
            let k = choose|k: int| 0 <= k < picked.len() && picked[k] == s.clients[i];
            assert(gone[k] == s.clients[i].addr);
        }
        if gone.contains(s.clients[i].addr) {
            let k = choose|k: int| 0 <= k < gone.len() && gone[k] == s.clients[i].addr;
            assert(gone[k] == picked[k].addr);
            assert(silent(picked[k]));
            assert(s.clients.contains(picked[k]));
            let m = choose|m: int| 0 <= m < s.clients.len() && s.clients[m] == picked[k];
            if m < i {
                assert(s.clients[m].addr != s.clients[i].addr);
            } else if i < m {
                assert(s.clients[i].addr != s.clients[m].addr);
            }
        }
    }
    assert forall|j: int| 0 <= j < after.clients.len() implies is_among(
        #[trigger] after.clients[j],
        s.clients,
    ) && !after.clients[j].stale(clock.now) by {
        assert(kept(evicted.clients[j], after.clients[j]));
        let i = lemma_origin(evicted.clients[j], s.clients);
        lemma_is_among(after.clients[j], s.clients, i);
        assert(!gone.contains(s.clients[i].addr));
    }
    assert forall|i: int|
        0 <= i < s.clients.len() && !(#[trigger] s.clients[i]).stale(
            clock.now,
        ) implies stays_among(s.clients[i], after.clients) by {
        assert(!gone.contains(s.clients[i].addr));
        let j = lemma_heir(s.clients[i], evicted.clients);
        assert(kept(evicted.clients[j], after.clients[j]));
        lemma_stays_among(s.clients[i], after.clients, j);
    }
}

// ---------------------------------------------------------------------------
// Passing on, and visits
// ---------------------------------------------------------------------------

/// The reliable events that the server acts on.
pub open spec fn acts_on(e: Event) -> bool {
    match e {
        Event::ClientInfo
        | Event::GarageState
        | Event::Chat
        | Event::CrossedFinish
        | Event::Ready
        | Event::Disconnect
        | Event::RequestVisitGarage
        | Event::VisitGarageResponse
        | Event::UpdateLocation
        | Event::StopGarageVisit => true,
        _ => false,
    }
}

/// The unreliable events that the server acts on.
pub open spec fn acts_loosely_on(e: Event) -> bool {
    match e {
        Event::Ping | Event::Pong | Event::CarState | Event::UpdateAvatarState => true,
        _ => false,
    }
}

/// What is neither the chat line nor re-tagged reaches nobody and changes
/// nothing, be it an event that the server does not act on or too short to be
/// one, and however it came.
pub proof fn law_other_events_are_consumed(
    s: ServerView,
    from: u64,
    payload: Seq<u8>,
    reliable: bool,
    clock: Clock,
)
    requires
        !s.has_twin(from, payload),
        !ServerView::is_verbatim(payload),
    ensures
        s.passed_on(from, payload, reliable, clock).0 == s,
        (event::event_of(payload) matches Ok(e) ==> !acts_on(e)) ==> s.heard(
            from,
            payload,
            clock,
        ).0 == s,
        (event::event_of(payload) matches Ok(e) ==> !acts_loosely_on(e)) ==> s.heard_loosely(
            from,
            payload,
            clock,
        ).0 == s,
{
}

/// A payload that is too short to be an event reaches nobody and changes
/// nothing, however it came.
pub proof fn law_short_payload_is_consumed(
    s: ServerView,
    from: u64,
    payload: Seq<u8>,
    clock: Clock,
)
    requires
        payload.len() < 4,
    ensures
        s.heard(from, payload, clock).0 == s,
        s.heard_loosely(from, payload, clock).0 == s,
{
    law_other_events_are_consumed(s, from, payload, true, clock);
}

/// Whether a client's event came reliably or not, its broadcast twin goes out
/// the same way.
pub proof fn law_twin_does_not_depend_on_how_the_event_came(
    s: ServerView,
    from: u64,
    payload: Seq<u8>,
    clock: Clock,
)
    requires
        s.has_twin(from, payload),
    ensures
        s.passed_on(from, payload, true, clock).0 == s.passed_on(from, payload, false, clock).0,
{
}

/// Avatar updates that come faster than they are relayed are dropped; one that
/// is relayed starts the next interval.
pub proof fn law_avatar_updates_are_thinned_out(
    s: ServerView,
    from: u64,
    payload: Seq<u8>,
    clock: Clock,
)
    requires
        s.wf(),
        s.hosts(from),
        event::event_of(payload) == Ok::<Event, Error>(Event::UpdateAvatarState),
    ensures
        ({
            let after = s.heard_loosely(from, payload, clock).0;
            if link::elapsed(clock.now, s.client(from).last_avatar) < AVATAR_RELAY_INTERVAL {
                after == s
            } else {
                after.client(from).last_avatar == clock.now
            }
        }),
{
    let c = s.client(from);
    let stamped = s.with_client(s.seat(from), ClientView { last_avatar: clock.now, ..c });
    let msgs = seq![
        client::ordered(
            messages::with_sender_bytes(Event::UpdateAvatarStateBroadcast.disc(), c.id, payload),
        ),
    ];
    state::lemma_seat_of(s.clients, from);
    state::lemma_same_seat(s.clients, stamped.clients, from);
    state::lemma_told_keeps(stamped, Audience::LobbyBut(from), msgs, clock);
    let after = stamped.told(Audience::LobbyBut(from), msgs, clock);
    assert(after.seat(from) == s.seat(from));
    assert(after.clients[s.seat(from)].last_avatar == clock.now);
}

/// An answered visit is forgotten: nobody waits for that garage any more.
pub proof fn law_visit_is_answered_once(s: ServerView, from: u64, payload: Seq<u8>, clock: Clock)
    requires
        s.wf(),
        s.knows(from),
    ensures
        s.visit_answered(from, payload, clock).0.client(from).visitors.len() == 0,
{
    let c = s.client(from);
    let emptied = s.with_client(s.seat(from), ClientView { visitors: Seq::empty(), ..c });
    state::lemma_seat_of(s.clients, from);
    state::lemma_same_seat(s.clients, emptied.clients, from);
    lemma_forwarded_keeps_all(emptied, c.visitors, payload, clock);
    let after = s.visit_answered(from, payload, clock).0;
    assert forall|i: int| 0 <= i < emptied.clients.len() implies (
    #[trigger] emptied.clients[i]).addr == after.clients[i].addr by {
        assert(kept(emptied.clients[i], after.clients[i]));
    }
    state::lemma_same_seat(emptied.clients, after.clients, from);
    assert(kept(emptied.clients[s.seat(from)], after.clients[s.seat(from)]));
}

proof fn lemma_forwarded_keeps_all(
    s: ServerView,
    visitors: Seq<u64>,
    payload: Seq<u8>,
    clock: Clock,
)
    ensures
        all_kept(s.clients, s.forwarded(visitors, payload, clock).clients),
    decreases visitors.len(),
{
    if visitors.len() == 0 {
        assert(all_kept(s.clients, s.clients));
    } else {
        let before = s.forwarded(visitors.drop_last(), payload, clock);
        lemma_forwarded_keeps_all(s, visitors.drop_last(), payload, clock);
        let msgs = seq![client::ordered(payload)];
        lemma_told_keeps_all(before, Audience::One(visitors.last()), msgs, clock);
        lemma_all_kept_twice(
            s.clients,
            before.clients,
            s.forwarded(visitors, payload, clock).clients,
        );
    }
}

} // verus!
