//! What finishing, the places, and the end of a race by time come to.

use vstd::prelude::*;

use crate::error::Error;
use crate::event;
use crate::event::Event;
use crate::frame;
use crate::frame::FrameView;
use crate::link;
use crate::messages;
use crate::messages::Finish;
use crate::server::chat;
use crate::server::client;
use crate::server::client::{ClientView, Clock, MessageView};
use crate::server::hearing;
use crate::server::race_laws;
use crate::server::start_laws;
use crate::server::state;
use crate::server::state::{Audience, ServerView};
use crate::text;

verus! {

// ---------------------------------------------------------------------------
// A finish
// ---------------------------------------------------------------------------

/// A finish marks its car alone as finished, and keeps the time of the first
/// finish of the race: only where there was none does it start the clock.
pub proof fn law_finish_keeps_the_first(s: ServerView, from: u64, finish: Finish, clock: Clock)
    requires
        s.wf(),
        s.knows(from),
    ensures
        ({
            let after = s.crossed(from, finish, clock);
            &&& match s.first_finish {
                Some(t) => after.first_finish == Some(t),
                None => after.first_finish == Some(clock.now),
            }
            &&& after.racing == s.racing && after.race_end_at == s.race_end_at
            &&& after.map_index == s.map_index && after.maps == s.maps
            &&& after.clients.len() == s.clients.len()
            &&& forall|i: int|
                0 <= i < s.clients.len() ==> {
                    let c = #[trigger] after.clients[i];
                    &&& c.finished == (s.clients[i].finished || s.clients[i].addr == from)
                    &&& race_laws::kept(s.clients[i], c)
                    &&& c.racing == s.clients[i].racing && c.ready == s.clients[i].ready && c.vote
                        == s.clients[i].vote
                }
        }),
{
    let c = s.client(from);
    let seat = s.seat(from);
    state::lemma_seat_of(s.clients, from);
    let marked = s.with_client(seat, ClientView { finished: true, ..c });
    let relay = seq![client::unordered(messages::car_crossed_finish_bytes(c.id, finish))];
    let told = marked.told(Audience::LobbyBut(from), relay, clock);
    state::lemma_told_keeps(marked, Audience::LobbyBut(from), relay, clock);
    let after = s.crossed(from, finish, clock);
    assert(after.clients == told.clients);
    assert forall|i: int| 0 <= i < s.clients.len() implies {
        let c = #[trigger] after.clients[i];
        &&& c.finished == (s.clients[i].finished || s.clients[i].addr == from)
        &&& race_laws::kept(s.clients[i], c)
        &&& c.racing == s.clients[i].racing && c.ready == s.clients[i].ready && c.vote
            == s.clients[i].vote
    } by {
        assert(told.clients[i] == ClientView { out: told.clients[i].out, ..marked.clients[i] });
        if s.clients[i].addr == from {
            hearing::lemma_key_finds(s.clients, i);
        }
    }
}

/// A finish is relayed to everyone else in the lobby with its owner, off the
/// ordered stream; its sender and those outside the lobby hear nothing of it.
pub proof fn law_finish_is_relayed(
    s: ServerView,
    from: u64,
    finish: Finish,
    i: int,
    clock: Clock,
)
    requires
        s.wf(),
        s.knows(from),
        0 <= i < s.clients.len(),
    ensures
        hearing::hears(
            s,
            s.crossed(from, finish, clock),
            s.clients[i].addr,
            if s.clients[i].garage is Some && s.clients[i].addr != from {
                seq![
                    client::unordered(
                        messages::car_crossed_finish_bytes(s.client(from).id, finish),
                    ),
                ]
            } else {
                Seq::empty()
            },
            clock,
        ),
{
    let c = s.client(from);
    let addr = s.clients[i].addr;
    let seat = s.seat(from);
    state::lemma_seat_of(s.clients, from);
    hearing::lemma_key_finds(s.clients, i);
    let marked = s.with_client(seat, ClientView { finished: true, ..c });
    let relay = seq![client::unordered(messages::car_crossed_finish_bytes(c.id, finish))];
    let told = marked.told(Audience::LobbyBut(from), relay, clock);
    let after = s.crossed(from, finish, clock);
    let heard = if s.clients[i].garage is Some && addr != from {
        relay
    } else {
        Seq::empty()
    };
    hearing::lemma_hears_nothing(s, marked, addr, clock);
    hearing::lemma_heard(s, marked, addr, Seq::empty(), clock);
    hearing::lemma_hears_told(marked, Audience::LobbyBut(from), relay, addr, clock);
    hearing::lemma_heard(marked, told, addr, heard, clock);
    hearing::lemma_hears_nothing(told, after, addr, clock);
    hearing::lemma_hears_twice(s, marked, told, addr, Seq::empty(), heard, clock);
    assert(Seq::<MessageView>::empty() + heard =~= heard);
    hearing::lemma_hears_twice(s, told, after, addr, heard, Seq::empty(), clock);
    assert(heard + Seq::<MessageView>::empty() =~= heard);
}

/// A reported finish is taken in a race, and changes nothing outside of one.
pub proof fn law_finish_counts_in_a_race_only(
    s: ServerView,
    from: u64,
    payload: Seq<u8>,
    finish: Finish,
    end: int,
    clock: Clock,
)
    requires
        event::event_of(payload) == Ok::<Event, Error>(Event::CrossedFinish),
        messages::read_crossed_finish(payload) == Ok::<(Finish, int), Error>((finish, end)),
    ensures
        s.heard(from, payload, clock).0 == if s.racing {
            s.crossed(from, finish, clock)
        } else {
            s
        },
{
}

// ---------------------------------------------------------------------------
// Places
// ---------------------------------------------------------------------------

/// The place of a finish of `from`: one behind everyone else who has finished.
pub open spec fn place(s: ServerView, from: u64) -> nat {
    1 + start_laws::count(s.clients, |c: ClientView| c.finished && c.addr != from)
}

/// One of those that count is the client itself.
proof fn lemma_count_without(
    clients: Seq<ClientView>,
    p: spec_fn(ClientView) -> bool,
    i: int,
)
    requires
        race_laws::distinct(clients),
        0 <= i < clients.len(),
    ensures
        start_laws::count(clients, p) == start_laws::count(clients, |c: ClientView| p(c) && c.addr != clients[i].addr) + (
        if p(clients[i]) {
            1nat
        } else {
            0nat
        }),
    decreases clients.len(),
{
    let addr = clients[i].addr;
    let q = |c: ClientView| p(c) && c.addr != addr;
    let init = clients.drop_last();
    let n = clients.len() - 1;
    assert(forall|k: int| 0 <= k < n ==> init[k] == clients[k]);
    if i < n {
        lemma_count_without(init, p, i);
        assert(clients[i].addr != clients[n].addr);
        start_laws::lemma_same_count(
            init,
            init,
            |c: ClientView| p(c) && c.addr != init[i].addr,
            q,
        );
    } else {
        assert forall|k: int| 0 <= k < init.len() implies p(#[trigger] init[k]) == q(init[k]) by {
            assert(clients[k].addr != clients[n].addr);
        }
        start_laws::lemma_same_count(init, init, p, q);
    }
}

/// The finish of a car is announced to everyone in the lobby with its place, one
/// behind all others that have finished, and the time as shown. If no car is
/// left driving, the phantom's own finish follows, with the time it was given.
/// Those outside the lobby hear nothing.
#[verifier::rlimit(30)]
pub proof fn law_place_is_announced(
    s: ServerView,
    from: u64,
    finish: Finish,
    shown: Seq<char>,
    host_time: u64,
    i: int,
    clock: Clock,
)
    requires
        s.wf(),
        s.knows(from),
        0 <= i < s.clients.len(),
    ensures
        ({
            let crossed = s.crossed(from, finish, clock);
            let last = s.racing && s.race_end_at is None && forall|j: int|
                0 <= j < s.clients.len() && (#[trigger] s.clients[j]).racing && s.clients[j].addr
                    != from ==> s.clients[j].finished;
            let name = match s.client(from).info {
                Some(info) => info.name,
                None => Seq::empty(),
            };
            let line = client::ordered(
                chat::system_line(
                    name + " finished P"@ + text::decimal(place(s, from)) + " in "@ + shown,
                ),
            );
            let phantom = client::unordered(
                messages::car_crossed_finish_bytes(
                    start_laws::host_id(),
                    Finish { entity: 0x540, generation: 1, time_bits: host_time },
                ),
            );
            hearing::hears(
                crossed,
                crossed.finish_announced(from, shown, host_time, clock),
                s.clients[i].addr,
                if s.clients[i].garage is None {
                    Seq::empty()
                } else if last {
                    seq![line, phantom]
                } else {
                    seq![line]
                },
                clock,
            )
        }),
{
    let addr = s.clients[i].addr;
    let seat = s.seat(from);
    let crossed = s.crossed(from, finish, clock);
    state::lemma_seat_of(s.clients, from);
    hearing::lemma_key_finds(s.clients, i);
    law_finish_keeps_the_first(s, from, finish, clock);
    law_finish_is_relayed(s, from, finish, i, clock);
    law_finish_is_relayed(s, from, finish, seat, clock);
    let relayed = if s.clients[i].garage is Some && addr != from {
        seq![client::unordered(messages::car_crossed_finish_bytes(s.client(from).id, finish))]
    } else {
        Seq::empty()
    };
    hearing::lemma_heard(s, crossed, addr, relayed, clock);
    assert(race_laws::kept(s.clients[i], crossed.clients[i]));
    assert(race_laws::kept(s.clients[seat], crossed.clients[seat]));
    hearing::lemma_key_finds(crossed.clients, i);
    hearing::lemma_key_finds(crossed.clients, seat);
    // The place.
    let done = |c: ClientView| c.finished;
    start_laws::lemma_count(crossed.clients, done);
    lemma_count_without(crossed.clients, done, seat);
    let others = |c: ClientView| done(c) && c.addr != crossed.clients[seat].addr;
    let p = |c: ClientView| c.finished && c.addr != from;
    assert forall|k: int| 0 <= k < s.clients.len() implies p(#[trigger] s.clients[k]) == others(
        crossed.clients[k],
    ) by {
        assert(race_laws::kept(s.clients[k], crossed.clients[k]));
    }
    start_laws::lemma_same_count(s.clients, crossed.clients, p, others);
    assert(crossed.clients[seat].finished);
    assert(crossed.finishers() == place(s, from));
    // What is said.
    let timed = ServerView { host_time, ..crossed };
    let line = crossed.client(from).name() + " finished P"@ + text::decimal(crossed.finishers())
        + " in "@ + shown;
    let said = timed.said_all(line, clock);
    let after = crossed.finish_announced(from, shown, host_time, clock);
    hearing::lemma_hears_nothing(crossed, timed, addr, clock);
    hearing::lemma_heard(crossed, timed, addr, Seq::empty(), clock);
    hearing::lemma_hears_said_all(timed, line, addr, clock);
    let first = if s.clients[i].garage is Some {
        seq![client::ordered(chat::system_line(line))]
    } else {
        Seq::empty()
    };
    hearing::lemma_heard(timed, said, addr, first, clock);
    hearing::lemma_hears_twice(crossed, timed, said, addr, Seq::empty(), first, clock);
    assert(Seq::<MessageView>::empty() + first =~= first);
    let msgs = seq![client::ordered(chat::system_line(line))];
    state::lemma_told_keeps(timed, Audience::Lobby, msgs, clock);
    let told = timed.told(Audience::Lobby, msgs, clock);
    assert(said.clients == told.clients);
    assert forall|j: int| 0 <= j < said.clients.len() implies {
        let c = #[trigger] said.clients[j];
        &&& c.racing == s.clients[j].racing
        &&& c.finished == (s.clients[j].finished || s.clients[j].addr == from)
        &&& c.garage == s.clients[j].garage
    } by {
        assert(told.clients[j] == ClientView { out: told.clients[j].out, ..timed.clients[j] });
        assert(race_laws::kept(s.clients[j], crossed.clients[j]));
    }
    let last = s.racing && s.race_end_at is None && forall|j: int|
        0 <= j < s.clients.len() && (#[trigger] s.clients[j]).racing && s.clients[j].addr != from
            ==> s.clients[j].finished;
    assert(said.all_finished() <==> forall|j: int|
        0 <= j < s.clients.len() && (#[trigger] s.clients[j]).racing && s.clients[j].addr != from
            ==> s.clients[j].finished) by {
        if said.all_finished() {
            assert forall|j: int|
                0 <= j < s.clients.len() && (#[trigger] s.clients[j]).racing && s.clients[j].addr
                    != from implies s.clients[j].finished by {
                assert(said.clients[j].finished);
            }
        }
        if forall|j: int|
            0 <= j < s.clients.len() && (#[trigger] s.clients[j]).racing && s.clients[j].addr
                != from ==> s.clients[j].finished {
            assert forall|j: int|
                0 <= j < said.clients.len() && (
                #[trigger] said.clients[j]).racing implies said.clients[j].finished by {
                assert(s.clients[j].racing);
            }
        }
    }
    let phantom = seq![
        client::unordered(
            messages::car_crossed_finish_bytes(
                start_laws::host_id(),
                Finish { entity: 0x540, generation: 1, time_bits: host_time },
            ),
        ),
    ];
    if last {
        let ended = said.told(Audience::Lobby, phantom, clock);
        hearing::lemma_hears_told(said, Audience::Lobby, phantom, addr, clock);
        let second = if s.clients[i].garage is Some {
            phantom
        } else {
            Seq::empty()
        };
        assert(said.client(addr).garage == s.clients[i].garage);
        hearing::lemma_heard(said, ended, addr, second, clock);
        hearing::lemma_hears_nothing(ended, after, addr, clock);
        hearing::lemma_hears_twice(crossed, said, ended, addr, first, second, clock);
        hearing::lemma_hears_twice(crossed, ended, after, addr, first + second, Seq::empty(), clock);
        assert(first + second + Seq::<MessageView>::empty() =~= first + second);
        if s.clients[i].garage is Some {
            assert(first + second =~= seq![first[0], phantom[0]]);
        } else {
            assert(first + second =~= Seq::empty());
        }
    } else {
        assert(after == said);
    }
}

/// Places count up: whoever finishes next is one place behind.
#[verifier::rlimit(30)]
pub proof fn law_places_count_up(
    s: ServerView,
    a: u64,
    b: u64,
    finish: Finish,
    shown: Seq<char>,
    host_time: u64,
    clock: Clock,
)
    requires
        s.wf(),
        s.knows(a),
        s.knows(b),
        a != b,
        !s.client(b).finished,
    ensures
        place(
            s.crossed(a, finish, clock).finish_announced(a, shown, host_time, clock),
            b,
        ) == place(s, a) + 1,
        (forall|i: int| 0 <= i < s.clients.len() ==> !(#[trigger] s.clients[i]).finished) ==> place(
            s,
            a,
        ) == 1,
{
    let crossed = s.crossed(a, finish, clock);
    let after = crossed.finish_announced(a, shown, host_time, clock);
    let i = s.seat(a);
    let j = s.seat(b);
    state::lemma_seat_of(s.clients, a);
    state::lemma_seat_of(s.clients, b);
    law_finish_keeps_the_first(s, a, finish, clock);
    assert forall|k: int| 0 <= k < s.clients.len() implies (#[trigger] crossed.clients[k]).addr
        == s.clients[k].addr by {
        assert(race_laws::kept(s.clients[k], crossed.clients[k]));
    }
    state::lemma_same_seat(s.clients, crossed.clients, a);
    let timed = ServerView { host_time, ..crossed };
    let line = crossed.client(a).name() + " finished P"@ + text::decimal(crossed.finishers())
        + " in "@ + shown;
    let msgs = seq![client::ordered(chat::system_line(line))];
    let said = timed.said_all(line, clock);
    state::lemma_told_keeps(timed, Audience::Lobby, msgs, clock);
    let told = timed.told(Audience::Lobby, msgs, clock);
    let phantom = seq![
        client::unordered(
            messages::car_crossed_finish_bytes(
                crate::player::PlayerId::host(),
                Finish { entity: 0x540, generation: 1, time_bits: host_time },
            ),
        ),
    ];
    state::lemma_told_keeps(said, Audience::Lobby, phantom, clock);
    assert(after.clients.len() == s.clients.len());
    assert forall|k: int| 0 <= k < s.clients.len() implies {
        let c = #[trigger] after.clients[k];
        c.addr == s.clients[k].addr && c.finished == (s.clients[k].finished || s.clients[k].addr
            == a)
    } by {
        assert(told.clients[k] == ClientView { out: told.clients[k].out, ..timed.clients[k] });
        assert(said.clients[k] == told.clients[k]);
        let ended = said.told(Audience::Lobby, phantom, clock);
        assert(ended.clients[k] == ClientView { out: ended.clients[k].out, ..said.clients[k] });
        assert(after.clients[k] == said.clients[k] || after.clients[k] == ended.clients[k]);
    }
    // Everyone but `b` who has finished now; `a` is one of them.
    let p = |c: ClientView| c.finished && c.addr != b;
    assert forall|x: int, y: int| 0 <= x < y < after.clients.len() implies (
    #[trigger] after.clients[x]).addr != (#[trigger] after.clients[y]).addr by {
        assert(s.clients[x].addr != s.clients[y].addr);
    }
    lemma_count_without(after.clients, p, i);
    assert(p(after.clients[i]));
    let rest = |c: ClientView| p(c) && c.addr != after.clients[i].addr;
    let before = |c: ClientView| c.finished && c.addr != a;
    assert forall|k: int| 0 <= k < s.clients.len() implies before(#[trigger] s.clients[k])
        == rest(after.clients[k]) by {
        let c = after.clients[k];
        if s.clients[k].addr == b {
            hearing::lemma_key_finds(s.clients, k);
        }
    }
    start_laws::lemma_same_count(s.clients, after.clients, before, rest);
    if forall|k: int| 0 <= k < s.clients.len() ==> !(#[trigger] s.clients[k]).finished {
        start_laws::lemma_count(s.clients, before);
        hearing::lemma_none_pass(s.clients, before);
    }
}

// ---------------------------------------------------------------------------
// The grace period
// ---------------------------------------------------------------------------

/// One finish, as it is reported and announced.
pub struct Crossing {
    pub from: u64,
    pub finish: Finish,
    pub shown: Seq<char>,
    pub host_time: u64,
    pub clock: Clock,
}

/// With `finishes` taken, one after the other.
pub open spec fn after_finishes(s: ServerView, finishes: Seq<Crossing>) -> ServerView
    decreases finishes.len(),
{
    if finishes.len() == 0 {
        s
    } else {
        let f = finishes.last();
        after_finishes(s, finishes.drop_last()).crossed(f.from, f.finish, f.clock).finish_announced(
            f.from,
            f.shown,
            f.host_time,
            f.clock,
        )
    }
}

/// Announcing a finish keeps who is there and what the race is.
proof fn lemma_announced(
    s: ServerView,
    from: u64,
    shown: Seq<char>,
    host_time: u64,
    clock: Clock,
)
    ensures
        ({
            let after = s.finish_announced(from, shown, host_time, clock);
            &&& after.first_finish == s.first_finish
            &&& after.racing == s.racing
            &&& race_laws::all_kept(s.clients, after.clients)
            &&& s.wf() ==> after.wf()
        }),
{
    let timed = ServerView { host_time, ..s };
    let line = s.client(from).name() + " finished P"@ + text::decimal(s.finishers()) + " in "@
        + shown;
    let msgs = seq![client::ordered(chat::system_line(line))];
    let said = timed.said_all(line, clock);
    state::lemma_told_keeps(timed, Audience::Lobby, msgs, clock);
    race_laws::lemma_told_keeps_all(timed, Audience::Lobby, msgs, clock);
    assert(said.clients == timed.told(Audience::Lobby, msgs, clock).clients);
    race_laws::lemma_settled(said, clock);
    race_laws::lemma_all_kept_twice(s.clients, said.clients, said.settled(clock).clients);
    assert(race_laws::all_kept(s.clients, s.clients));
    let phantom = seq![
        client::unordered(
            messages::car_crossed_finish_bytes(
                crate::player::PlayerId::host(),
                Finish {
                    entity: crate::server::race::HOST_ENTITY,
                    generation: 1,
                    time_bits: host_time,
                },
            ),
        ),
    ];
    state::lemma_told_keeps(said, Audience::Lobby, phantom, clock);
    assert(s.wf() ==> said.wf());
}

/// However many cars finish in a race, the grace period runs from the first of
/// them.
pub proof fn law_grace_runs_from_the_first_finish(s: ServerView, finishes: Seq<Crossing>)
    requires
        s.wf(),
        s.racing,
        s.first_finish is None,
        finishes.len() > 0,
        forall|k: int| 0 <= k < finishes.len() ==> s.knows((#[trigger] finishes[k]).from),
    ensures
        ({
            let after = after_finishes(s, finishes);
            &&& after.wf() && after.racing
            &&& race_laws::all_kept(s.clients, after.clients)
            &&& after.first_finish == Some(finishes[0].clock.now)
            &&& forall|clock: Clock|
                clock.now >= finishes[0].clock.now + 180_000_000_000 ==> !(
                #[trigger] after.advanced(clock)).racing
        }),
    decreases finishes.len(),
{
    let init = finishes.drop_last();
    let f = finishes.last();
    let before = after_finishes(s, init);
    let after = after_finishes(s, finishes);
    if init.len() == 0 {
        assert(before == s);
        assert(race_laws::all_kept(s.clients, s.clients));
    } else {
        assert forall|k: int| 0 <= k < init.len() implies s.knows((#[trigger] init[k]).from) by {
            assert(init[k] == finishes[k]);
        }
        law_grace_runs_from_the_first_finish(s, init);
    }
    assert(finishes[finishes.len() - 1] == f);
    assert(s.knows(f.from));
    assert forall|k: int| 0 <= k < s.clients.len() implies (#[trigger] s.clients[k]).addr
        == before.clients[k].addr by {
        assert(race_laws::kept(s.clients[k], before.clients[k]));
    }
    state::lemma_same_seat(s.clients, before.clients, f.from);
    let crossed = before.crossed(f.from, f.finish, f.clock);
    law_finish_keeps_the_first(before, f.from, f.finish, f.clock);
    assert(race_laws::all_kept(before.clients, crossed.clients)) by {
        assert forall|k: int| 0 <= k < before.clients.len() implies race_laws::kept(
            #[trigger] before.clients[k],
            crossed.clients[k],
        ) by {
            let c = crossed.clients[k];
        }
    }
    lemma_crossed_wf(before, f.from, f.finish, f.clock);
    lemma_announced(crossed, f.from, f.shown, f.host_time, f.clock);
    race_laws::lemma_all_kept_twice(s.clients, before.clients, crossed.clients);
    race_laws::lemma_all_kept_twice(s.clients, crossed.clients, after.clients);
    assert forall|clock: Clock|
        clock.now >= finishes[0].clock.now + 180_000_000_000 implies !(
    #[trigger] after.advanced(clock)).racing by {
        law_race_ends_in_time(after, clock);
    }
}

proof fn lemma_crossed_wf(s: ServerView, from: u64, finish: Finish, clock: Clock)
    requires
        s.wf(),
        s.knows(from),
    ensures
        s.crossed(from, finish, clock).wf(),
{
    let c = s.client(from);
    let seat = s.seat(from);
    state::lemma_seat_of(s.clients, from);
    let marked = s.with_client(seat, ClientView { finished: true, ..c });
    let relay = seq![client::unordered(messages::car_crossed_finish_bytes(c.id, finish))];
    assert(marked.wf()) by {
        assert(s.clients[seat].wf(s.maps.len()));
        assert forall|i: int| 0 <= i < marked.clients.len() implies (
        #[trigger] marked.clients[i]).wf(marked.maps.len()) by {
            assert(s.clients[i].wf(s.maps.len()));
        }
    }
    state::lemma_told_keeps(marked, Audience::LobbyBut(from), relay, clock);
}

/// Ticking and streaming keep the race's clock while the race runs.
proof fn lemma_ticked_race(s: ServerView, clock: Clock)
    ensures
        ({
            let after = s.ticked_if_due(clock).streamed_if_due(clock);
            after.racing ==> s.racing && after.first_finish == s.first_finish && (
            s.race_end_at is Some ==> after.race_end_at == s.race_end_at)
        }),
{
    lemma_evicted_race(s, s.stale(clock.now), clock);
}

proof fn lemma_evicted_race(s: ServerView, addrs: Seq<u64>, clock: Clock)
    ensures
        ({
            let after = s.evicted(addrs, clock);
            after.racing ==> s.racing && after.first_finish == s.first_finish && (
            s.race_end_at is Some ==> after.race_end_at == s.race_end_at)
        }),
    decreases addrs.len(),
{
    if addrs.len() > 0 {
        let before = s.evicted(addrs.drop_last(), clock);
        lemma_evicted_race(s, addrs.drop_last(), clock);
        lemma_removed_race(before, addrs.last(), clock);
    }
}

/// Someone's leaving ends the race or keeps its clock.
proof fn lemma_removed_race(s: ServerView, addr: u64, clock: Clock)
    ensures
        ({
            let after = s.removed(addr, clock);
            after.racing ==> s.racing && after.first_finish == s.first_finish && (
            s.race_end_at is Some ==> after.race_end_at == s.race_end_at)
        }),
{
    if s.knows(addr) {
        let heard = race_laws::without(s, addr, clock);
        race_laws::lemma_ended_keeps_all(heard, clock);
        race_laws::lemma_settled(heard, clock);
    }
}

/// Once 180 seconds have passed since the first finish, or the end that was
/// scheduled has come, no race runs any more.
pub proof fn law_race_ends_in_time(s: ServerView, clock: Clock)
    requires
        (s.first_finish matches Some(t) && clock.now >= t + 180_000_000_000) || (
        s.race_end_at matches Some(t) && clock.now >= t),
    ensures
        !s.advanced(clock).racing,
{
    let after = s.ticked_if_due(clock).streamed_if_due(clock);
    lemma_ticked_race(s, clock);
    race_laws::lemma_ended_keeps_all(after, clock);
}

/// A race does not end before its time: while someone in the lobby is still
/// heard from, no end is due, and fewer than 180 seconds have passed since the
/// first finish, it goes on.
#[verifier::rlimit(30)]
pub proof fn law_race_does_not_end_early(s: ServerView, i: int, clock: Clock)
    requires
        s.wf(),
        s.racing,
        0 <= i < s.clients.len(),
        s.clients[i].garage is Some,
        clock.now <= s.clients[i].last_seen + 15_000_000_000,
        s.race_end_at matches Some(t) ==> clock.now < t,
        s.first_finish matches Some(t) ==> clock.now < t + 180_000_000_000,
        clock.now + 5_000_000_000 <= u64::MAX,
    ensures
        s.advanced(clock).racing,
{
    let addr = s.clients[i].addr;
    let gone = s.stale(clock.now);
    hearing::lemma_key_finds(s.clients, i);
    crate::server::retry_laws::lemma_not_stale(s, addr, clock.now);
    lemma_evicted_goes_on(s, gone, addr, clock);
    let evicted = s.evicted(gone, clock);
    lemma_evicted_race(s, gone, clock);
    let after = s.ticked_if_due(clock).streamed_if_due(clock);
    lemma_ticked_race(s, clock);
    assert(after.racing);
    assert(!after.is_over(clock.now)) by {
        if clock.now >= s.next_tick {
            assert(after.race_end_at == evicted.race_end_at);
        } else {
            assert(after.race_end_at == s.race_end_at);
        }
    }
}

/// As long as someone in the lobby stays, evicting others does not end a race.
proof fn lemma_evicted_goes_on(s: ServerView, addrs: Seq<u64>, addr: u64, clock: Clock)
    requires
        race_laws::distinct(s.clients),
        s.racing,
        s.knows(addr),
        s.client(addr).garage is Some,
        !addrs.contains(addr),
        clock.now + 5_000_000_000 <= u64::MAX,
    ensures
        ({
            let after = s.evicted(addrs, clock);
            &&& race_laws::distinct(after.clients)
            &&& after.racing
            &&& after.knows(addr)
            &&& after.client(addr).garage is Some
            &&& after.race_end_at == s.race_end_at || after.race_end_at == Some(
                (clock.now + 5_000_000_000) as u64,
            )
        }),
    decreases addrs.len(),
{
    if addrs.len() > 0 {
        let init = addrs.drop_last();
        let gone = addrs.last();
        assert(addrs[addrs.len() - 1] == gone);
        assert(!init.contains(addr)) by {
            if init.contains(addr) {
                let k = choose|k: int| 0 <= k < init.len() && init[k] == addr;
                assert(addrs[k] == addr);
            }
        }
        lemma_evicted_goes_on(s, init, addr, clock);
        let before = s.evicted(init, clock);
        let after = before.removed(gone, clock);
        state::lemma_seat_of(before.clients, addr);
        state::lemma_seat_of(before.clients, gone);
        if before.knows(gone) {
            let seat = before.seat(gone);
            let rest = before.clients.remove(seat);
            let i = before.seat(addr);
            let j = if i < seat {
                i
            } else {
                i - 1
            };
            let heard = race_laws::without(before, gone, clock);
            assert(rest[j] == before.clients[i]);
            race_laws::lemma_without(before, gone, clock);
            race_laws::lemma_removed(before, gone, clock);
            assert(race_laws::kept(rest[j], heard.clients[j]));
            assert(race_laws::kept(rest[j], after.clients[j]));
            race_laws::lemma_empty_audience(heard, Audience::Lobby);
            assert(Audience::Lobby.has(heard.clients[j]));
            race_laws::lemma_settled(heard, clock);
            hearing::lemma_key_finds(after.clients, j);
        }
    }
}

// ---------------------------------------------------------------------------
// Nothing else touches the race's clock
// ---------------------------------------------------------------------------

/// The race is the same, and so is the time of its first finish.
spec fn same_race(a: ServerView, b: ServerView) -> bool {
    a.racing == b.racing && a.first_finish == b.first_finish
}

proof fn lemma_forwarded_race(s: ServerView, visitors: Seq<u64>, payload: Seq<u8>, clock: Clock)
    ensures
        same_race(s, s.forwarded(visitors, payload, clock)),
    decreases visitors.len(),
{
    if visitors.len() > 0 {
        lemma_forwarded_race(s, visitors.drop_last(), payload, clock);
    }
}

proof fn lemma_heard_race(s: ServerView, from: u64, payload: Seq<u8>, clock: Clock)
    requires
        s.racing,
    ensures
        ({
            let after = s.heard(from, payload, clock).0;
            after.racing && s.first_finish is Some ==> after.first_finish == s.first_finish
        }),
{
    match event::event_of(payload) {
        Ok(Event::Chat) => {
            assert(same_race(s, s.chatted(from, payload, clock).0));
        },
        Ok(Event::Disconnect) => {
            lemma_removed_race(s, from, clock);
        },
        Ok(Event::VisitGarageResponse) => {
            let emptied = s.with_client(
                s.seat(from),
                ClientView { visitors: Seq::empty(), ..s.client(from) },
            );
            lemma_forwarded_race(emptied, s.client(from).visitors, payload, clock);
        },
        _ => {},
    }
}

/// While a race runs, nothing that happens moves the time of its first finish:
/// no datagram, no announcement and no time that passes.
pub proof fn law_first_finish_stays(
    s: ServerView,
    t: u64,
    from: u64,
    datagram: Seq<u8>,
    shown: Seq<char>,
    host_time: u64,
    clock: Clock,
)
    requires
        s.racing,
        s.first_finish == Some(t),
    ensures
        s.handled(from, datagram, clock).0.racing ==> s.handled(from, datagram, clock).0.first_finish
            == Some(t),
        s.finish_announced(from, shown, host_time, clock).first_finish == Some(t),
        s.advanced(clock).racing ==> s.advanced(clock).first_finish == Some(t),
{
    lemma_announced(s, from, shown, host_time, clock);
    lemma_ticked_race(s, clock);
    race_laws::lemma_ended_keeps_all(s.ticked_if_due(clock).streamed_if_due(clock), clock);
    let seen = s.seen(from, clock);
    match frame::parsed(datagram) {
        Ok(FrameView::Reliable(p)) => {
            let c = seen.client(from);
            let (received, got) = c.seen.received(p);
            let taken = seen.sent(
                from,
                frame::frame_bytes(FrameView::Ack(p.seq)),
            ).with_client(seen.seat(from), ClientView { seen: received, ..c });
            if let link::ReceivedView::Whole(payload) = got {
                lemma_heard_race(taken, from, payload, clock);
            }
        },
        _ => {},
    }
}

/// The finish of the last car still driving schedules the end of the race for
/// five seconds later; as long as another car drives, nothing is scheduled.
pub proof fn law_end_comes_five_seconds_later(
    s: ServerView,
    from: u64,
    finish: Finish,
    shown: Seq<char>,
    host_time: u64,
    clock: Clock,
)
    requires
        s.wf(),
        s.knows(from),
        s.racing,
        s.race_end_at is None,
        clock.now + 5_000_000_000 <= u64::MAX,
    ensures
        ({
            let after = s.crossed(from, finish, clock).finish_announced(
                from,
                shown,
                host_time,
                clock,
            );
            match after.race_end_at {
                Some(t) => t == clock.now + 5_000_000_000 && forall|i: int|
                    0 <= i < s.clients.len() && (#[trigger] s.clients[i]).racing
                        && s.clients[i].addr != from ==> s.clients[i].finished,
                None => exists|i: int|
                    0 <= i < s.clients.len() && (#[trigger] s.clients[i]).racing
                        && s.clients[i].addr != from && !s.clients[i].finished,
            }
        }),
{
    race_laws::law_last_finish_schedules_the_end(s, from, finish, shown, host_time, clock);
    state::lemma_seat_of(s.clients, from);
    let seat = s.seat(from);
    let last = forall|i: int|
        0 <= i < s.clients.len() && (#[trigger] s.clients[i]).racing && i != s.seat(from)
            ==> s.clients[i].finished;
    if last {
        assert forall|i: int|
            0 <= i < s.clients.len() && (#[trigger] s.clients[i]).racing && s.clients[i].addr
                != from implies s.clients[i].finished by {
            assert(i != seat);
        }
    } else {
        let i = choose|i: int|
            0 <= i < s.clients.len() && (#[trigger] s.clients[i]).racing && i != s.seat(from)
                && !s.clients[i].finished;
        if s.clients[i].addr == from {
            hearing::lemma_key_finds(s.clients, i);
        }
    }
}

/// A race time is shown as minutes, seconds below sixty in two digits, and
/// milliseconds in three, which together are the time.
pub proof fn law_race_time_is_minutes_seconds_and_milliseconds(millis: nat)
    ensures
        exists|m: nat, s: nat, f: nat|
            millis == 60_000 * m + 1000 * s + f && s < 60 && f < 1000 && crate::server::race::race_time(
                millis,
            ) == #[trigger] shown_time(m, s, f) && text::value(text::decimal(m)) == m
                && text::padded(s, 2).len() == 2 && text::value(text::padded(s, 2)) == s
                && text::padded(f, 3).len() == 3 && text::value(text::padded(f, 3)) == f,
{
    let m = millis / 60_000;
    let s = millis / 1000 % 60;
    let f = millis % 1000;
    text::law_padded_reads_back(s);
    text::law_padded_reads_back(f);
    text::lemma_decimal(m);
    assert(crate::server::race::race_time(millis) =~= shown_time(m, s, f));
    assert(millis == 60_000 * m + 1000 * s + f);
}

/// Minutes, seconds and milliseconds as they are shown.
pub open spec fn shown_time(m: nat, s: nat, f: nat) -> Seq<char> {
    text::decimal(m) + ":"@ + text::padded(s, 2) + "."@ + text::padded(f, 3)
}

/// The cars that count as finished are those that have, in the lobby or not.
pub proof fn law_finishers_are_counted(s: ServerView)
    ensures
        s.finishers() == start_laws::count(s.clients, |c: ClientView| c.finished),
{
    start_laws::lemma_count(s.clients, |c: ClientView| c.finished);
}

} // verus!
