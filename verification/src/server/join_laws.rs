//! What joining, garages, leaving, the countdown and visits look like to the
//! clients.

use vstd::prelude::*;

use crate::error::Error;
use crate::event;
use crate::event::Event;
use crate::messages;
use crate::messages::Finish;
use crate::player;
use crate::player::{ClientInfoView, PlayerId, PlayerInfoView, ServerInfoView};
use crate::server::chat;
use crate::server::client;
use crate::server::client::{ClientView, Clock, MessageView};
use crate::server::hearing;
use crate::server::lobby;
use crate::server::race_laws;
use crate::server::start_laws;
use crate::server::state;
use crate::server::state::{Audience, ServerView};
use crate::server::vote_laws;

verus! {

// ---------------------------------------------------------------------------
// Garages
// ---------------------------------------------------------------------------

/// The garage a client sent last is its garage, whether it joins with it or was
/// in the lobby before; nobody else's changes. Everyone else in the lobby gets
/// it at once; a newcomer hears what is raced next.
#[verifier::rlimit(30)]
pub proof fn law_last_garage_is_kept_and_shown(
    s: ServerView,
    from: u64,
    payload: Seq<u8>,
    i: int,
    clock: Clock,
)
    requires
        s.wf(),
        s.knows(from),
        event::event_of(payload) == Ok::<Event, Error>(Event::GarageState),
        0 <= i < s.clients.len(),
    ensures
        ({
            let after = s.heard(from, payload, clock).0;
            &&& after.clients.len() == s.clients.len()
            &&& forall|k: int|
                0 <= k < s.clients.len() ==> {
                    let c = #[trigger] after.clients[k];
                    &&& c.garage == if s.clients[k].addr == from {
                        Some(payload)
                    } else {
                        s.clients[k].garage
                    }
                    &&& c.addr == s.clients[k].addr && c.id == s.clients[k].id && c.info
                        == s.clients[k].info
                    &&& c.racing == s.clients[k].racing && c.ready == s.clients[k].ready
                    &&& c.finished == s.clients[k].finished && c.vote == s.clients[k].vote
                }
            &&& after.racing == s.racing && after.map_index == s.map_index
            &&& exists|next: int| #[trigger]
                vote_laws::comes_next(after, next) && hearing::hears(
                    s,
                    after,
                    s.clients[i].addr,
                    if s.clients[i].addr == from {
                        if s.clients[i].garage is Some {
                            Seq::empty()
                        } else {
                            seq![
                                client::ordered(
                                    chat::system_line(
                                        "Next race: "@ + start_laws::described(s, next)
                                            + ". Chat !help for commands."@,
                                    ),
                                ),
                            ]
                        }
                    } else if s.clients[i].garage is Some {
                        seq![
                            client::ordered(
                                messages::garage_commit_bytes(s.client(from).id, payload),
                            ),
                        ]
                    } else {
                        Seq::empty()
                    },
                    clock,
                )
        }),
{
    let addr = s.clients[i].addr;
    let seat = s.seat(from);
    let c = s.client(from);
    let none = Seq::<MessageView>::empty();
    state::lemma_seat_of(s.clients, from);
    hearing::lemma_key_finds(s.clients, i);
    let set = s.with_client(seat, ClientView { garage: Some(payload), ..c });
    let commit = seq![client::ordered(messages::garage_commit_bytes(c.id, payload))];
    let parked = set.told(Audience::LobbyBut(from), commit, clock);
    let after = s.heard(from, payload, clock).0;
    assert(set.wf()) by {
        assert(s.clients[seat].wf(s.maps.len()));
        assert forall|k: int| 0 <= k < set.clients.len() implies (#[trigger] set.clients[k]).wf(
            set.maps.len(),
        ) by {
            assert(s.clients[k].wf(s.maps.len()));
        }
    }
    state::lemma_told_keeps(set, Audience::LobbyBut(from), commit, clock);
    let next = parked.upcoming();
    let line = "Next race: "@ + parked.describe(next) + ". Chat !help for commands."@;
    let word = seq![client::ordered(chat::system_line(line))];
    let said = parked.told(Audience::One(from), word, clock);
    state::lemma_told_keeps(parked, Audience::One(from), word, clock);
    assert(parked.describe(next) =~= start_laws::described(s, next));
    assert(after == if c.in_lobby() {
        parked
    } else {
        said
    });
    assert forall|k: int| 0 <= k < s.clients.len() implies {
        let d = #[trigger] after.clients[k];
        &&& d.garage == if s.clients[k].addr == from {
            Some(payload)
        } else {
            s.clients[k].garage
        }
        &&& d.addr == s.clients[k].addr && d.id == s.clients[k].id && d.info == s.clients[k].info
        &&& d.racing == s.clients[k].racing && d.ready == s.clients[k].ready
        &&& d.finished == s.clients[k].finished && d.vote == s.clients[k].vote
        &&& parked.clients[k].vote == d.vote && parked.clients[k].garage == d.garage
    } by {
        assert(parked.clients[k] == ClientView { out: parked.clients[k].out, ..set.clients[k] });
        assert(said.clients[k] == ClientView { out: said.clients[k].out, ..parked.clients[k] });
        if s.clients[k].addr == from {
            hearing::lemma_key_finds(s.clients, k);
        }
    }
    // What comes next.
    vote_laws::law_upcoming_comes_next(parked);
    lemma_same_next(parked, after, next);
    // What is heard.
    hearing::lemma_hears_nothing(s, set, addr, clock);
    hearing::lemma_heard(s, set, addr, none, clock);
    hearing::lemma_hears_told(set, Audience::LobbyBut(from), commit, addr, clock);
    let first = if addr != from && s.clients[i].garage is Some {
        commit
    } else {
        none
    };
    hearing::lemma_heard(set, parked, addr, first, clock);
    hearing::lemma_hears_twice(s, set, parked, addr, none, first, clock);
    assert(none + first =~= first);
    if !c.in_lobby() {
        let second = if addr == from {
            word
        } else {
            none
        };
        hearing::lemma_hears_told(parked, Audience::One(from), word, addr, clock);
        assert(parked.client(addr).addr == addr);
        hearing::lemma_hears_twice(s, parked, said, addr, first, second, clock);
        assert(first + second =~= if addr == from {
            word
        } else {
            first
        });
    }
}

/// What comes next depends on the race, the track and the votes alone.
proof fn lemma_same_next(a: ServerView, b: ServerView, next: int)
    requires
        vote_laws::comes_next(a, next),
        a.racing == b.racing,
        a.map_index == b.map_index,
        a.maps == b.maps,
        a.clients.len() == b.clients.len(),
        forall|k: int|
            0 <= k < b.clients.len() ==> (#[trigger] b.clients[k]).garage == a.clients[k].garage
                && b.clients[k].vote == a.clients[k].vote,
    ensures
        vote_laws::comes_next(b, next),
{
    assert forall|j: int| #[trigger] vote_laws::wanted(a, j) == vote_laws::wanted(b, j) by {
        let q = |c: ClientView| c.garage is Some && c.vote == Some(j as usize);
        assert forall|k: int| 0 <= k < a.clients.len() implies q(#[trigger] a.clients[k]) == q(
            b.clients[k],
        ) by {
            assert(b.clients[k].garage == a.clients[k].garage);
        }
        start_laws::lemma_same_count(a.clients, b.clients, q, q);
    }
    if a.racing {
        if forall|k: int| 0 <= k < a.maps.len() ==> #[trigger] vote_laws::wanted(a, k) == 0 {
            assert forall|k: int| 0 <= k < b.maps.len() implies #[trigger] vote_laws::wanted(b, k)
                == 0 by {
                assert(vote_laws::wanted(a, k) == 0);
            }
        } else {
            assert(vote_laws::most_wanted(a, next));
            assert forall|k: int| 0 <= k < b.maps.len() implies #[trigger] vote_laws::wanted(b, k)
                <= vote_laws::wanted(b, next) by {
                assert(vote_laws::wanted(a, k) <= vote_laws::wanted(a, next));
            }
            assert forall|k: int| 0 <= k < next implies #[trigger] vote_laws::wanted(b, k)
                < vote_laws::wanted(b, next) by {
                assert(vote_laws::wanted(a, k) < vote_laws::wanted(a, next));
            }
            assert(vote_laws::wanted(b, next) == vote_laws::wanted(a, next));
        }
    }
}

// ---------------------------------------------------------------------------
// Joining
// ---------------------------------------------------------------------------

/// `order` are the clients in the lobby with another id than `id`, as they came.
pub open spec fn is_roster(clients: Seq<ClientView>, id: PlayerId, order: Seq<int>) -> bool {
    &&& forall|k: int|
        0 <= k < order.len() ==> 0 <= #[trigger] order[k] < clients.len()
            && clients[order[k]].garage is Some && clients[order[k]].id != id
    &&& forall|i: int|
        0 <= i < clients.len() && (#[trigger] clients[i]).garage is Some && clients[i].id != id
            ==> order.contains(i)
    &&& forall|j: int, k: int|
        0 <= j < k < order.len() ==> #[trigger] order[j] < #[trigger] order[k]
}

/// Which clients are left by a filter.
proof fn lemma_roster(clients: Seq<ClientView>, id: PlayerId) -> (order: Seq<int>)
    ensures
        is_roster(clients, id, order),
        ({
            let kept = clients.filter(|c: ClientView| c.id != id && c.in_lobby());
            kept.len() == order.len() && forall|k: int|
                0 <= k < order.len() ==> kept[k] == clients[#[trigger] order[k]]
        }),
    decreases clients.len(),
{
    reveal(Seq::filter);
    let p = |c: ClientView| c.id != id && c.in_lobby();
    if clients.len() == 0 {
        Seq::empty()
    } else {
        let n = clients.len() - 1;
        let init = clients.drop_last();
        let before = lemma_roster(init, id);
        assert(forall|i: int| 0 <= i < n ==> init[i] == clients[i]);
        let kept = clients.filter(p);
        let order = if p(clients.last()) {
            before.push(n)
        } else {
            before
        };
        assert forall|i: int|
            0 <= i < clients.len() && (#[trigger] clients[i]).garage is Some && clients[i].id
                != id implies order.contains(i) by {
            if i < n {
                assert(init[i].garage is Some);
                assert(before.contains(i));
                let k = choose|k: int| 0 <= k < before.len() && before[k] == i;
                assert(order[k] == i);
            } else {
                assert(order[order.len() - 1] == i);
            }
        }
        assert forall|k: int| 0 <= k < order.len() implies 0 <= #[trigger] order[k]
            < clients.len() && clients[order[k]].garage is Some && clients[order[k]].id != id
            && kept[k] == clients[order[k]] by {
            if k < before.len() {
                assert(order[k] == before[k]);
            }
        }
        order
    }
}

/// How a client appears in the player list.
pub open spec fn listed(c: ClientView) -> PlayerInfoView {
    PlayerInfoView {
        id: c.id,
        name: match c.info {
            Some(info) => info.name,
            None => Seq::empty(),
        },
        avatar: seq![0u8, 0u8, 0u8, 0u8, 0u8],
    }
}

/// `msgs` describe the lobby to a joining client with the id `id`: who is in it,
/// as they came and the host last, and the track; then the host's garage, and
/// the garage of everyone listed.
pub open spec fn describes_lobby(s: ServerView, id: PlayerId, msgs: Seq<MessageView>) -> bool {
    exists|order: Seq<int>| #[trigger]
        is_roster(s.clients, id, order) && msgs.len() == order.len() + 2 && msgs[0]
            == client::unordered(
            player::server_info_bytes(
                ServerInfoView {
                    players: Seq::new(order.len(), |k: int| listed(s.clients[order[k]])).push(
                        PlayerInfoView {
                            id: start_laws::host_id(),
                            name: s.name,
                            avatar: seq![0u8, 0u8, 0u8, 0u8, 0u8],
                        },
                    ),
                    applicant: id,
                    host: start_laws::host_id(),
                    map: s.maps[s.map_index].name,
                    variant: s.maps[s.map_index].variant,
                    enabled_mods: Seq::empty(),
                },
            ),
        ) && msgs[1] == client::unordered(
            messages::garage_commit_bytes(start_laws::host_id(), s.host.garage),
        ) && forall|k: int|
            0 <= k < order.len() ==> msgs[2 + k] == client::unordered(
                messages::garage_commit_bytes(
                    s.clients[#[trigger] order[k]].id,
                    s.clients[order[k]].garage->Some_0,
                ),
            )
}

proof fn lemma_describes_lobby(s: ServerView, id: PlayerId)
    ensures
        describes_lobby(
            s,
            id,
            seq![client::unordered(player::server_info_bytes(s.server_info(id)))] + s.commits(id),
        ),
{
    let order = lemma_roster(s.clients, id);
    let msgs = seq![client::unordered(player::server_info_bytes(s.server_info(id)))] + s.commits(
        id,
    );
    let others = s.others(id);
    let players = Seq::new(order.len(), |k: int| listed(s.clients[order[k]]));
    assert forall|k: int| 0 <= k < order.len() implies lobby::entry_of(others[k]) == players[k] by {
        assert(others[k] == s.clients[order[k]]);
        assert(lobby::entry_of(others[k]) =~= listed(s.clients[order[k]]));
    }
    assert(others.map_values(|c: ClientView| lobby::entry_of(c)) =~= players);
    assert(is_roster(s.clients, id, order));
    assert forall|k: int| 0 <= k < order.len() implies msgs[2 + k] == client::unordered(
        messages::garage_commit_bytes(
            s.clients[#[trigger] order[k]].id,
            s.clients[order[k]].garage->Some_0,
        ),
    ) by {
        assert(others[k] == s.clients[order[k]]);
        assert(msgs[2 + k] == lobby::commit_of(others[k]));
    }
}

/// A client that identifies itself hears of the lobby as it is, itself left out:
/// who is in it and with which garage, and on which track it is. Everyone else
/// in the lobby hears who it is; those outside hear nothing. Its name is kept,
/// and nobody else's changes.
#[verifier::rlimit(30)]
pub proof fn law_newcomer_is_introduced(
    s: ServerView,
    from: u64,
    payload: Seq<u8>,
    info: ClientInfoView,
    end: int,
    i: int,
    clock: Clock,
)
    requires
        s.wf(),
        s.knows(from),
        event::event_of(payload) == Ok::<Event, Error>(Event::ClientInfo),
        player::read_client_info(payload) == Ok::<(ClientInfoView, int), Error>((info, end)),
        0 <= i < s.clients.len(),
    ensures
        ({
            let after = s.heard(from, payload, clock).0;
            let id = s.client(from).id;
            &&& after.clients.len() == s.clients.len()
            &&& forall|k: int|
                0 <= k < s.clients.len() ==> {
                    let c = #[trigger] after.clients[k];
                    &&& c.info == if s.clients[k].addr == from {
                        Some(info)
                    } else {
                        s.clients[k].info
                    }
                    &&& c.addr == s.clients[k].addr && c.id == s.clients[k].id && c.garage
                        == s.clients[k].garage
                }
            &&& s.clients[i].addr == from ==> exists|msgs: Seq<MessageView>| #[trigger]
                describes_lobby(s, id, msgs) && hearing::hears(s, after, from, msgs, clock)
            &&& s.clients[i].addr != from ==> hearing::hears(
                s,
                after,
                s.clients[i].addr,
                if s.clients[i].garage is Some {
                    seq![client::unordered(player::joined_bytes(id, info))]
                } else {
                    Seq::empty()
                },
                clock,
            )
        }),
{
    let addr = s.clients[i].addr;
    let seat = s.seat(from);
    let id = s.client(from).id;
    let none = Seq::<MessageView>::empty();
    state::lemma_seat_of(s.clients, from);
    hearing::lemma_key_finds(s.clients, i);
    let named = s.with_client(seat, ClientView { info: Some(info), ..s.client(from) });
    let msgs = seq![client::unordered(player::server_info_bytes(named.server_info(id)))]
        + named.commits(id);
    let described = named.told(Audience::One(from), msgs, clock);
    let news = seq![client::unordered(player::joined_bytes(id, info))];
    let after = described.told(Audience::LobbyBut(from), news, clock);
    assert(s.heard(from, payload, clock).0 == after);
    state::lemma_told_keeps(named, Audience::One(from), msgs, clock);
    state::lemma_told_keeps(described, Audience::LobbyBut(from), news, clock);
    assert forall|k: int| 0 <= k < s.clients.len() implies {
        let c = #[trigger] after.clients[k];
        &&& c.info == if s.clients[k].addr == from {
            Some(info)
        } else {
            s.clients[k].info
        }
        &&& c.addr == s.clients[k].addr && c.id == s.clients[k].id && c.garage
            == s.clients[k].garage
    } by {
        assert(described.clients[k] == ClientView {
            out: described.clients[k].out,
            ..named.clients[k]
        });
        assert(after.clients[k] == ClientView {
            out: after.clients[k].out,
            ..described.clients[k]
        });
        if s.clients[k].addr == from {
            hearing::lemma_key_finds(s.clients, k);
        }
    }
    // What is heard.
    let first = if addr == from {
        msgs
    } else {
        none
    };
    let second = if addr != from && s.clients[i].garage is Some {
        news
    } else {
        none
    };
    hearing::lemma_hears_nothing(s, named, addr, clock);
    hearing::lemma_heard(s, named, addr, none, clock);
    assert(named.client(addr).addr == addr);
    hearing::lemma_hears_told(named, Audience::One(from), msgs, addr, clock);
    hearing::lemma_heard(named, described, addr, first, clock);
    assert(described.clients[i] == ClientView {
        out: described.clients[i].out,
        ..named.clients[i]
    });
    hearing::lemma_hears_told(described, Audience::LobbyBut(from), news, addr, clock);
    hearing::lemma_hears_twice(s, named, described, addr, none, first, clock);
    assert(none + first =~= first);
    hearing::lemma_hears_twice(s, described, after, addr, first, second, clock);
    assert(first + second =~= if addr == from {
        msgs
    } else {
        second
    });
    // The newcomer itself is not in its own description.
    lemma_describes_lobby(named, id);
    let order = choose|order: Seq<int>| #[trigger]
        is_roster(named.clients, id, order) && msgs.len() == order.len() + 2 && msgs[0]
            == client::unordered(
            player::server_info_bytes(
                ServerInfoView {
                    players: Seq::new(order.len(), |k: int| listed(named.clients[order[k]])).push(
                        PlayerInfoView {
                            id: start_laws::host_id(),
                            name: named.name,
                            avatar: seq![0u8, 0u8, 0u8, 0u8, 0u8],
                        },
                    ),
                    applicant: id,
                    host: start_laws::host_id(),
                    map: named.maps[named.map_index].name,
                    variant: named.maps[named.map_index].variant,
                    enabled_mods: Seq::empty(),
                },
            ),
        ) && msgs[1] == client::unordered(
            messages::garage_commit_bytes(start_laws::host_id(), named.host.garage),
        ) && forall|k: int|
            0 <= k < order.len() ==> msgs[2 + k] == client::unordered(
                messages::garage_commit_bytes(
                    named.clients[#[trigger] order[k]].id,
                    named.clients[order[k]].garage->Some_0,
                ),
            );
    assert forall|k: int| 0 <= k < order.len() implies named.clients[#[trigger] order[k]]
        == s.clients[order[k]] by {
        assert(named.clients[order[k]].id != id);
    }
    assert(Seq::new(order.len(), |k: int| listed(named.clients[order[k]])) =~= Seq::new(
        order.len(),
        |k: int| listed(s.clients[order[k]]),
    ));
    assert(is_roster(s.clients, id, order)) by {
        assert forall|k: int| 0 <= k < order.len() implies 0 <= #[trigger] order[k]
            < s.clients.len() && s.clients[order[k]].garage is Some && s.clients[order[k]].id
            != id by {
            assert(named.clients[order[k]] == s.clients[order[k]]);
        }
        assert forall|k: int|
            0 <= k < s.clients.len() && (#[trigger] s.clients[k]).garage is Some && s.clients[k].id
                != id implies order.contains(k) by {
            assert(named.clients[k] == s.clients[k]);
        }
    }
    assert(describes_lobby(s, id, msgs));
}

// ---------------------------------------------------------------------------
// Leaving
// ---------------------------------------------------------------------------

/// When a client leaves, everyone left in the lobby hears that its slot is gone,
/// if it had one. If it was the last one still driving, the phantom's finish
/// follows. Those outside the lobby hear nothing while someone is left in it.
#[verifier::rlimit(30)]
pub proof fn law_leaving_is_heard(
    s: ServerView,
    from: u64,
    payload: Seq<u8>,
    i: int,
    clock: Clock,
)
    requires
        s.wf(),
        s.knows(from),
        event::event_of(payload) == Ok::<Event, Error>(Event::Disconnect),
        0 <= i < s.clients.len(),
        s.clients[i].addr != from,
        s.clients[i].garage is Some,
    ensures
        ({
            let after = s.heard(from, payload, clock).0;
            let left = seq![client::unordered(messages::player_left_bytes(s.client(from).id))];
            let last = s.racing && s.race_end_at is None && forall|j: int|
                0 <= j < s.clients.len() && (#[trigger] s.clients[j]).racing && s.clients[j].addr
                    != from ==> s.clients[j].finished;
            let phantom = seq![
                client::unordered(
                    messages::car_crossed_finish_bytes(
                        start_laws::host_id(),
                        Finish { entity: 0x540, generation: 1, time_bits: s.host_time },
                    ),
                ),
            ];
            &&& !after.knows(from)
            &&& after.clients.len() == s.clients.len() - 1
            &&& after.racing == s.racing
            &&& hearing::hears(
                s,
                after,
                s.clients[i].addr,
                (if s.client(from).garage is Some {
                    left
                } else {
                    Seq::empty()
                }) + (if last {
                    phantom
                } else {
                    Seq::empty()
                }),
                clock,
            )
        }),
{
    let addr = s.clients[i].addr;
    let seat = s.seat(from);
    let c = s.client(from);
    let none = Seq::<MessageView>::empty();
    state::lemma_seat_of(s.clients, from);
    hearing::lemma_key_finds(s.clients, i);
    let rest = ServerView { clients: s.clients.remove(seat), ..s };
    let left = seq![client::unordered(messages::player_left_bytes(c.id))];
    let heard = race_laws::without(s, from, clock);
    let after = s.removed(from, clock);
    race_laws::lemma_without(s, from, clock);
    race_laws::lemma_removed(s, from, clock);
    let j = if i < seat {
        i
    } else {
        i - 1
    };
    assert(rest.clients[j] == s.clients[i]);
    hearing::lemma_hears_nothing_of_removal(s, rest, seat, addr, clock);
    hearing::lemma_heard(s, rest, addr, none, clock);
    let first = if c.garage is Some {
        left
    } else {
        none
    };
    if c.garage is Some {
        hearing::lemma_hears_told(rest, Audience::Lobby, left, addr, clock);
    } else {
        hearing::lemma_hears_nothing(rest, rest, addr, clock);
    }
    hearing::lemma_heard(rest, heard, addr, first, clock);
    hearing::lemma_hears_twice(s, rest, heard, addr, none, first, clock);
    assert(none + first =~= first);
    assert(race_laws::kept(rest.clients[j], heard.clients[j]));
    hearing::lemma_key_finds(heard.clients, j);
    race_laws::lemma_empty_audience(heard, Audience::Lobby);
    assert(Audience::Lobby.has(heard.clients[j]));
    race_laws::lemma_settled(heard, clock);
    let at = |k: int|
        if k < seat {
            k
        } else {
            k + 1
        };
    assert(heard.all_finished() <==> forall|k: int|
        0 <= k < s.clients.len() && (#[trigger] s.clients[k]).racing && s.clients[k].addr != from
            ==> s.clients[k].finished) by {
        if heard.all_finished() {
            assert forall|k: int|
                0 <= k < s.clients.len() && (#[trigger] s.clients[k]).racing && s.clients[k].addr
                    != from implies s.clients[k].finished by {
                let m = if k < seat {
                    k
                } else {
                    k - 1
                };
                assert(k != seat);
                assert(rest.clients[m] == s.clients[k]);
                assert(heard.clients[m].racing);
            }
        }
        if forall|k: int|
            0 <= k < s.clients.len() && (#[trigger] s.clients[k]).racing && s.clients[k].addr
                != from ==> s.clients[k].finished {
            assert forall|m: int|
                0 <= m < heard.clients.len() && (
                #[trigger] heard.clients[m]).racing implies heard.clients[m].finished by {
                assert(rest.clients[m] == s.clients[at(m)]);
                assert(heard.clients[m].addr != from);
                assert(race_laws::kept(rest.clients[m], heard.clients[m]));
            }
        }
    }
    let phantom = seq![
        client::unordered(
            messages::car_crossed_finish_bytes(
                start_laws::host_id(),
                Finish { entity: 0x540, generation: 1, time_bits: s.host_time },
            ),
        ),
    ];
    let last = s.racing && s.race_end_at is None && forall|k: int|
        0 <= k < s.clients.len() && (#[trigger] s.clients[k]).racing && s.clients[k].addr != from
            ==> s.clients[k].finished;
    assert(heard.host_time == s.host_time);
    if last {
        let told = heard.told(Audience::Lobby, phantom, clock);
        hearing::lemma_hears_told(heard, Audience::Lobby, phantom, addr, clock);
        hearing::lemma_heard(heard, told, addr, phantom, clock);
        hearing::lemma_hears_nothing(told, after, addr, clock);
        hearing::lemma_hears_twice(s, heard, told, addr, first, phantom, clock);
        hearing::lemma_hears_twice(s, told, after, addr, first + phantom, none, clock);
        assert(first + phantom + none =~= first + phantom);
    } else {
        assert(after == heard);
        assert(first + none =~= first);
    }
    state::lemma_seat_of(after.clients, from);
}

// ---------------------------------------------------------------------------
// Ready
// ---------------------------------------------------------------------------

/// A Ready that does not start a race is heard by everyone else in the lobby;
/// the one that completes the grid confirms is followed, for everyone in the
/// lobby, by the host's own and the go.
#[verifier::rlimit(30)]
pub proof fn law_ready_is_heard(
    s: ServerView,
    from: u64,
    payload: Seq<u8>,
    ready: bool,
    end: int,
    i: int,
    clock: Clock,
)
    requires
        s.wf(),
        s.knows(from),
        event::event_of(payload) == Ok::<Event, Error>(Event::Ready),
        messages::read_ready(payload) == Ok::<(bool, int), Error>((ready, end)),
        0 <= i < s.clients.len(),
        s.racing || exists|j: int|
            0 <= j < s.clients.len() && (#[trigger] s.clients[j]).garage is Some && !(
            if s.clients[j].addr == from {
                ready
            } else {
                s.clients[j].ready
            }),
    ensures
        ({
            let after = s.heard(from, payload, clock).0;
            let goes = s.racing && s.client(from).racing && s.client(from).ready != ready
                && forall|j: int|
                0 <= j < s.clients.len() && (#[trigger] s.clients[j]).racing ==> if s.clients[j].addr
                    == from {
                    ready
                } else {
                    s.clients[j].ready
                };
            &&& after.racing == s.racing
            &&& after.clients.len() == s.clients.len()
            &&& forall|k: int|
                0 <= k < s.clients.len() ==> (#[trigger] after.clients[k]).ready
                    == if s.clients[k].addr == from {
                    ready
                } else {
                    s.clients[k].ready
                }
            &&& after.race_go_at == if goes {
                Some(clock.now)
            } else {
                s.race_go_at
            }
            &&& hearing::hears(
                s,
                after,
                s.clients[i].addr,
                (if s.clients[i].garage is Some && s.clients[i].addr != from {
                    seq![
                        client::ordered(
                            messages::ready_broadcast_bytes(s.client(from).id, ready),
                        ),
                    ]
                } else {
                    Seq::empty()
                }) + (if s.clients[i].garage is Some && goes {
                    seq![
                        client::ordered(messages::ready_broadcast_bytes(start_laws::host_id(), true)),
                        client::unordered(messages::tagged(Event::RaceGo, Seq::empty())),
                    ]
                } else {
                    Seq::empty()
                }),
                clock,
            )
        }),
{
    let addr = s.clients[i].addr;
    let seat = s.seat(from);
    let c = s.client(from);
    let none = Seq::<MessageView>::empty();
    state::lemma_seat_of(s.clients, from);
    hearing::lemma_key_finds(s.clients, i);
    let set = s.with_client(seat, ClientView { ready, ..c });
    let news = seq![client::ordered(messages::ready_broadcast_bytes(c.id, ready))];
    let marked = set.told(Audience::LobbyBut(from), news, clock);
    state::lemma_told_keeps(set, Audience::LobbyBut(from), news, clock);
    assert forall|k: int| 0 <= k < s.clients.len() implies {
        let m = #[trigger] marked.clients[k];
        &&& m.ready == if s.clients[k].addr == from {
            ready
        } else {
            s.clients[k].ready
        }
        &&& m.garage == s.clients[k].garage && m.racing == s.clients[k].racing && m.addr
            == s.clients[k].addr
    } by {
        assert(marked.clients[k] == ClientView { out: marked.clients[k].out, ..set.clients[k] });
        if s.clients[k].addr == from {
            hearing::lemma_key_finds(s.clients, k);
        }
    }
    let first = if s.clients[i].garage is Some && addr != from {
        news
    } else {
        none
    };
    hearing::lemma_hears_nothing(s, set, addr, clock);
    hearing::lemma_heard(s, set, addr, none, clock);
    assert(set.client(addr).addr == addr && set.client(addr).garage == s.clients[i].garage);
    hearing::lemma_hears_told(set, Audience::LobbyBut(from), news, addr, clock);
    hearing::lemma_heard(set, marked, addr, first, clock);
    hearing::lemma_hears_twice(s, set, marked, addr, none, first, clock);
    assert(none + first =~= first);
    assert(marked.all_confirmed() <==> forall|j: int|
        0 <= j < s.clients.len() && (#[trigger] s.clients[j]).racing ==> if s.clients[j].addr
            == from {
            ready
        } else {
            s.clients[j].ready
        }) by {
        if marked.all_confirmed() {
            assert forall|j: int|
                0 <= j < s.clients.len() && (
                #[trigger] s.clients[j]).racing implies if s.clients[j].addr == from {
                ready
            } else {
                s.clients[j].ready
            } by {
                assert(marked.clients[j].racing);
            }
        }
        if forall|j: int|
            0 <= j < s.clients.len() && (#[trigger] s.clients[j]).racing ==> if s.clients[j].addr
                == from {
                ready
            } else {
                s.clients[j].ready
            } {
            assert forall|j: int|
                0 <= j < marked.clients.len() && (
                #[trigger] marked.clients[j]).racing implies marked.clients[j].ready by {
                assert(s.clients[j].racing);
            }
        }
    }
    let goes = s.racing && c.racing && c.ready != ready && marked.all_confirmed();
    let after = s.heard(from, payload, clock).0;
    let go = seq![
        client::ordered(messages::ready_broadcast_bytes(start_laws::host_id(), true)),
        client::unordered(messages::tagged(Event::RaceGo, Seq::empty())),
    ];
    if goes {
        let told = marked.told(Audience::Lobby, go, clock);
        state::lemma_told_keeps(marked, Audience::Lobby, go, clock);
        let second = if s.clients[i].garage is Some {
            go
        } else {
            none
        };
        assert(marked.client(addr).garage == s.clients[i].garage);
        hearing::lemma_hears_told(marked, Audience::Lobby, go, addr, clock);
        hearing::lemma_heard(marked, told, addr, second, clock);
        assert(after.clients == told.clients);
        hearing::lemma_hears_nothing(told, after, addr, clock);
        hearing::lemma_hears_twice(s, marked, told, addr, first, second, clock);
        hearing::lemma_hears_twice(s, told, after, addr, first + second, none, clock);
        assert(first + second + none =~= first + second);
        assert forall|k: int| 0 <= k < s.clients.len() implies (#[trigger] after.clients[k]).ready
            == if s.clients[k].addr == from {
            ready
        } else {
            s.clients[k].ready
        } by {
            assert(told.clients[k] == ClientView { out: told.clients[k].out, ..marked.clients[k] });
            assert(marked.clients[k].addr == s.clients[k].addr);
        }
    } else {
        if !s.racing {
            let j = choose|j: int|
                0 <= j < s.clients.len() && (#[trigger] s.clients[j]).garage is Some && !(
                if s.clients[j].addr == from {
                    ready
                } else {
                    s.clients[j].ready
                });
            assert(marked.clients[j].in_lobby() && !marked.clients[j].ready);
        }
        assert(after == marked);
        assert(first + none =~= first);
    }
}

// ---------------------------------------------------------------------------
// Visits
// ---------------------------------------------------------------------------

/// What the lobby hears of a visit of `visitor` to `owner`'s garage.
pub open spec fn visit_heard(visitor: PlayerId, owner: PlayerId) -> Seq<MessageView> {
    seq![
        client::ordered(messages::garage_visit_bytes(visitor, owner)),
        client::ordered(messages::location_in_garage_bytes(visitor, owner)),
    ]
}

/// A visit to the host's garage is answered to the visitor by the server itself,
/// with the host's garage; everyone else in the lobby hears where it is.
pub proof fn law_visit_to_the_host_is_heard(
    s: ServerView,
    from: u64,
    payload: Seq<u8>,
    end: int,
    i: int,
    clock: Clock,
)
    requires
        s.wf(),
        s.knows(from),
        event::event_of(payload) == Ok::<Event, Error>(Event::RequestVisitGarage),
        messages::read_id_event(payload, Event::RequestVisitGarage, "RequestVisitGarage") == Ok::<
            (PlayerId, int),
            Error,
        >((start_laws::host_id(), end)),
        0 <= i < s.clients.len(),
    ensures
        hearing::hears(
            s,
            s.heard(from, payload, clock).0,
            s.clients[i].addr,
            if s.clients[i].addr == from {
                seq![
                    client::ordered(
                        messages::visit_garage_response_bytes(
                            start_laws::host_id(),
                            s.host.garage,
                            s.host.prefix,
                            s.host.scene,
                        ),
                    ),
                ]
            } else if s.clients[i].garage is Some {
                visit_heard(s.client(from).id, start_laws::host_id())
            } else {
                Seq::empty()
            },
            clock,
        ),
{
    let addr = s.clients[i].addr;
    let none = Seq::<MessageView>::empty();
    let reply = seq![
        client::ordered(
            messages::visit_garage_response_bytes(
                start_laws::host_id(),
                s.host.garage,
                s.host.prefix,
                s.host.scene,
            ),
        ),
    ];
    let shown = visit_heard(s.client(from).id, start_laws::host_id());
    let told = s.told(Audience::One(from), reply, clock);
    let after = told.told(Audience::LobbyBut(from), shown, clock);
    hearing::lemma_key_finds(s.clients, i);
    hearing::lemma_hears_told(s, Audience::One(from), reply, addr, clock);
    let first = if addr == from {
        reply
    } else {
        none
    };
    let second = if addr != from && s.clients[i].garage is Some {
        shown
    } else {
        none
    };
    hearing::lemma_heard(s, told, addr, first, clock);
    state::lemma_told_keeps(s, Audience::One(from), reply, clock);
    assert(told.clients[i] == ClientView { out: told.clients[i].out, ..s.clients[i] });
    hearing::lemma_hears_told(told, Audience::LobbyBut(from), shown, addr, clock);
    hearing::lemma_hears_twice(s, told, after, addr, first, second, clock);
    assert(first + second =~= if addr == from {
        reply
    } else {
        second
    });
    assert(s.heard(from, payload, clock).0 == after);
}

/// A visit to a player's garage is passed on to that player alone, who remembers
/// the visitor; everyone in the lobby but the visitor hears where it is. A visit
/// to nobody changes nothing.
#[verifier::rlimit(30)]
pub proof fn law_visit_to_a_player_is_passed_on(
    s: ServerView,
    from: u64,
    payload: Seq<u8>,
    owner: int,
    end: int,
    i: int,
    clock: Clock,
)
    requires
        s.wf(),
        s.knows(from),
        0 <= owner < s.clients.len(),
        s.clients[owner].id != start_laws::host_id(),
        forall|k: int| 0 <= k < owner ==> (#[trigger] s.clients[k]).id != s.clients[owner].id,
        event::event_of(payload) == Ok::<Event, Error>(Event::RequestVisitGarage),
        messages::read_id_event(payload, Event::RequestVisitGarage, "RequestVisitGarage") == Ok::<
            (PlayerId, int),
            Error,
        >((s.clients[owner].id, end)),
        0 <= i < s.clients.len(),
    ensures
        ({
            let after = s.heard(from, payload, clock).0;
            &&& after.clients.len() == s.clients.len()
            &&& forall|k: int|
                0 <= k < s.clients.len() ==> (#[trigger] after.clients[k]).visitors == if k
                    == owner {
                    s.clients[k].visitors.push(from)
                } else {
                    s.clients[k].visitors
                }
            &&& hearing::hears(
                s,
                after,
                s.clients[i].addr,
                (if i == owner {
                    seq![client::ordered(payload)]
                } else {
                    Seq::empty()
                }) + (if s.clients[i].garage is Some && s.clients[i].addr != from {
                    visit_heard(s.client(from).id, s.clients[owner].id)
                } else {
                    Seq::empty()
                }),
                clock,
            )
        }),
{
    let addr = s.clients[i].addr;
    let none = Seq::<MessageView>::empty();
    let o = s.clients[owner];
    lemma_seat_of_player(s.clients, o.id, owner);
    hearing::lemma_key_finds(s.clients, i);
    hearing::lemma_key_finds(s.clients, owner);
    let set = s.with_client(owner, ClientView { visitors: o.visitors.push(from), ..o });
    let request = seq![client::ordered(payload)];
    let shown = visit_heard(s.client(from).id, o.id);
    let told = set.told(Audience::One(o.addr), request, clock);
    let after = told.told(Audience::LobbyBut(from), shown, clock);
    assert(s.heard(from, payload, clock).0 == after);
    hearing::lemma_hears_nothing(s, set, addr, clock);
    hearing::lemma_heard(s, set, addr, none, clock);
    hearing::lemma_hears_told(set, Audience::One(o.addr), request, addr, clock);
    assert(set.client(addr).addr == addr && set.client(addr).garage == s.clients[i].garage);
    assert(i != owner ==> addr != o.addr);
    let first = if i == owner {
        request
    } else {
        none
    };
    let second = if s.clients[i].garage is Some && addr != from {
        shown
    } else {
        none
    };
    hearing::lemma_heard(set, told, addr, first, clock);
    state::lemma_told_keeps(set, Audience::One(o.addr), request, clock);
    state::lemma_told_keeps(told, Audience::LobbyBut(from), shown, clock);
    assert(told.clients[i] == ClientView { out: told.clients[i].out, ..set.clients[i] });
    hearing::lemma_hears_told(told, Audience::LobbyBut(from), shown, addr, clock);
    hearing::lemma_hears_twice(s, set, told, addr, none, first, clock);
    assert(none + first =~= first);
    hearing::lemma_hears_twice(s, told, after, addr, first, second, clock);
    assert forall|k: int| 0 <= k < s.clients.len() implies (#[trigger] after.clients[k]).visitors
        == if k == owner {
        s.clients[k].visitors.push(from)
    } else {
        s.clients[k].visitors
    } by {
        assert(told.clients[k] == ClientView { out: told.clients[k].out, ..set.clients[k] });
        assert(after.clients[k] == ClientView { out: after.clients[k].out, ..told.clients[k] });
    }
}

/// The first client with an id is the one found by it.
proof fn lemma_seat_of_player(clients: Seq<ClientView>, id: PlayerId, i: int)
    requires
        0 <= i < clients.len(),
        clients[i].id == id,
        forall|k: int| 0 <= k < i ==> (#[trigger] clients[k]).id != id,
    ensures
        state::seat_of_player(clients, id) == i,
    decreases clients.len(),
{
    if i > 0 {
        let rest = clients.skip(1);
        assert(clients[0].id != id);
        assert(forall|k: int| 0 <= k < rest.len() ==> rest[k] == clients[k + 1]);
        assert forall|k: int| 0 <= k < i - 1 implies (#[trigger] rest[k]).id != id by {
            assert(clients[k + 1].id != id);
        }
        lemma_seat_of_player(rest, id, i - 1);
    }
}

/// How often `addr` occurs in `visitors`.
pub open spec fn times(visitors: Seq<u64>, addr: u64) -> nat
    decreases visitors.len(),
{
    if visitors.len() == 0 {
        0
    } else {
        times(visitors.drop_last(), addr) + if visitors[visitors.len() - 1] == addr {
            1nat
        } else {
            0nat
        }
    }
}

proof fn lemma_forwarded(
    s: ServerView,
    visitors: Seq<u64>,
    payload: Seq<u8>,
    addr: u64,
    clock: Clock,
)
    requires
        race_laws::distinct(s.clients),
        s.knows(addr),
    ensures
        hearing::hears(
            s,
            s.forwarded(visitors, payload, clock),
            addr,
            Seq::new(times(visitors, addr), |k: int| client::ordered(payload)),
            clock,
        ),
    decreases visitors.len(),
{
    let all = Seq::new(times(visitors, addr), |k: int| client::ordered(payload));
    if visitors.len() == 0 {
        hearing::lemma_hears_nothing(s, s, addr, clock);
        assert(all =~= Seq::empty());
    } else {
        let init = visitors.drop_last();
        let before = s.forwarded(init, payload, clock);
        let one = seq![client::ordered(payload)];
        lemma_forwarded(s, init, payload, addr, clock);
        let heard = Seq::new(times(init, addr), |k: int| client::ordered(payload));
        hearing::lemma_heard(s, before, addr, heard, clock);
        state::lemma_seat_of(before.clients, addr);
        hearing::lemma_hears_told(before, Audience::One(visitors.last()), one, addr, clock);
        let more = if visitors.last() == addr {
            one
        } else {
            Seq::empty()
        };
        hearing::lemma_hears_twice(
            s,
            before,
            s.forwarded(visitors, payload, clock),
            addr,
            heard,
            more,
            clock,
        );
        assert(heard + more =~= all);
    }
}

/// A garage that is shown goes to each client that asked for it, once for each
/// time it asked, and to nobody else.
pub proof fn law_visit_answer_is_heard(
    s: ServerView,
    from: u64,
    payload: Seq<u8>,
    i: int,
    clock: Clock,
)
    requires
        s.wf(),
        s.knows(from),
        event::event_of(payload) == Ok::<Event, Error>(Event::VisitGarageResponse),
        0 <= i < s.clients.len(),
    ensures
        hearing::hears(
            s,
            s.heard(from, payload, clock).0,
            s.clients[i].addr,
            Seq::new(
                times(s.client(from).visitors, s.clients[i].addr),
                |k: int| client::ordered(payload),
            ),
            clock,
        ),
{
    let addr = s.clients[i].addr;
    let c = s.client(from);
    let none = Seq::<MessageView>::empty();
    hearing::lemma_key_finds(s.clients, i);
    state::lemma_seat_of(s.clients, from);
    let set = s.with_client(s.seat(from), ClientView { visitors: Seq::empty(), ..c });
    hearing::lemma_hears_nothing(s, set, addr, clock);
    hearing::lemma_heard(s, set, addr, none, clock);
    lemma_forwarded(set, c.visitors, payload, addr, clock);
    let heard = Seq::new(times(c.visitors, addr), |k: int| client::ordered(payload));
    hearing::lemma_hears_twice(
        s,
        set,
        set.forwarded(c.visitors, payload, clock),
        addr,
        none,
        heard,
        clock,
    );
    assert(none + heard =~= heard);
}

} // verus!
