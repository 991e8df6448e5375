//! What the start of a race and a change of track look like to the clients.

use vstd::prelude::*;

use crate::error::Error;
use crate::event;
use crate::event::Event;
use crate::messages;
use crate::messages::{Pose, RaceSettings};
use crate::player::PlayerId;
use crate::server::chat;
use crate::server::client;
use crate::server::client::{ClientView, Clock, MessageView};
use crate::server::hearing;
use crate::server::race;
use crate::server::state;
use crate::server::state::{Audience, ServerView};
use crate::text;
use crate::track;

verus! {

// ---------------------------------------------------------------------------
// Counting
// ---------------------------------------------------------------------------

/// How many of `clients` pass `p`.
pub open spec fn count(clients: Seq<ClientView>, p: spec_fn(ClientView) -> bool) -> nat
    decreases clients.len(),
{
    if clients.len() == 0 {
        0
    } else {
        count(clients.drop_last(), p) + if p(clients[clients.len() - 1]) {
            1nat
        } else {
            0nat
        }
    }
}

/// How many clients are in the lobby.
pub open spec fn joined(s: ServerView) -> nat {
    count(s.clients, |c: ClientView| c.garage is Some)
}

/// Counting is filtering.
pub proof fn lemma_count(clients: Seq<ClientView>, p: spec_fn(ClientView) -> bool)
    ensures
        count(clients, p) == clients.filter(p).len(),
        count(clients, p) <= clients.len(),
    decreases clients.len(),
{
    reveal(Seq::filter);
    if clients.len() > 0 {
        lemma_count(clients.drop_last(), p);
    }
}

/// The same clients, as far as `p` goes, count the same.
pub proof fn lemma_same_count(
    a: Seq<ClientView>,
    b: Seq<ClientView>,
    p: spec_fn(ClientView) -> bool,
    q: spec_fn(ClientView) -> bool,
)
    requires
        a.len() == b.len(),
        forall|i: int| 0 <= i < a.len() ==> p(#[trigger] a[i]) == q(b[i]),
    ensures
        count(a, p) == count(b, q),
    decreases a.len(),
{
    if a.len() > 0 {
        let x = a.drop_last();
        let y = b.drop_last();
        assert forall|i: int| 0 <= i < x.len() implies p(#[trigger] x[i]) == q(y[i]) by {
            assert(p(a[i]) == q(b[i]));
        }
        lemma_same_count(x, y, p, q);
        assert(p(a[a.len() - 1]) == q(b[b.len() - 1]));
    }
}

/// The lobby is as large as it counts.
pub proof fn lemma_lobby_size(s: ServerView)
    ensures
        s.size(Audience::Lobby) == joined(s),
{
    let p = |c: ClientView| c.garage is Some;
    let q = |c: ClientView| Audience::Lobby.has(c);
    lemma_count(s.clients, q);
    lemma_same_count(s.clients, s.clients, p, q);
}

// ---------------------------------------------------------------------------
// The grid
// ---------------------------------------------------------------------------

/// Client `i` starts before client `j`: it has the lower id, or came first with
/// the same.
pub open spec fn starts_before(clients: Seq<ClientView>, i: int, j: int) -> bool {
    ||| clients[i].id.client_id < clients[j].id.client_id
    ||| clients[i].id.client_id == clients[j].id.client_id && i < j
}

/// `order` is the grid: everyone in the lobby, nobody else, and in the order of
/// the client ids.
pub open spec fn is_grid(clients: Seq<ClientView>, order: Seq<int>) -> bool {
    &&& forall|k: int|
        0 <= k < order.len() ==> 0 <= #[trigger] order[k] < clients.len()
            && clients[order[k]].garage is Some
    &&& forall|i: int|
        0 <= i < clients.len() && (#[trigger] clients[i]).garage is Some ==> order.contains(i)
    &&& forall|j: int, k: int|
        0 <= j < k < order.len() ==> starts_before(
            clients,
            #[trigger] order[j],
            #[trigger] order[k],
        )
}

/// Where a car is put in a line that is in order.
proof fn lemma_place_in_line(line: Seq<ClientView>, c: ClientView) -> (at: int)
    requires
        forall|i: int, j: int|
            0 <= i < j < line.len() ==> (#[trigger] line[i]).id.client_id <= (
            #[trigger] line[j]).id.client_id,
    ensures
        0 <= at <= line.len(),
        forall|j: int| 0 <= j < at ==> (#[trigger] line[j]).id.client_id <= c.id.client_id,
        forall|j: int| at <= j < line.len() ==> (#[trigger] line[j]).id.client_id > c.id.client_id,
        race::lined_up_with(line, c) == line.insert(at, c),
    decreases line.len(),
{
    if line.len() == 0 || line.last().id.client_id <= c.id.client_id {
        let n = line.len() as int;
        assert forall|j: int| 0 <= j < n implies (#[trigger] line[j]).id.client_id
            <= c.id.client_id by {
            if j < n - 1 {
                assert(line[j].id.client_id <= line[n - 1].id.client_id);
            }
        }
        assert(line.insert(n, c) =~= line.push(c));
        n
    } else {
        let init = line.drop_last();
        assert(forall|j: int| 0 <= j < init.len() ==> init[j] == line[j]);
        assert forall|i: int, j: int| 0 <= i < j < init.len() implies (
        #[trigger] init[i]).id.client_id <= (#[trigger] init[j]).id.client_id by {
            assert(line[i].id.client_id <= line[j].id.client_id);
        }
        let at = lemma_place_in_line(init, c);
        assert(line.insert(at, c) =~= init.insert(at, c).push(line.last()));
        assert forall|j: int| at <= j < line.len() implies (#[trigger] line[j]).id.client_id
            > c.id.client_id by {
            if j < init.len() {
                assert(init[j].id.client_id > c.id.client_id);
            }
        }
        assert forall|j: int| 0 <= j < at implies (#[trigger] line[j]).id.client_id
            <= c.id.client_id by {
            assert(init[j].id.client_id <= c.id.client_id);
        }
        at
    }
}

/// The line-up is the grid.
#[verifier::rlimit(30)]
pub proof fn lemma_grid(clients: Seq<ClientView>) -> (order: Seq<int>)
    ensures
        is_grid(clients, order),
        order.len() == count(clients, |c: ClientView| c.garage is Some),
        race::line_up(clients).len() == order.len(),
        forall|k: int|
            0 <= k < order.len() ==> race::line_up(clients)[k] == clients[#[trigger] order[k]],
    decreases clients.len(),
{
    if clients.len() == 0 {
        Seq::empty()
    } else {
        let n = clients.len() - 1;
        let init = clients.drop_last();
        let c = clients.last();
        let before = lemma_grid(init);
        let line = race::line_up(init);
        assert(forall|i: int| 0 <= i < n ==> init[i] == clients[i]);
        assert forall|j: int, k: int| 0 <= j < k < before.len() implies starts_before(
            clients,
            #[trigger] before[j],
            #[trigger] before[k],
        ) by {
            assert(starts_before(init, before[j], before[k]));
        }
        if c.garage is Some {
            assert forall|i: int, j: int| 0 <= i < j < line.len() implies (
            #[trigger] line[i]).id.client_id <= (#[trigger] line[j]).id.client_id by {
                assert(starts_before(init, before[i], before[j]));
                assert(line[i] == init[before[i]]);
                assert(line[j] == init[before[j]]);
            }
            let at = lemma_place_in_line(line, c);
            let order = before.insert(at, n);
            let grown = race::line_up(clients);
            assert forall|k: int| 0 <= k < order.len() implies 0 <= #[trigger] order[k]
                < clients.len() && clients[order[k]].garage is Some && grown[k]
                == clients[order[k]] by {
                if k < at {
                    assert(order[k] == before[k]);
                    assert(grown[k] == line[k]);
                } else if k > at {
                    assert(order[k] == before[k - 1]);
                    assert(grown[k] == line[k - 1]);
                }
            }
            assert forall|i: int|
                0 <= i < clients.len() && (
                #[trigger] clients[i]).garage is Some implies order.contains(i) by {
                if i < n {
                    assert(init[i].garage is Some);
                    assert(before.contains(i));
                    let k = choose|k: int| 0 <= k < before.len() && before[k] == i;
                    if k < at {
                        assert(order[k] == i);
                    } else {
                        assert(order[k + 1] == i);
                    }
                } else {
                    assert(order[at] == i);
                }
            }
            assert forall|j: int, k: int| 0 <= j < k < order.len() implies starts_before(
                clients,
                #[trigger] order[j],
                #[trigger] order[k],
            ) by {
                let x = if j < at {
                    j
                } else {
                    j - 1
                };
                let y = if k < at {
                    k
                } else {
                    k - 1
                };
                if j != at && k != at {
                    assert(order[j] == before[x]);
                    assert(order[k] == before[y]);
                    assert(starts_before(clients, before[x], before[y]));
                } else if k == at {
                    assert(order[j] == before[j]);
                    assert(line[j].id.client_id <= c.id.client_id);
                    assert(line[j] == init[before[j]]);
                } else {
                    assert(order[k] == before[k - 1]);
                    assert(line[k - 1].id.client_id > c.id.client_id);
                    assert(line[k - 1] == init[before[k - 1]]);
                }
            }
            order
        } else {
            assert forall|i: int|
                0 <= i < clients.len() && (
                #[trigger] clients[i]).garage is Some implies before.contains(i) by {
                assert(init[i].garage is Some);
            }
            before
        }
    }
}

// ---------------------------------------------------------------------------
// The start
// ---------------------------------------------------------------------------

/// The host's slot.
pub open spec fn host_id() -> PlayerId {
    PlayerId { client_id: 0xffff_ffff, player_index: 1 }
}

/// Where the phantom host parks with `n` cars on the grid: on the shoulder, or
/// on the next slot of the grid where the track has none.
pub open spec fn parked(t: track::TrackView, n: nat) -> Pose {
    match t.parking {
        Some((places, poses)) => if (n as int) % (places as int) < poses.len() {
            poses[(n as int) % (places as int)]
        } else {
            t.spawns[(n as int) % (t.spawns.len() as int)]
        },
        None => t.spawns[(n as int) % (t.spawns.len() as int)],
    }
}

/// `msgs` start a race on the track the lobby is on: the host is ready, the race
/// with that track's name, variant and laps, the phantom's car, and one car for
/// everyone in the lobby, each on its own slot of that track's grid.
pub open spec fn opens_race(s: ServerView, msgs: Seq<MessageView>) -> bool {
    let t = s.maps[s.map_index];
    let n = joined(s);
    &&& msgs.len() == 3 + n
    &&& msgs[0] == client::ordered(messages::ready_broadcast_bytes(host_id(), true))
    &&& msgs[1] == client::ordered(
        messages::start_race_bytes(
            t.name,
            t.variant,
            RaceSettings {
                laps: match t.laps {
                    Some(laps) => laps,
                    None => s.settings.laps,
                },
                night: s.settings.night,
                rain: s.settings.rain,
            },
        ),
    )
    &&& msgs[2] == client::ordered(
        messages::spawn_car_bytes(host_id(), 0x540, s.host.garage, parked(t, n)@),
    )
    &&& exists|order: Seq<int>| #[trigger]
        is_grid(s.clients, order) && order.len() == n && forall|k: int|
            0 <= k < n ==> msgs[3 + k] == client::ordered(
                messages::spawn_car_bytes(
                    s.clients[#[trigger] order[k]].id,
                    ((0x1000 + s.clients[order[k]].id.client_id) % 0x1_0000_0000) as u32,
                    s.clients[order[k]].garage->Some_0,
                    t.spawns[k % (t.spawns.len() as int)]@,
                ),
            )
}

/// What the start of a race says.
proof fn lemma_opens_race(s: ServerView)
    requires
        s.wf(),
    ensures
        opens_race(s, s.start_messages()),
{
    let t = s.maps[s.map_index];
    let n = joined(s);
    let msgs = s.start_messages();
    let line = race::line_up(s.clients);
    let order = lemma_grid(s.clients);
    lemma_lobby_size(s);
    assert(t.wf());
    assert(s.host_pose() == parked(t, n));
    assert forall|k: int| 0 <= k < n implies msgs[3 + k] == client::ordered(
        messages::spawn_car_bytes(
            s.clients[#[trigger] order[k]].id,
            ((0x1000 + s.clients[order[k]].id.client_id) % 0x1_0000_0000) as u32,
            s.clients[order[k]].garage->Some_0,
            t.spawns[k % (t.spawns.len() as int)]@,
        ),
    ) by {
        assert(line[k] == s.clients[order[k]]);
    }
}

/// What opens a race depends on the track and on who is in the lobby with which
/// garage.
proof fn lemma_same_opening(a: ServerView, b: ServerView, msgs: Seq<MessageView>)
    requires
        opens_race(a, msgs),
        a.maps == b.maps,
        a.map_index == b.map_index,
        a.settings == b.settings,
        a.host == b.host,
        a.clients.len() == b.clients.len(),
        forall|i: int|
            0 <= i < a.clients.len() ==> (#[trigger] a.clients[i]).id == b.clients[i].id
                && a.clients[i].garage == b.clients[i].garage,
    ensures
        opens_race(b, msgs),
{
    let p = |c: ClientView| c.garage is Some;
    lemma_same_count(a.clients, b.clients, p, p);
    let t = a.maps[a.map_index];
    let n = joined(a);
    let order = choose|order: Seq<int>| #[trigger]
        is_grid(a.clients, order) && order.len() == n && forall|k: int|
            0 <= k < n ==> msgs[3 + k] == client::ordered(
                messages::spawn_car_bytes(
                    a.clients[#[trigger] order[k]].id,
                    ((0x1000 + a.clients[order[k]].id.client_id) % 0x1_0000_0000) as u32,
                    a.clients[order[k]].garage->Some_0,
                    t.spawns[k % (t.spawns.len() as int)]@,
                ),
            );
    assert(is_grid(b.clients, order)) by {
        assert forall|k: int| 0 <= k < order.len() implies 0 <= #[trigger] order[k]
            < b.clients.len() && b.clients[order[k]].garage is Some by {
            assert(a.clients[order[k]].garage is Some);
        }
        assert forall|i: int|
            0 <= i < b.clients.len() && (
            #[trigger] b.clients[i]).garage is Some implies order.contains(i) by {
            assert(a.clients[i].garage is Some);
        }
        assert forall|j: int, k: int| 0 <= j < k < order.len() implies starts_before(
            b.clients,
            #[trigger] order[j],
            #[trigger] order[k],
        ) by {
            assert(starts_before(a.clients, order[j], order[k]));
            assert(a.clients[order[j]].id == b.clients[order[j]].id);
            assert(a.clients[order[k]].id == b.clients[order[k]].id);
        }
    }
    assert forall|k: int| 0 <= k < n implies msgs[3 + k] == client::ordered(
        messages::spawn_car_bytes(
            b.clients[#[trigger] order[k]].id,
            ((0x1000 + b.clients[order[k]].id.client_id) % 0x1_0000_0000) as u32,
            b.clients[order[k]].garage->Some_0,
            t.spawns[k % (t.spawns.len() as int)]@,
        ),
    ) by {
        assert(a.clients[order[k]].id == b.clients[order[k]].id);
    }
}

/// When a race starts, everyone in the lobby hears the same opening, on the
/// track the lobby is on, and nobody else hears anything.
pub proof fn law_race_start_is_heard(s: ServerView, i: int, clock: Clock)
    requires
        s.wf(),
        0 <= i < s.clients.len(),
    ensures
        exists|msgs: Seq<MessageView>| #[trigger]
            opens_race(s, msgs) && hearing::hears(
                s,
                s.race_started(clock),
                s.clients[i].addr,
                if s.clients[i].garage is Some {
                    msgs
                } else {
                    Seq::empty()
                },
                clock,
            ),
{
    let addr = s.clients[i].addr;
    let msgs = s.start_messages();
    let heard = if s.clients[i].garage is Some {
        msgs
    } else {
        Seq::empty()
    };
    lemma_opens_race(s);
    hearing::lemma_key_finds(s.clients, i);
    hearing::lemma_hears_told(s, Audience::Lobby, msgs, addr, clock);
    let told = s.told(Audience::Lobby, msgs, clock);
    hearing::lemma_heard(s, told, addr, heard, clock);
    let after = s.race_started(clock);
    assert(after.clients == told.flags_reset(true).clients);
    hearing::lemma_hears_nothing(told, after, addr, clock);
    hearing::lemma_hears_twice(s, told, after, addr, heard, Seq::empty(), clock);
    assert(heard + Seq::empty() =~= heard);
}

/// The Ready after which everyone in the lobby is ready starts a race there and
/// then: the others hear of that Ready, and everyone in the lobby hears the opening, on the track
/// the lobby is on.
#[verifier::rlimit(30)]
pub proof fn law_last_ready_opens_the_race(
    s: ServerView,
    from: u64,
    payload: Seq<u8>,
    ready: bool,
    end: int,
    i: int,
    clock: Clock,
)
    requires
        s.wf(),
        s.knows(from),
        !s.racing,
        event::event_of(payload) == Ok::<Event, Error>(Event::Ready),
        messages::read_ready(payload) == Ok::<(bool, int), Error>((ready, end)),
        s.client(from).garage is Some ==> ready,
        forall|j: int|
            0 <= j < s.clients.len() && (#[trigger] s.clients[j]).garage is Some
                && s.clients[j].addr != from ==> s.clients[j].ready,
        0 <= i < s.clients.len(),
        s.clients[i].garage is Some,
    ensures
        exists|msgs: Seq<MessageView>| #[trigger]
            opens_race(s, msgs) && hearing::hears(
                s,
                s.heard(from, payload, clock).0,
                s.clients[i].addr,
                (if s.clients[i].addr == from {
                    Seq::empty()
                } else {
                    seq![
                        client::ordered(
                            messages::ready_broadcast_bytes(s.client(from).id, ready),
                        ),
                    ]
                }) + msgs,
                clock,
            ),
        s.heard(from, payload, clock).0.racing,
{
    let addr = s.clients[i].addr;
    let seat = s.seat(from);
    let c = s.client(from);
    state::lemma_seat_of(s.clients, from);
    hearing::lemma_key_finds(s.clients, i);
    let set = s.with_client(seat, ClientView { ready, ..c });
    let news = seq![client::ordered(messages::ready_broadcast_bytes(c.id, ready))];
    let marked = set.told(Audience::LobbyBut(from), news, clock);
    hearing::lemma_hears_nothing(s, set, addr, clock);
    hearing::lemma_heard(s, set, addr, Seq::empty(), clock);
    hearing::lemma_hears_told(set, Audience::LobbyBut(from), news, addr, clock);
    let first = if addr == from {
        Seq::empty()
    } else {
        news
    };
    assert(set.client(addr).garage is Some);
    assert(set.client(addr).addr == addr);
    hearing::lemma_hears_twice(s, set, marked, addr, Seq::empty(), first, clock);
    assert(Seq::<MessageView>::empty() + first =~= first);
    state::lemma_told_keeps(set, Audience::LobbyBut(from), news, clock);
    assert forall|j: int| 0 <= j < marked.clients.len() implies {
        let m = #[trigger] marked.clients[j];
        &&& m.id == s.clients[j].id && m.garage == s.clients[j].garage && m.addr
            == s.clients[j].addr
        &&& m.ready == if j == seat {
            ready
        } else {
            s.clients[j].ready
        }
    } by {
        assert(marked.clients[j] == ClientView { out: marked.clients[j].out, ..set.clients[j] });
    }
    assert(marked.everyone_ready()) by {
        assert(marked.clients[i].in_lobby());
        assert forall|j: int|
            0 <= j < marked.clients.len() && (
            #[trigger] marked.clients[j]).in_lobby() implies marked.clients[j].ready by {
            if j != seat {
                if s.clients[j].addr == from {
                    hearing::lemma_key_finds(s.clients, j);
                }
                assert(s.clients[j].garage is Some);
            }
        }
    }
    assert(marked.wf());
    law_race_start_is_heard(marked, i, clock);
    let msgs = choose|msgs: Seq<MessageView>| #[trigger]
        opens_race(marked, msgs) && hearing::hears(
            marked,
            marked.race_started(clock),
            marked.clients[i].addr,
            if marked.clients[i].garage is Some {
                msgs
            } else {
                Seq::empty()
            },
            clock,
        );
    lemma_same_opening(marked, s, msgs);
    hearing::lemma_hears_twice(
        s,
        marked,
        marked.race_started(clock),
        addr,
        first,
        msgs,
        clock,
    );
    assert(opens_race(s, msgs));
}

// ---------------------------------------------------------------------------
// A change of track
// ---------------------------------------------------------------------------

/// `name | Variant (N laps)` of rotation entry `j`.
pub open spec fn described(s: ServerView, j: int) -> Seq<char> {
    let t = s.maps[j];
    let laps = match t.laps {
        Some(laps) => laps,
        None => s.settings.laps,
    };
    t.name + " | "@ + track::variant_text(t.variant) + " ("@ + text::decimal(laps as nat)
        + " lap"@ + (if laps == 1 {
        ""@
    } else {
        "s"@
    }) + ")"@
}

/// What the lobby hears when it moves to rotation entry `j`.
pub open spec fn move_heard(s: ServerView, j: int) -> Seq<MessageView> {
    seq![
        client::ordered(messages::lobby_change_map_bytes(s.maps[j].name, s.maps[j].variant)),
        client::ordered(
            chat::system_line("Next race: "@ + described(s, j) + ". !vote picks another."@),
        ),
    ]
}

/// A move to rotation entry `j` is announced to everyone in the lobby with that
/// entry's track, and to nobody else; the next race opens on that very track.
pub proof fn law_move_is_heard_and_raced(s: ServerView, j: int, i: int, clock: Clock)
    requires
        s.wf(),
        0 <= j < s.maps.len(),
        0 <= i < s.clients.len(),
    ensures
        ({
            let after = s.moved_to(j, clock);
            let t = s.maps[j];
            &&& after.map_index == j
            &&& hearing::hears(
                s,
                after,
                s.clients[i].addr,
                if s.clients[i].garage is Some {
                    move_heard(s, j)
                } else {
                    Seq::empty()
                },
                clock,
            )
            &&& forall|msgs: Seq<MessageView>| #[trigger]
                opens_race(after, msgs) ==> msgs[1] == client::ordered(
                    messages::start_race_bytes(
                        t.name,
                        t.variant,
                        RaceSettings {
                            laps: match t.laps {
                                Some(laps) => laps,
                                None => s.settings.laps,
                            },
                            ..s.settings
                        },
                    ),
                )
        }),
{
    let addr = s.clients[i].addr;
    let in_lobby = s.clients[i].garage is Some;
    let t = s.maps[j];
    let on = ServerView { map_index: j, ..s };
    let change = seq![client::ordered(messages::lobby_change_map_bytes(t.name, t.variant))];
    let told = on.told(Audience::Lobby, change, clock);
    let moved = told.votes_cleared();
    let line = "Next race: "@ + moved.describe(j) + ". !vote picks another."@;
    let after = s.moved_to(j, clock);
    hearing::lemma_key_finds(s.clients, i);
    hearing::lemma_hears_nothing(s, on, addr, clock);
    hearing::lemma_hears_told(on, Audience::Lobby, change, addr, clock);
    let first = if in_lobby {
        change
    } else {
        Seq::empty()
    };
    hearing::lemma_heard(on, told, addr, first, clock);
    hearing::lemma_hears_nothing(told, moved, addr, clock);
    hearing::lemma_heard(told, moved, addr, Seq::empty(), clock);
    state::lemma_told_keeps(on, Audience::Lobby, change, clock);
    assert(told.clients[i] == ClientView { out: told.clients[i].out, ..s.clients[i] });
    assert(moved.client(addr).garage == s.clients[i].garage);
    hearing::lemma_hears_said_all(moved, line, addr, clock);
    let second = if in_lobby {
        seq![client::ordered(chat::system_line(line))]
    } else {
        Seq::empty()
    };
    hearing::lemma_hears_twice(s, on, told, addr, Seq::empty(), first, clock);
    assert(Seq::<MessageView>::empty() + first =~= first);
    hearing::lemma_hears_twice(s, told, moved, addr, first, Seq::empty(), clock);
    assert(first + Seq::<MessageView>::empty() =~= first);
    hearing::lemma_hears_twice(s, moved, after, addr, first, second, clock);
    assert(moved.describe(j) =~= described(s, j));
    if in_lobby {
        assert(first + second =~= move_heard(s, j));
    } else {
        assert(first + second =~= Seq::empty());
    }
}

} // verus!
