//! What votes, the rotation and the chat commands come to.

use vstd::prelude::*;

use crate::error::Error;
use crate::event;
use crate::event::Event;
use crate::messages;
use crate::server::chat;
use crate::server::client;
use crate::server::client::{ClientView, Clock, MessageView};
use crate::server::hearing;
use crate::server::race_laws;
use crate::server::start_laws;
use crate::server::state;
use crate::server::state::{Audience, ServerView};
use crate::server::votes;
use crate::text;
use crate::track;

verus! {

// ---------------------------------------------------------------------------
// Counting votes
// ---------------------------------------------------------------------------

/// How many in the lobby want rotation entry `j` next.
pub open spec fn wanted(s: ServerView, j: int) -> nat {
    start_laws::count(s.clients, |c: ClientView| c.garage is Some && c.vote == Some(j as usize))
}

/// How many in the lobby want rotation entry `j` once `from` does.
pub open spec fn wanted_with(s: ServerView, from: u64, j: int) -> nat {
    start_laws::count(
        s.clients,
        |c: ClientView| c.garage is Some && (c.addr == from || c.vote == Some(j as usize)),
    )
}

/// Entry `j` has the most votes; of those that tie it is the earliest.
pub open spec fn most_wanted(s: ServerView, j: int) -> bool {
    &&& 0 <= j < s.maps.len()
    &&& wanted(s, j) > 0
    &&& forall|k: int| 0 <= k < s.maps.len() ==> #[trigger] wanted(s, k) <= wanted(s, j)
    &&& forall|k: int| 0 <= k < j ==> #[trigger] wanted(s, k) < wanted(s, j)
}

/// Entry `j` is raced next: the one the lobby is on, or while a race runs the
/// most wanted one, or the one behind the current where nobody voted.
pub open spec fn comes_next(s: ServerView, j: int) -> bool {
    if !s.racing {
        j == s.map_index
    } else if forall|k: int| 0 <= k < s.maps.len() ==> #[trigger] wanted(s, k) == 0 {
        j == if s.map_index + 1 == s.maps.len() {
            0
        } else {
            s.map_index + 1
        }
    } else {
        most_wanted(s, j)
    }
}

/// `name | Variant` of rotation entry `j`.
pub open spec fn labelled(s: ServerView, j: int) -> Seq<char> {
    s.maps[j].name + " | "@ + track::variant_text(s.maps[j].variant)
}

proof fn lemma_wanted(s: ServerView, j: int)
    requires
        0 <= j <= usize::MAX,
    ensures
        s.votes_for(j) == wanted(s, j),
{
    let p = |c: ClientView| c.wants(j);
    let q = |c: ClientView| c.garage is Some && c.vote == Some(j as usize);
    start_laws::lemma_count(s.clients, p);
    start_laws::lemma_same_count(s.clients, s.clients, q, p);
}

/// The leader is the most wanted; there is none where nobody voted.
proof fn lemma_leader(s: ServerView)
    requires
        s.maps.len() <= usize::MAX,
    ensures
        match s.leader() {
            Some(j) => most_wanted(s, j),
            None => forall|k: int| 0 <= k < s.maps.len() ==> #[trigger] wanted(s, k) == 0,
        },
{
    race_laws::law_leader_is_the_first_of_the_most_voted(s);
    assert forall|k: int| 0 <= k < s.maps.len() implies #[trigger] wanted(s, k) == s.votes_for(
        k,
    ) by {
        lemma_wanted(s, k);
    }
    if let Some(j) = s.leader() {
        assert forall|k: int| 0 <= k < s.maps.len() implies #[trigger] wanted(s, k) <= wanted(
            s,
            j,
        ) by {
            assert(s.votes_for(k) <= s.votes_for(j));
        }
        assert forall|k: int| 0 <= k < j implies #[trigger] wanted(s, k) < wanted(s, j) by {
            assert(s.votes_for(k) < s.votes_for(j));
        }
    } else {
        assert forall|k: int| 0 <= k < s.maps.len() implies #[trigger] wanted(s, k) == 0 by {
            assert(s.votes_for(k) == 0);
        }
    }
}

/// At most one entry is the most wanted.
proof fn lemma_one_most_wanted(s: ServerView, i: int, j: int)
    requires
        most_wanted(s, i),
        most_wanted(s, j),
    ensures
        i == j,
{
    if i < j {
        assert(wanted(s, i) < wanted(s, j));
    } else if j < i {
        assert(wanted(s, j) < wanted(s, i));
    }
}

/// What is shown as the upcoming race is what comes next.
pub proof fn law_upcoming_comes_next(s: ServerView)
    requires
        s.wf(),
    ensures
        comes_next(s, s.upcoming()),
{
    lemma_leader(s);
    if s.racing {
        if let Some(j) = s.leader() {
            assert(wanted(s, j) > 0);
        } else if s.map_index + 1 == s.maps.len() {
            assert((s.map_index + 1) % s.maps.len() as int == 0) by (nonlinear_arith)
                requires
                    s.map_index + 1 == s.maps.len(),
                    s.maps.len() > 0,
            ;
        } else {
            assert((s.map_index + 1) % s.maps.len() as int == s.map_index + 1)
                by (nonlinear_arith)
                requires
                    0 <= s.map_index + 1 < s.maps.len(),
            ;
        }
    }
}

// ---------------------------------------------------------------------------
// Casting a vote
// ---------------------------------------------------------------------------

/// What the lobby hears of a vote of `from` for rotation entry `j`: who voted
/// for what, how many want it now, and how many it takes.
pub open spec fn vote_heard(s: ServerView, from: u64, j: int) -> MessageView {
    let name = match s.client(from).info {
        Some(info) => info.name,
        None => Seq::empty(),
    };
    client::ordered(
        chat::system_line(
            name + " voted for "@ + labelled(s, j) + " ("@ + text::decimal(
                wanted_with(s, from, j),
            ) + "/"@ + text::decimal((start_laws::joined(s) / 2 + 1) as nat) + " needed)"@,
        ),
    )
}

/// The state once a vote is counted.
proof fn lemma_counted(s: ServerView, from: u64, j: int) -> (counted: ServerView)
    requires
        s.wf(),
        s.knows(from),
        0 <= j < s.maps.len(),
    ensures
        counted == s.with_client(
            s.seat(from),
            ClientView { vote: Some(j as usize), ..s.client(from) },
        ),
        counted.wf(),
        counted.votes_for(j) == wanted_with(s, from, j),
        counted.size(Audience::Lobby) == start_laws::joined(s),
        counted.majority() == start_laws::joined(s) / 2 + 1,
{
    let seat = s.seat(from);
    state::lemma_seat_of(s.clients, from);
    let counted = s.with_client(seat, ClientView { vote: Some(j as usize), ..s.client(from) });
    assert(s.clients[seat].wf(s.maps.len()));
    assert forall|i: int| 0 <= i < counted.clients.len() implies (#[trigger] counted.clients[i]).wf(
        counted.maps.len(),
    ) by {
        assert(s.clients[i].wf(s.maps.len()));
    }
    lemma_wanted(counted, j);
    let p = |c: ClientView|
        c.garage is Some && (c.addr == from || c.vote == Some(j as usize));
    let q = |c: ClientView| c.garage is Some && c.vote == Some(j as usize);
    assert forall|i: int| 0 <= i < s.clients.len() implies p(#[trigger] s.clients[i]) == q(
        counted.clients[i],
    ) by {
        if s.clients[i].addr == from {
            hearing::lemma_key_finds(s.clients, i);
        }
    }
    start_laws::lemma_same_count(s.clients, counted.clients, p, q);
    start_laws::lemma_lobby_size(counted);
    let r = |c: ClientView| c.garage is Some;
    start_laws::lemma_same_count(s.clients, counted.clients, r, r);
    counted
}

/// Outside a race, a vote for another entry moves the lobby there if and only if
/// more than half of the lobby wants it then; in a race it never does. A vote
/// that does not move the lobby is kept, and everyone else's vote with it.
#[verifier::rlimit(30)]
pub proof fn law_vote_takes_more_than_half_of_the_lobby(
    s: ServerView,
    from: u64,
    target: Seq<char>,
    j: int,
    clock: Clock,
)
    requires
        s.wf(),
        s.knows(from),
        target.len() > 0,
        s.find_map(target) == Ok::<int, Seq<char>>(j),
        0 <= j < s.maps.len(),
        s.racing || j != s.map_index,
    ensures
        ({
            let after = s.voted(from, target, clock);
            let passes = !s.racing && 2 * wanted_with(s, from, j) > start_laws::joined(s);
            &&& after.map_index == if passes {
                j
            } else {
                s.map_index
            }
            &&& after.racing == s.racing
            &&& after.clients.len() == s.clients.len()
            &&& forall|i: int|
                0 <= i < s.clients.len() ==> (#[trigger] after.clients[i]).vote == if passes {
                    None
                } else if s.clients[i].addr == from {
                    Some(j as usize)
                } else {
                    s.clients[i].vote
                }
        }),
{
    let seat = s.seat(from);
    let c = s.client(from);
    state::lemma_seat_of(s.clients, from);
    let counted = lemma_counted(s, from, j);
    let line = counted.vote_line(c.name(), j);
    let heard = counted.said_all(line, clock);
    let passed = heard.said_all("Vote passed."@, clock);
    let one = seq![client::ordered(chat::system_line(line))];
    let two = seq![client::ordered(chat::system_line("Vote passed."@))];
    state::lemma_told_keeps(counted, Audience::Lobby, one, clock);
    let told = counted.told(Audience::Lobby, one, clock);
    assert(heard.clients == told.clients);
    state::lemma_told_keeps(heard, Audience::Lobby, two, clock);
    race_laws::lemma_moved_keeps_all(passed, j, clock);
    let after = s.voted(from, target, clock);
    assert forall|i: int| 0 <= i < s.clients.len() implies (#[trigger] told.clients[i]).vote
        == if s.clients[i].addr == from {
        Some(j as usize)
    } else {
        s.clients[i].vote
    } by {
        assert(told.clients[i] == ClientView { out: told.clients[i].out, ..counted.clients[i] });
        if s.clients[i].addr == from {
            hearing::lemma_key_finds(s.clients, i);
        }
    }
    if !s.racing && 2 * wanted_with(s, from, j) > start_laws::joined(s) {
        assert(after == passed.moved_to(j, clock));
        assert forall|i: int| 0 <= i < s.clients.len() implies (
        #[trigger] after.clients[i]).vote is None by {
            assert(passed.moved_to(j, clock).clients[i].vote is None);
        }
    } else {
        assert(after == heard);
    }
}

/// Everyone in the lobby hears of a vote, and of the move where it passes; those
/// outside hear nothing.
#[verifier::rlimit(30)]
pub proof fn law_vote_is_heard(
    s: ServerView,
    from: u64,
    target: Seq<char>,
    j: int,
    i: int,
    clock: Clock,
)
    requires
        s.wf(),
        s.knows(from),
        target.len() > 0,
        s.find_map(target) == Ok::<int, Seq<char>>(j),
        0 <= j < s.maps.len(),
        s.racing || j != s.map_index,
        0 <= i < s.clients.len(),
    ensures
        hearing::hears(
            s,
            s.voted(from, target, clock),
            s.clients[i].addr,
            if s.clients[i].garage is None {
                Seq::empty()
            } else if !s.racing && 2 * wanted_with(s, from, j) > start_laws::joined(s) {
                seq![
                    vote_heard(s, from, j),
                    client::ordered(chat::system_line("Vote passed."@)),
                ] + start_laws::move_heard(s, j)
            } else {
                seq![vote_heard(s, from, j)]
            },
            clock,
        ),
{
    let addr = s.clients[i].addr;
    let in_lobby = s.clients[i].garage is Some;
    let c = s.client(from);
    hearing::lemma_key_finds(s.clients, i);
    state::lemma_seat_of(s.clients, from);
    let counted = lemma_counted(s, from, j);
    let line = counted.vote_line(c.name(), j);
    let heard = counted.said_all(line, clock);
    let passed = heard.said_all("Vote passed."@, clock);
    let none = Seq::<MessageView>::empty();
    let one = if in_lobby {
        seq![client::ordered(chat::system_line(line))]
    } else {
        none
    };
    let two = if in_lobby {
        seq![client::ordered(chat::system_line("Vote passed."@))]
    } else {
        none
    };
    hearing::lemma_hears_nothing(s, counted, addr, clock);
    hearing::lemma_heard(s, counted, addr, none, clock);
    assert(counted.client(addr).garage == s.clients[i].garage);
    hearing::lemma_hears_said_all(counted, line, addr, clock);
    hearing::lemma_heard(counted, heard, addr, one, clock);
    hearing::lemma_hears_twice(s, counted, heard, addr, none, one, clock);
    assert(none + one =~= one);
    assert(counted.maps[j].label() =~= labelled(s, j));
    assert(line =~= (match c.info {
        Some(info) => info.name,
        None => Seq::empty(),
    }) + " voted for "@ + labelled(s, j) + " ("@ + text::decimal(wanted_with(s, from, j)) + "/"@
        + text::decimal((start_laws::joined(s) / 2 + 1) as nat) + " needed)"@);
    if in_lobby {
        assert(one =~= seq![vote_heard(s, from, j)]);
    }
    let said = seq![client::ordered(chat::system_line(line))];
    state::lemma_told_keeps(counted, Audience::Lobby, said, clock);
    let told = counted.told(Audience::Lobby, said, clock);
    assert(told.clients[i] == ClientView { out: told.clients[i].out, ..counted.clients[i] });
    assert(heard.wf());
    if !s.racing && 2 * wanted_with(s, from, j) > start_laws::joined(s) {
        let after = passed.moved_to(j, clock);
        hearing::lemma_hears_said_all(heard, "Vote passed."@, addr, clock);
        hearing::lemma_heard(heard, passed, addr, two, clock);
        hearing::lemma_hears_twice(s, heard, passed, addr, one, two, clock);
        let word = seq![client::ordered(chat::system_line("Vote passed."@))];
        state::lemma_told_keeps(heard, Audience::Lobby, word, clock);
        let again = heard.told(Audience::Lobby, word, clock);
        assert(again.clients[i] == ClientView { out: again.clients[i].out, ..heard.clients[i] });
        assert(passed.wf());
        start_laws::law_move_is_heard_and_raced(passed, j, i, clock);
        let three = if in_lobby {
            start_laws::move_heard(passed, j)
        } else {
            none
        };
        hearing::lemma_hears_twice(s, passed, after, addr, one + two, three, clock);
        assert(start_laws::move_heard(passed, j) == start_laws::move_heard(s, j));
        if in_lobby {
            assert(one + two + three =~= seq![
                vote_heard(s, from, j),
                client::ordered(chat::system_line("Vote passed."@)),
            ] + start_laws::move_heard(s, j));
        } else {
            assert(one + two + three =~= none);
        }
    }
}

// ---------------------------------------------------------------------------
// Naming a track
// ---------------------------------------------------------------------------

/// Entry `k` is named by the fragment `part`: it occurs in `name | Variant`,
/// whatever the case of either.
pub open spec fn named_by(s: ServerView, k: int, part: Seq<char>) -> bool {
    text::occurs(text::lower(labelled(s, k)), text::lower(part))
}

/// The entries found are those that the fragment names.
proof fn lemma_matching(s: ServerView, part: Seq<char>, k: int)
    requires
        0 <= k <= s.maps.len(),
    ensures
        forall|i: int| 0 <= i < k ==> (s.matching(part, k).contains(i) <==> #[trigger] named_by(
            s,
            i,
            part,
        )),
        forall|n: int|
            0 <= n < s.matching(part, k).len() ==> 0 <= #[trigger] s.matching(part, k)[n] < k,
        forall|m: int, n: int|
            0 <= m < n < s.matching(part, k).len() ==> s.matching(part, k)[m] < s.matching(
                part,
                k,
            )[n],
    decreases k,
{
    if k > 0 {
        lemma_matching(s, part, k - 1);
        let before = s.matching(part, k - 1);
        let found = s.matching(part, k);
        assert(s.maps[k - 1].label() =~= labelled(s, k - 1));
        assert forall|i: int| 0 <= i < k implies (found.contains(i) <==> #[trigger] named_by(
            s,
            i,
            part,
        )) by {
            if found.contains(i) {
                let n = choose|n: int| 0 <= n < found.len() && found[n] == i;
                if n < before.len() {
                    assert(before[n] == i);
                    assert(before.contains(i));
                }
            }
            if named_by(s, i, part) {
                if i < k - 1 {
                    assert(before.contains(i));
                    let n = choose|n: int| 0 <= n < before.len() && before[n] == i;
                    assert(found[n] == i);
                } else {
                    assert(found[found.len() - 1] == i);
                }
            }
        }
    }
}

/// A number picks the entry of that number, counted from one, and nothing where
/// there is no such entry.
pub proof fn law_number_picks_its_entry(s: ServerView, n: nat, query: Seq<char>)
    requires
        text::number(query, usize::MAX as nat) == Some(n),
    ensures
        s.find_map(query) is Ok <==> 1 <= n <= s.maps.len(),
        1 <= n <= s.maps.len() ==> s.find_map(query) == Ok::<int, Seq<char>>(n - 1),
{
}

/// What is no number picks the one entry that it is a fragment of; nothing where
/// it is a fragment of none, or of more than one.
pub proof fn law_fragment_picks_the_only_entry(s: ServerView, query: Seq<char>)
    requires
        text::number(query, usize::MAX as nat) is None,
    ensures
        match s.find_map(query) {
            Ok(k) => {
                &&& 0 <= k < s.maps.len() && named_by(s, k, query)
                &&& forall|i: int|
                    0 <= i < s.maps.len() && #[trigger] named_by(s, i, query) ==> i == k
            },
            Err(_) => forall|k: int|
                0 <= k < s.maps.len() && #[trigger] named_by(s, k, query) ==> exists|i: int|
                    0 <= i < s.maps.len() && i != k && #[trigger] named_by(s, i, query),
        },
{
    let n = s.maps.len() as int;
    let found = s.matching(query, n);
    lemma_matching(s, query, n);
    if found.len() == 1 {
        let k = found[0];
        assert(found.contains(k));
        assert forall|i: int| 0 <= i < n && #[trigger] named_by(s, i, query) implies i == k by {
            assert(found.contains(i));
        }
    } else {
        assert forall|k: int| 0 <= k < n && #[trigger] named_by(s, k, query) implies exists|i: int|
            0 <= i < n && i != k && #[trigger] named_by(s, i, query) by {
            assert(found.contains(k));
            let m = choose|m: int| 0 <= m < found.len() && found[m] == k;
            let other = if m == 0 {
                1
            } else {
                0
            };
            assert(found.contains(found[other]));
            assert(found[0] < found[1]);
            assert(named_by(s, found[other], query));
        }
    }
}

// ---------------------------------------------------------------------------
// Where the rotation goes
// ---------------------------------------------------------------------------

/// What the lobby hears at the end of a race, before it moves on.
pub open spec fn end_heard(s: ServerView) -> Seq<MessageView> {
    seq![
        client::ordered(messages::tagged(Event::RaceEnd, seq![1u8])),
        client::ordered(messages::garage_commit_bytes(start_laws::host_id(), s.host.garage)),
    ]
}

/// What the lobby hears where a vote decided.
pub open spec fn won_heard(s: ServerView, j: int) -> MessageView {
    client::ordered(
        chat::system_line(
            "Vote won by "@ + labelled(s, j) + " with "@ + text::decimal(wanted(s, j))
                + " vote(s)"@,
        ),
    )
}

/// When a race ends, the lobby moves to the most wanted entry, or to the one
/// behind the current where nobody voted, the first behind the last. Everyone in
/// the lobby hears the end of the race, how the vote went, and the move.
#[verifier::rlimit(30)]
pub proof fn law_race_end_moves_on(s: ServerView, i: int, clock: Clock)
    requires
        s.wf(),
        s.racing,
        0 <= i < s.clients.len(),
    ensures
        ({
            let after = s.race_ended(clock);
            let j = after.map_index;
            &&& comes_next(s, j)
            &&& !after.racing
            &&& hearing::hears(
                s,
                after,
                s.clients[i].addr,
                if s.clients[i].garage is None {
                    Seq::empty()
                } else if wanted(s, j) > 0 {
                    end_heard(s) + seq![won_heard(s, j)] + start_laws::move_heard(s, j)
                } else {
                    end_heard(s) + start_laws::move_heard(s, j)
                },
                clock,
            )
        }),
{
    let addr = s.clients[i].addr;
    let in_lobby = s.clients[i].garage is Some;
    let none = Seq::<MessageView>::empty();
    hearing::lemma_key_finds(s.clients, i);
    let told = s.told(Audience::Lobby, end_heard(s), clock);
    let closed = s.race_closed(clock);
    let first = if in_lobby {
        end_heard(s)
    } else {
        none
    };
    hearing::lemma_hears_told(s, Audience::Lobby, end_heard(s), addr, clock);
    hearing::lemma_heard(s, told, addr, first, clock);
    assert(closed.clients == told.flags_reset(false).clients);
    hearing::lemma_hears_nothing(told, closed, addr, clock);
    hearing::lemma_heard(told, closed, addr, none, clock);
    hearing::lemma_hears_twice(s, told, closed, addr, first, none, clock);
    assert(first + none =~= first);
    state::lemma_told_keeps(s, Audience::Lobby, end_heard(s), clock);
    race_laws::lemma_closed(s, clock);
    assert(race_laws::kept(s.clients[i], closed.clients[i]));
    assert forall|k: int| 0 <= k < s.clients.len() implies (#[trigger] s.clients[k]).garage
        == closed.clients[k].garage && s.clients[k].vote == closed.clients[k].vote by {
        assert(race_laws::kept(s.clients[k], closed.clients[k]));
        assert(closed.clients[k].vote == s.clients[k].vote);
    }
    race_laws::lemma_same_leader(s, closed);
    lemma_leader(s);
    law_upcoming_comes_next(s);
    assert(closed.wf()) by {
        assert forall|k: int| 0 <= k < closed.clients.len() implies (
        #[trigger] closed.clients[k]).wf(closed.maps.len()) by {
            assert(s.clients[k].wf(s.maps.len()));
            assert(race_laws::kept(s.clients[k], closed.clients[k]));
        }
    }
    race_laws::law_race_end_rotates(s, clock);
    match closed.leader() {
        Some(j) => {
            let line = closed.vote_won_line(j);
            let said = closed.said_all(line, clock);
            let word = seq![client::ordered(chat::system_line(line))];
            let second = if in_lobby {
                word
            } else {
                none
            };
            hearing::lemma_hears_said_all(closed, line, addr, clock);
            hearing::lemma_heard(closed, said, addr, second, clock);
            hearing::lemma_hears_twice(s, closed, said, addr, first, second, clock);
            state::lemma_told_keeps(closed, Audience::Lobby, word, clock);
            let again = closed.told(Audience::Lobby, word, clock);
            assert(again.clients[i] == ClientView {
                out: again.clients[i].out,
                ..closed.clients[i]
            });
            assert(said.wf());
            start_laws::law_move_is_heard_and_raced(said, j, i, clock);
            let third = if in_lobby {
                start_laws::move_heard(said, j)
            } else {
                none
            };
            hearing::lemma_hears_twice(
                s,
                said,
                s.race_ended(clock),
                addr,
                first + second,
                third,
                clock,
            );
            assert(start_laws::move_heard(said, j) == start_laws::move_heard(s, j));
            let q = |c: ClientView| c.garage is Some && c.vote == Some(j as usize);
            start_laws::lemma_same_count(s.clients, closed.clients, q, q);
            lemma_wanted(closed, j);
            assert(closed.maps[j].label() =~= labelled(s, j));
            assert(line =~= "Vote won by "@ + labelled(s, j) + " with "@ + text::decimal(
                wanted(s, j),
            ) + " vote(s)"@);
            if in_lobby {
                assert(first + second + third =~= end_heard(s) + seq![won_heard(s, j)]
                    + start_laws::move_heard(s, j));
            } else {
                assert(first + second + third =~= none);
            }
        },
        None => {
            let j = closed.following();
            start_laws::law_move_is_heard_and_raced(closed, j, i, clock);
            let third = if in_lobby {
                start_laws::move_heard(closed, j)
            } else {
                none
            };
            hearing::lemma_hears_twice(s, closed, s.race_ended(clock), addr, first, third, clock);
            assert(start_laws::move_heard(closed, j) == start_laws::move_heard(s, j));
            assert(wanted(s, j) == 0);
            if !in_lobby {
                assert(first + third =~= none);
            }
        },
    }
}

// ---------------------------------------------------------------------------
// Chat
// ---------------------------------------------------------------------------

/// A chat line of a lobby member that is no command reaches everyone else in the
/// lobby as it was, on the ordered stream; its sender and those outside the
/// lobby hear nothing. A line from outside the lobby reaches nobody.
pub proof fn law_chat_is_relayed(
    s: ServerView,
    from: u64,
    payload: Seq<u8>,
    line: Seq<char>,
    end: int,
    i: int,
    clock: Clock,
)
    requires
        s.wf(),
        s.knows(from),
        0 <= i < s.clients.len(),
        event::event_of(payload) == Ok::<Event, Error>(Event::Chat),
        messages::read_chat(payload) == Ok::<(Seq<char>, int), Error>((line, end)),
        chat::command_in(line, s.client(from).name()) is None || s.client(from).garage is None,
    ensures
        hearing::hears(
            s,
            s.heard(from, payload, clock).0,
            s.clients[i].addr,
            if s.client(from).garage is Some && s.clients[i].garage is Some && s.clients[i].addr
                != from {
                seq![client::ordered(payload)]
            } else {
                Seq::empty()
            },
            clock,
        ),
        s.client(from).garage is None ==> s.heard(from, payload, clock).0 == s,
{
    let addr = s.clients[i].addr;
    hearing::lemma_key_finds(s.clients, i);
    hearing::lemma_hears_nothing(s, s, addr, clock);
    hearing::lemma_hears_told(
        s,
        Audience::LobbyBut(from),
        seq![client::ordered(payload)],
        addr,
        clock,
    );
}

/// A line that is a command is relayed to the others all the same, and then
/// carried out: what its carrying out says comes behind.
pub proof fn law_command_is_relayed_too(
    s: ServerView,
    from: u64,
    payload: Seq<u8>,
    line: Seq<char>,
    end: int,
    command: Seq<char>,
    i: int,
    clock: Clock,
)
    requires
        s.wf(),
        s.knows(from),
        s.client(from).garage is Some,
        0 <= i < s.clients.len(),
        event::event_of(payload) == Ok::<Event, Error>(Event::Chat),
        messages::read_chat(payload) == Ok::<(Seq<char>, int), Error>((line, end)),
        chat::command_in(line, s.client(from).name()) == Some(command),
    ensures
        exists|relayed: ServerView|
            hearing::hears(
                s,
                relayed,
                s.clients[i].addr,
                if s.clients[i].garage is Some && s.clients[i].addr != from {
                    seq![client::ordered(payload)]
                } else {
                    Seq::empty()
                },
                clock,
            ) && race_laws::all_kept(s.clients, relayed.clients) && s.heard(from, payload, clock).0
                == #[trigger] relayed.commanded(from, command, clock),
{
    let addr = s.clients[i].addr;
    let msgs = seq![client::ordered(payload)];
    let relayed = s.told(Audience::LobbyBut(from), msgs, clock);
    hearing::lemma_key_finds(s.clients, i);
    hearing::lemma_hears_told(s, Audience::LobbyBut(from), msgs, addr, clock);
    race_laws::lemma_told_keeps_all(s, Audience::LobbyBut(from), msgs, clock);
    assert(s.heard(from, payload, clock).0 == relayed.commanded(from, command, clock));
}

/// A line typed behind the sender's name is a command if it starts with `!`; the
/// command is what is behind that.
pub proof fn law_command_is_behind_the_mark(name: Seq<char>, command: Seq<char>)
    requires
        text::trimmed("!"@ + command) == "!"@ + command,
    ensures
        chat::command_in(name + ": "@ + "!"@ + command, name) == Some(command),
{
    let typed = "!"@ + command;
    let line = name + ": "@ + "!"@ + command;
    assert(line.take(name.len() as int) =~= name);
    let rest = line.skip(name.len() as int);
    assert(rest.take(": "@.len() as int) =~= ": "@);
    assert(rest.skip(": "@.len() as int) =~= typed);
    assert(typed.take("!"@.len() as int) =~= "!"@);
    assert(typed.skip("!"@.len() as int) =~= command);
}

/// Whom a command other than a vote answers: its sender alone.
pub proof fn lemma_answered(
    s: ServerView,
    from: u64,
    msgs: Seq<MessageView>,
    i: int,
    clock: Clock,
)
    requires
        s.wf(),
        0 <= i < s.clients.len(),
    ensures
        hearing::hears(
            s,
            s.told(Audience::One(from), msgs, clock),
            s.clients[i].addr,
            if s.clients[i].addr == from {
                msgs
            } else {
                Seq::empty()
            },
            clock,
        ),
{
    hearing::lemma_key_finds(s.clients, i);
    hearing::lemma_hears_told(s, Audience::One(from), msgs, s.clients[i].addr, clock);
}

/// The rotation as `!maps` shows it, with the mark at entry `next`.
pub open spec fn rotation_heard(s: ServerView, next: int) -> Seq<MessageView> {
    Seq::new(
        s.maps.len(),
        |k: int|
            client::ordered(
                chat::system_line(
                    (if k == next {
                        ">"@
                    } else {
                        " "@
                    }) + text::decimal((k + 1) as nat) + ". "@ + start_laws::described(s, k),
                ),
            ),
    )
}

/// `!maps` answers its sender, and nobody else, with one line per rotation
/// entry: its number, counted from one, its track and its laps; a `>` marks the
/// one that comes next, and no other.
pub proof fn law_maps_lists_the_rotation(s: ServerView, from: u64, i: int, clock: Clock)
    requires
        s.wf(),
        0 <= i < s.clients.len(),
    ensures
        exists|next: int| #[trigger]
            comes_next(s, next) && hearing::hears(
                s,
                s.commanded(from, "maps"@, clock),
                s.clients[i].addr,
                if s.clients[i].addr == from {
                    rotation_heard(s, next)
                } else {
                    Seq::empty()
                },
                clock,
            ),
{
    let next = s.upcoming();
    law_upcoming_comes_next(s);
    let lines = Seq::new(
        s.maps.len(),
        |k: int| client::ordered(chat::system_line(s.rotation_line(k))),
    );
    let wanted_lines = rotation_heard(s, next);
    assert(lines =~= wanted_lines) by {
        assert forall|k: int| 0 <= k < lines.len() implies lines[k] == wanted_lines[k] by {
            assert(s.describe(k) =~= start_laws::described(s, k));
        }
    }
    lemma_words();
    assert(text::split_at_first("maps"@, ' ') is None);
    assert(text::lower("maps"@) =~= "maps"@);
    lemma_answered(s, from, lines, i, clock);
    assert(s.commanded(from, "maps"@, clock) == s.told(Audience::One(from), lines, clock));
}

/// The letters of the commands.
proof fn lemma_words()
    ensures
        text::split_at_first("maps"@, ' ') is None,
        text::split_at_first("next"@, ' ') is None,
        text::split_at_first("vote"@, ' ') is None,
        text::split_at_first("help"@, ' ') is None,
        text::lower("maps"@) == "maps"@,
        text::lower("next"@) == "next"@,
        text::lower("vote"@) == "vote"@,
        text::lower("help"@) == "help"@,
        "maps"@ != "help"@,
        "next"@ != "help"@ && "next"@ != "maps"@ && "next"@ != "rotation"@,
        "vote"@ != "help"@ && "vote"@ != "maps"@ && "vote"@ != "rotation"@ && "vote"@ != "next"@,
{
    reveal_strlit("maps");
    reveal_strlit("next");
    reveal_strlit("vote");
    reveal_strlit("help");
    reveal_strlit("rotation");
    text::lemma_place("maps"@, ' ');
    text::lemma_place("next"@, ' ');
    text::lemma_place("vote"@, ' ');
    text::lemma_place("help"@, ' ');
    assert(text::lower("maps"@) =~= "maps"@);
    assert(text::lower("next"@) =~= "next"@);
    assert(text::lower("vote"@) =~= "vote"@);
    assert(text::lower("help"@) =~= "help"@);
    assert("maps"@[0] == 'm' && "next"@[0] == 'n' && "vote"@[0] == 'v' && "help"@[0] == 'h'
        && "rotation"@[0] == 'r');
}

/// `!next` answers its sender, and nobody else, with the race that comes next,
/// and in a race with the one that runs, too.
pub proof fn law_next_names_the_next_race(s: ServerView, from: u64, i: int, clock: Clock)
    requires
        s.wf(),
        0 <= i < s.clients.len(),
    ensures
        exists|next: int| #[trigger]
            comes_next(s, next) && hearing::hears(
                s,
                s.commanded(from, "next"@, clock),
                s.clients[i].addr,
                if s.clients[i].addr == from {
                    seq![
                        client::ordered(
                            chat::system_line(
                                if s.racing {
                                    "Racing "@ + labelled(s, s.map_index) + " now; next: "@
                                        + start_laws::described(s, next)
                                } else {
                                    "Next race: "@ + start_laws::described(s, next)
                                },
                            ),
                        ),
                    ]
                } else {
                    Seq::empty()
                },
                clock,
            ),
{
    let next = s.upcoming();
    law_upcoming_comes_next(s);
    lemma_words();
    assert(s.describe(next) =~= start_laws::described(s, next));
    assert(s.map().label() =~= labelled(s, s.map_index));
    let text = if s.racing {
        "Racing "@ + labelled(s, s.map_index) + " now; next: "@ + start_laws::described(s, next)
    } else {
        "Next race: "@ + start_laws::described(s, next)
    };
    assert(s.next_text() =~= text);
    lemma_answered(s, from, seq![client::ordered(chat::system_line(text))], i, clock);
}

/// `!vote` with a track counts as a vote for it; a vote for the track the lobby
/// is on, outside a race, or for none that is known, changes nothing and is
/// answered to its sender alone.
pub proof fn law_idle_vote_changes_nothing(
    s: ServerView,
    from: u64,
    target: Seq<char>,
    i: int,
    clock: Clock,
)
    requires
        s.wf(),
        0 <= i < s.clients.len(),
        target.len() == 0 || s.find_map(target) is Err || (!s.racing && s.find_map(target)
            == Ok::<int, Seq<char>>(s.map_index)),
    ensures
        ({
            let after = s.voted(from, target, clock);
            &&& after.map_index == s.map_index && after.racing == s.racing
            &&& race_laws::all_kept(s.clients, after.clients)
            &&& forall|k: int|
                0 <= k < s.clients.len() ==> (#[trigger] after.clients[k]).vote
                    == s.clients[k].vote
            &&& s.clients[i].addr != from ==> hearing::hears(
                s,
                after,
                s.clients[i].addr,
                Seq::empty(),
                clock,
            )
        }),
{
    let line = if target.len() == 0 {
        s.tally_text()
    } else {
        match s.find_map(target) {
            Err(why) => why,
            Ok(j) => s.maps[j].label() + " is already next"@,
        }
    };
    let msgs = seq![client::ordered(chat::system_line(line))];
    let after = s.voted(from, target, clock);
    assert(after == s.told(Audience::One(from), msgs, clock));
    lemma_answered(s, from, msgs, i, clock);
    race_laws::lemma_told_keeps_all(s, Audience::One(from), msgs, clock);
    state::lemma_told_keeps(s, Audience::One(from), msgs, clock);
    assert forall|k: int| 0 <= k < s.clients.len() implies (#[trigger] after.clients[k]).vote
        == s.clients[k].vote by {
        assert(after.clients[k] == ClientView { out: after.clients[k].out, ..s.clients[k] });
    }
}

// ---------------------------------------------------------------------------
// The tally
// ---------------------------------------------------------------------------

/// The rotation entries from `j` on that have votes: each with its votes, and a
/// comma between each two.
pub open spec fn tally_from(s: ServerView, j: int) -> Seq<char>
    decreases s.maps.len() - j,
{
    if j >= s.maps.len() {
        Seq::empty()
    } else {
        let rest = tally_from(s, j + 1);
        if wanted(s, j) == 0 {
            rest
        } else {
            labelled(s, j) + " "@ + text::decimal(wanted(s, j)) + (if rest.len() == 0 {
                Seq::empty()
            } else {
                ", "@ + rest
            })
        }
    }
}

/// Two lists with a comma between them, if neither is empty.
spec fn with_comma(a: Seq<char>, b: Seq<char>) -> Seq<char> {
    if a.len() == 0 {
        b
    } else if b.len() == 0 {
        a
    } else {
        a + ", "@ + b
    }
}

proof fn lemma_tally(s: ServerView, k: int)
    requires
        0 <= k <= s.maps.len() <= usize::MAX,
    ensures
        s.tally_line(s.maps.len() as int) == with_comma(s.tally_line(k), tally_from(s, k)),
    decreases s.maps.len() - k,
{
    let n = s.maps.len() as int;
    if k < n {
        lemma_tally(s, k + 1);
        lemma_wanted(s, k);
        let before = s.tally_line(k);
        let rest = tally_from(s, k + 1);
        if wanted(s, k) > 0 {
            reveal_strlit(" | ");
            let item = labelled(s, k) + " "@ + text::decimal(wanted(s, k));
            assert(s.maps[k].label() =~= labelled(s, k));
            assert(item.len() > 0);
            assert(s.tally_line(k + 1) =~= if before.len() == 0 {
                item
            } else {
                before + ", "@ + item
            });
            assert(tally_from(s, k) =~= with_comma(item, rest));
            assert(with_comma(s.tally_line(k + 1), rest) =~= with_comma(
                before,
                with_comma(item, rest),
            ));
        }
    } else {
        assert(tally_from(s, n).len() == 0);
        assert(with_comma(s.tally_line(n), tally_from(s, n)) =~= s.tally_line(n));
    }
}

/// A bare `!vote` is answered with every entry that has votes, in the order of
/// the rotation and with their number; where there are none it says how to vote.
pub proof fn law_tally_counts_every_vote(s: ServerView, from: u64, i: int, clock: Clock)
    requires
        s.wf(),
        0 <= i < s.clients.len(),
    ensures
        hearing::hears(
            s,
            s.voted(from, Seq::empty(), clock),
            s.clients[i].addr,
            if s.clients[i].addr == from {
                seq![
                    client::ordered(
                        chat::system_line(
                            if forall|k: int|
                                0 <= k < s.maps.len() ==> #[trigger] wanted(s, k) == 0 {
                                "No votes yet. !vote N or !vote <map> picks the next map; see !maps"@
                            } else {
                                "Votes: "@ + tally_from(s, 0)
                            },
                        ),
                    ),
                ]
            } else {
                Seq::empty()
            },
            clock,
        ),
{
    lemma_tally(s, 0);
    assert(s.tally_line(0).len() == 0);
    assert(s.tally_line(s.maps.len() as int) == tally_from(s, 0));
    lemma_tally_empty(s, 0);
    lemma_answered(
        s,
        from,
        seq![client::ordered(chat::system_line(s.tally_text()))],
        i,
        clock,
    );
}

proof fn lemma_tally_empty(s: ServerView, j: int)
    requires
        0 <= j <= s.maps.len(),
    ensures
        tally_from(s, j).len() == 0 <==> forall|k: int|
            j <= k < s.maps.len() ==> #[trigger] wanted(s, k) == 0,
    decreases s.maps.len() - j,
{
    if j < s.maps.len() {
        lemma_tally_empty(s, j + 1);
        reveal_strlit(" | ");
        if wanted(s, j) > 0 {
            assert(tally_from(s, j).len() > 0);
        } else {
            if tally_from(s, j).len() == 0 {
                assert forall|k: int| j <= k < s.maps.len() implies #[trigger] wanted(s, k)
                    == 0 by {}
            }
        }
    }
}

/// Votes count for those in the lobby alone; it takes more than half of the lobby,
/// and no more votes than that.
pub proof fn law_votes_are_counted(s: ServerView, j: int)
    requires
        0 <= j <= usize::MAX,
    ensures
        s.votes_for(j) == wanted(s, j),
        2 * s.majority() > start_laws::joined(s) >= 2 * (s.majority() - 1),
{
    lemma_wanted(s, j);
    start_laws::lemma_lobby_size(s);
}

} // verus!
