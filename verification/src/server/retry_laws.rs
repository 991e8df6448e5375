//! What the server promises of retransmitting: what a tick does about packets
//! that were not acked, whoever it evicts.

use vstd::prelude::*;

use crate::event::Event;
use crate::frame;
use crate::frame::{FrameView, PacketView};
use crate::link;
use crate::link::{DatagramView, PendingView, MAX_RESENDS};
use crate::link_laws;
use crate::link_laws::NUMBERS;
use crate::messages;
use crate::messages::{Finish, GENERATION};
use crate::player::PlayerId;
use crate::seqs;
use crate::server::chat;
use crate::server::client;
use crate::server::client::{ClientView, Clock, MessageView};
use crate::server::growth;
use crate::server::race::HOST_ENTITY;
use crate::server::race_laws;
use crate::server::state;
use crate::server::state::{Audience, ServerView};
use crate::server::timers;

verus! {

// ---------------------------------------------------------------------------
// What waits goes on waiting
// ---------------------------------------------------------------------------

/// What waits in `a` waits in `b`, unchanged and in its place; what is behind it
/// was sent at `now`.
pub open spec fn waits_on(a: Seq<PendingView>, b: Seq<PendingView>, now: u64) -> bool {
    &&& a.len() <= b.len()
    &&& b.take(a.len() as int) == a
    &&& forall|k: int| a.len() <= k < b.len() ==> (#[trigger] b[k]).last_sent == now
}

/// The same clients, and what waited for their acks goes on waiting.
#[verifier::opaque]
pub open spec fn all_wait(a: Seq<ClientView>, b: Seq<ClientView>, now: u64) -> bool {
    &&& a.len() == b.len()
    &&& forall|i: int|
        0 <= i < a.len() ==> (#[trigger] a[i]).addr == b[i].addr && waits_on(
            a[i].out.pending,
            b[i].out.pending,
            now,
        )
}

proof fn lemma_waits_on_twice(
    a: Seq<PendingView>,
    b: Seq<PendingView>,
    c: Seq<PendingView>,
    now: u64,
)
    requires
        waits_on(a, b, now),
        waits_on(b, c, now),
    ensures
        waits_on(a, c, now),
{
    assert(c.take(a.len() as int) =~= c.take(b.len() as int).take(a.len() as int));
    assert forall|k: int| a.len() <= k < c.len() implies (#[trigger] c[k]).last_sent == now by {
        if k < b.len() {
            assert(c.take(b.len() as int)[k] == b[k]);
        }
    }
}

broadcast proof fn lemma_all_wait_twice(
    a: Seq<ClientView>,
    b: Seq<ClientView>,
    c: Seq<ClientView>,
    now: u64,
)
    requires
        #[trigger] all_wait(a, b, now),
        #[trigger] all_wait(b, c, now),
    ensures
        all_wait(a, c, now),
{
    reveal(all_wait);
    assert forall|i: int| 0 <= i < a.len() implies (#[trigger] a[i]).addr == c[i].addr && waits_on(
        a[i].out.pending,
        c[i].out.pending,
        now,
    ) by {
        assert(b[i].addr == c[i].addr);
        lemma_waits_on_twice(a[i].out.pending, b[i].out.pending, c[i].out.pending, now);
    }
}

/// What keeps keys and packets keeps what waits.
proof fn lemma_same_wait(a: Seq<ClientView>, b: Seq<ClientView>, now: u64)
    requires
        a.len() == b.len(),
        forall|i: int|
            0 <= i < a.len() ==> (#[trigger] a[i]).addr == b[i].addr && a[i].out == b[i].out,
    ensures
        all_wait(a, b, now),
{
    reveal(all_wait);
    assert forall|i: int| 0 <= i < a.len() implies waits_on(
        (#[trigger] a[i]).out.pending,
        b[i].out.pending,
        now,
    ) by {
        let p = a[i].out.pending;
        assert(p.take(p.len() as int) =~= p);
    }
}

proof fn lemma_client_waits(c: ClientView, msgs: Seq<MessageView>, clock: Clock)
    ensures
        waits_on(c.out.pending, c.told(msgs, clock).out.pending, clock.now),
    decreases msgs.len(),
{
    if msgs.len() == 0 {
        let p = c.out.pending;
        assert(p.take(p.len() as int) =~= p);
    } else {
        let m = msgs.last();
        let here = c.told(msgs.drop_last(), clock);
        let before = here.out.pending;
        let after = c.told(msgs, clock).out.pending;
        lemma_client_waits(c, msgs.drop_last(), clock);
        let packets = here.out.packets(m.payload, m.ordered, clock.unix);
        assert(after == before + link::waiting(packets, clock.now));
        assert(after.take(before.len() as int) =~= before);
        lemma_waits_on_twice(c.out.pending, before, after, clock.now);
    }
}

broadcast proof fn lemma_told_waits(
    s: ServerView,
    to: Audience,
    msgs: Seq<MessageView>,
    clock: Clock,
)
    ensures
        all_wait(s.clients, (#[trigger] s.told(to, msgs, clock)).clients, clock.now),
{
    reveal(all_wait);
    let after = s.told(to, msgs, clock).clients;
    assert forall|i: int| 0 <= i < s.clients.len() implies (#[trigger] s.clients[i]).addr
        == after[i].addr && waits_on(s.clients[i].out.pending, after[i].out.pending, clock.now) by {
        let c = s.clients[i];
        let p = c.out.pending;
        client::lemma_told_keeps(c, msgs, clock);
        lemma_client_waits(c, msgs, clock);
        assert(p.take(p.len() as int) =~= p);
    }
}

broadcast group group_steps_wait {
    lemma_all_wait_twice,
    lemma_told_waits,
}

proof fn lemma_moved_waits(s: ServerView, index: int, clock: Clock)
    ensures
        all_wait(s.clients, s.moved_to(index, clock).clients, clock.now),
{
    broadcast use group_steps_wait;

    let t = s.maps[index];
    let on = ServerView { map_index: index, ..s };
    let told = on.told(
        Audience::Lobby,
        seq![client::ordered(messages::lobby_change_map_bytes(t.name, t.variant))],
        clock,
    );
    lemma_same_wait(told.clients, told.votes_cleared().clients, clock.now);
}

proof fn lemma_ended_waits(s: ServerView, clock: Clock)
    ensures
        all_wait(s.clients, s.race_ended(clock).clients, clock.now),
{
    broadcast use group_steps_wait;

    let told = s.told(
        Audience::Lobby,
        seq![
            client::ordered(messages::tagged(Event::RaceEnd, seq![1u8])),
            client::ordered(messages::garage_commit_bytes(PlayerId::host(), s.host.garage)),
        ],
        clock,
    );
    let closed = s.race_closed(clock);
    assert(closed.clients == told.flags_reset(false).clients);
    lemma_same_wait(told.clients, closed.clients, clock.now);
    match closed.leader() {
        Some(index) => {
            let line = closed.vote_won_line(index);
            let msgs = seq![client::ordered(chat::system_line(line))];
            lemma_told_waits(closed, Audience::Lobby, msgs, clock);
            lemma_moved_waits(closed.said_all(line, clock), index, clock);
        },
        None => {
            lemma_moved_waits(closed, closed.following(), clock);
        },
    }
}

proof fn lemma_settled_waits(s: ServerView, clock: Clock)
    ensures
        all_wait(s.clients, s.settled(clock).clients, clock.now),
{
    let finish = Finish { entity: HOST_ENTITY, generation: GENERATION, time_bits: s.host_time };
    let msgs = seq![
        client::unordered(messages::car_crossed_finish_bytes(PlayerId::host(), finish)),
    ];
    lemma_told_waits(s, Audience::Lobby, msgs, clock);
    lemma_same_wait(s.clients, s.clients, clock.now);
}

/// What the others are left with when a client is removed.
proof fn lemma_removed_waits(s: ServerView, addr: u64, clock: Clock)
    requires
        s.knows(addr),
    ensures
        all_wait(s.clients.remove(s.seat(addr)), s.removed(addr, clock).clients, clock.now),
{
    let without = ServerView { clients: s.clients.remove(s.seat(addr)), ..s };
    let msgs = seq![client::unordered(messages::player_left_bytes(s.client(addr).id))];
    let heard = if s.client(addr).in_lobby() {
        without.told(Audience::Lobby, msgs, clock)
    } else {
        without
    };
    lemma_same_wait(without.clients, without.clients, clock.now);
    lemma_told_waits(without, Audience::Lobby, msgs, clock);
    lemma_ended_waits(heard, clock);
    lemma_settled_waits(heard, clock);
    lemma_same_wait(heard.clients, heard.clients, clock.now);
    lemma_all_wait_twice(
        without.clients,
        heard.clients,
        s.removed(addr, clock).clients,
        clock.now,
    );
}

/// A client that is not evicted is still there, and waits as before.
proof fn lemma_evicted_waits(s: ServerView, addrs: Seq<u64>, addr: u64, clock: Clock)
    requires
        race_laws::distinct(s.clients),
        s.knows(addr),
        !addrs.contains(addr),
    ensures
        ({
            let after = s.evicted(addrs, clock);
            &&& race_laws::distinct(after.clients)
            &&& after.knows(addr)
            &&& after.client(addr).addr == addr
            &&& waits_on(s.client(addr).out.pending, after.client(addr).out.pending, clock.now)
        }),
    decreases addrs.len(),
{
    state::lemma_seat_of(s.clients, addr);
    if addrs.len() == 0 {
        let p = s.client(addr).out.pending;
        assert(p.take(p.len() as int) =~= p);
    } else {
        let init = addrs.drop_last();
        let gone = addrs.last();
        assert(addrs[addrs.len() - 1] == gone);
        assert(!init.contains(addr)) by {
            if init.contains(addr) {
                let k = choose|k: int| 0 <= k < init.len() && init[k] == addr;
                assert(addrs[k] == addr);
            }
        }
        lemma_evicted_waits(s, init, addr, clock);
        let before = s.evicted(init, clock);
        let after = before.removed(gone, clock);
        state::lemma_seat_of(before.clients, addr);
        state::lemma_seat_of(before.clients, gone);
        if before.knows(gone) {
            let seat = before.seat(gone);
            let rest = before.clients.remove(seat);
            let i = before.seat(addr);
            let j = if i < seat {
                i
            } else {
                i - 1
            };
            assert(i != seat);
            assert(rest[j] == before.clients[i]);
            race_laws::lemma_removed(before, gone, clock);
            lemma_removed_waits(before, gone, clock);
            reveal(all_wait);
            assert(rest[j].addr == after.clients[j].addr);
            state::lemma_seat_of(after.clients, addr);
            let k = after.seat(addr);
            if k < j {
                assert(after.clients[k].addr != after.clients[j].addr);
            }
            assert(k == j);
            lemma_waits_on_twice(
                s.client(addr).out.pending,
                before.client(addr).out.pending,
                after.client(addr).out.pending,
                clock.now,
            );
        }
    }
}

// ---------------------------------------------------------------------------
// Numbers
// ---------------------------------------------------------------------------

/// As long as no more packets are numbered than there are numbers, from the
/// oldest that waits on, telling a client something keeps the packets that wait
/// for its acks in order, and so distinctly numbered; a newcomer has none.
pub proof fn law_telling_keeps_the_order(c: ClientView, msgs: Seq<MessageView>, clock: Clock)
    requires
        link_laws::in_order(c.out),
        link_laws::lag(c.out) + c.mail(msgs, clock).len() <= NUMBERS,
    ensures
        link_laws::in_order(c.told(msgs, clock).out),
        link_laws::distinctly_numbered(c.told(msgs, clock).out),
        link_laws::lag(c.told(msgs, clock).out) <= link_laws::lag(c.out) + c.mail(
            msgs,
            clock,
        ).len(),
        client::newcomer(c.addr, c.id.client_id, clock.now).out.pending.len() == 0,
    decreases msgs.len(),
{
    if msgs.len() > 0 {
        let init = msgs.drop_last();
        let m = msgs.last();
        let here = c.told(init, clock).out;
        law_telling_keeps_the_order(c, init, clock);
        assert(c.mail(msgs, clock).len() == c.mail(init, clock).len() + here.packets(
            m.payload,
            m.ordered,
            clock.unix,
        ).len());
        link_laws::law_queueing_keeps_the_order(
            here,
            m.payload,
            m.ordered,
            clock.now,
            clock.unix,
        );
    }
    link_laws::law_packets_in_order_are_distinctly_numbered(c.told(msgs, clock).out);
}

// ---------------------------------------------------------------------------
// What a tick retransmits
// ---------------------------------------------------------------------------

/// `d` retransmits the packet numbered `seq` to `addr`.
pub open spec fn retransmits(d: DatagramView, addr: u64, seq: u32) -> bool {
    d.to == addr && match frame::parsed(d.bytes) {
        Ok(FrameView::Reliable(p)) => p.seq == seq && p.resend > 0,
        _ => false,
    }
}

/// The datagrams that retransmit what is due of `pending`.
spec fn resent(addr: u64, pending: Seq<PendingView>, now: u64) -> Seq<DatagramView> {
    let alive = pending.filter(|p: PendingView| p.packet.resend < MAX_RESENDS);
    link::carried(addr, link::retransmitted(alive, now))
}

/// Nothing is left of a sequence where nothing passes.
proof fn lemma_none_left<A>(s: Seq<A>, f: spec_fn(A) -> bool)
    requires
        forall|k: int| 0 <= k < s.len() ==> !f(#[trigger] s[k]),
    ensures
        s.filter(f) == Seq::<A>::empty(),
{
    seqs::lemma_filter_holds(s, f);
    if s.filter(f).len() > 0 {
        let a = s.filter(f)[0];
        assert(f(s.filter(f)[0]));
        assert(s.contains(a));
    }
    assert(s.filter(f) =~= Seq::empty());
}

proof fn lemma_resent_adds(addr: u64, a: Seq<PendingView>, b: Seq<PendingView>, now: u64)
    ensures
        resent(addr, a + b, now) == resent(addr, a, now) + resent(addr, b, now),
{
    let live = |p: PendingView| p.packet.resend < MAX_RESENDS;
    let due = |p: PendingView| p.due(now);
    Seq::filter_distributes_over_add(a, b, live);
    Seq::filter_distributes_over_add(a.filter(live), b.filter(live), due);
    assert(resent(addr, a + b, now) =~= resent(addr, a, now) + resent(addr, b, now));
}

/// Where a retransmitted datagram comes from.
proof fn lemma_resent_holds(addr: u64, pending: Seq<PendingView>, now: u64)
    ensures
        forall|k: int|
            0 <= k < resent(addr, pending, now).len() ==> comes_of(
                #[trigger] resent(addr, pending, now)[k],
                addr,
                pending,
                now,
            ),
{
    let live = |p: PendingView| p.packet.resend < MAX_RESENDS;
    let due = |p: PendingView| p.due(now);
    let alive = pending.filter(live);
    let all = resent(addr, pending, now);
    seqs::lemma_filter_holds(pending, live);
    seqs::lemma_filter_holds(alive, due);
    assert forall|k: int| 0 <= k < all.len() implies comes_of(
        #[trigger] all[k],
        addr,
        pending,
        now,
    ) by {
        let p = alive.filter(due)[k];
        assert(due(p) && alive.contains(p));
        let j = choose|j: int| 0 <= j < alive.len() && alive[j] == p;
        assert(live(alive[j]) && pending.contains(alive[j]));
        let i = choose|i: int| 0 <= i < pending.len() && pending[i] == p;
        assert(all[k] == DatagramView {
            to: addr,
            bytes: frame::frame_bytes(FrameView::Reliable(p.retried(now).packet)),
        });
        assert(pending[i].due(now));
    }
}

/// `d` retransmits one of `pending` to `addr`: one that is due and was not sent
/// too often.
spec fn comes_of(d: DatagramView, addr: u64, pending: Seq<PendingView>, now: u64) -> bool {
    exists|i: int|
        0 <= i < pending.len() && (#[trigger] pending[i]).due(now) && pending[i].packet.resend
            < MAX_RESENDS && d == DatagramView {
            to: addr,
            bytes: frame::frame_bytes(FrameView::Reliable(pending[i].retried(now).packet)),
        }
}

/// Packets with other numbers are no retransmits of `seq`.
proof fn lemma_others_are_other(addr: u64, pending: Seq<PendingView>, now: u64, seq: u32)
    requires
        forall|i: int|
            0 <= i < pending.len() ==> (#[trigger] pending[i]).packet.seq != seq
                && pending[i].packet.payload.len() <= u64::MAX,
    ensures
        resent(addr, pending, now).filter(|d: DatagramView| retransmits(d, addr, seq)) == Seq::<
            DatagramView,
        >::empty(),
{
    let f = |d: DatagramView| retransmits(d, addr, seq);
    let all = resent(addr, pending, now);
    lemma_resent_holds(addr, pending, now);
    assert forall|k: int| 0 <= k < all.len() implies !f(#[trigger] all[k]) by {
        assert(comes_of(all[k], addr, pending, now));
        let i = choose|i: int|
            0 <= i < pending.len() && (#[trigger] pending[i]).due(now) && pending[i].packet.resend
                < MAX_RESENDS && all[k] == DatagramView {
                to: addr,
                bytes: frame::frame_bytes(FrameView::Reliable(pending[i].retried(now).packet)),
            };
        frame::law_encoded_frame_parses_back(
            FrameView::Reliable(pending[i].retried(now).packet),
        );
    }
    lemma_none_left(all, f);
}

/// Of what is retransmitted to `addr`, one datagram is for the `i`th packet.
#[verifier::rlimit(30)]
proof fn lemma_one_is_resent(
    addr: u64,
    before: Seq<PendingView>,
    pending: Seq<PendingView>,
    now: u64,
    i: int,
)
    requires
        waits_on(before, pending, now),
        0 <= i < before.len(),
        before[i].due(now),
        before[i].packet.resend < MAX_RESENDS,
        forall|j: int|
            0 <= j < before.len() ==> (#[trigger] before[j]).packet.payload.len() <= u64::MAX,
        forall|j: int|
            0 <= j < before.len() && j != i ==> (#[trigger] before[j]).packet.seq
                != before[i].packet.seq,
    ensures
        resent(addr, pending, now).filter(
            |d: DatagramView| retransmits(d, addr, before[i].packet.seq),
        ) == seq![
            DatagramView {
                to: addr,
                bytes: frame::frame_bytes(FrameView::Reliable(before[i].retried(now).packet)),
            },
        ],
{
    let q = before[i];
    let f = |d: DatagramView| retransmits(d, addr, q.packet.seq);
    let front = before.take(i);
    let back = before.skip(i + 1);
    let fresh = pending.skip(before.len() as int);
    let d = DatagramView {
        to: addr,
        bytes: frame::frame_bytes(FrameView::Reliable(q.retried(now).packet)),
    };
    assert(before =~= front + seq![q] + back);
    assert(pending =~= before + fresh) by {
        assert(pending.take(before.len() as int) == before);
    }
    lemma_resent_adds(addr, front, seq![q], now);
    lemma_resent_adds(addr, front + seq![q], back, now);
    lemma_resent_adds(addr, before, fresh, now);
    lemma_others_are_other(addr, front, now, q.packet.seq);
    lemma_others_are_other(addr, back, now, q.packet.seq);
    // What was sent just now is not due.
    lemma_resent_holds(addr, fresh, now);
    assert(resent(addr, fresh, now) =~= Seq::empty()) by {
        if resent(addr, fresh, now).len() > 0 {
            assert(comes_of(resent(addr, fresh, now)[0], addr, fresh, now));
            let k = choose|k: int|
                0 <= k < fresh.len() && (#[trigger] fresh[k]).due(now) && fresh[k].packet.resend
                    < MAX_RESENDS && resent(addr, fresh, now)[0] == DatagramView {
                    to: addr,
                    bytes: frame::frame_bytes(FrameView::Reliable(fresh[k].retried(now).packet)),
                };
            assert(fresh[k] == pending[before.len() + k]);
        }
    }
    // The packet itself.
    assert(resent(addr, seq![q], now) =~= seq![d]) by {
        reveal(Seq::filter);
        let live = |p: PendingView| p.packet.resend < MAX_RESENDS;
        let due = |p: PendingView| p.due(now);
        assert(seq![q].drop_last() =~= Seq::empty());
        assert(seq![q].last() == q);
        assert(seq![q].filter(live) =~= seq![q]);
        assert(seq![q].filter(due) =~= seq![q]);
    }
    assert(seq![d].filter(f) =~= seq![d]) by {
        reveal(Seq::filter);
        frame::law_encoded_frame_parses_back(FrameView::Reliable(q.retried(now).packet));
        assert(f(d));
        assert(seq![d].drop_last() =~= Seq::empty());
        assert(seq![d].last() == d);
    }
    let first = resent(addr, front, now);
    let last = resent(addr, back, now);
    Seq::filter_distributes_over_add(first, seq![d], f);
    Seq::filter_distributes_over_add(first + seq![d], last, f);
    assert(resent(addr, pending, now) =~= first + seq![d] + last);
    assert(resent(addr, pending, now).filter(f) =~= seq![d]);
}

/// Of what is retransmitted to everyone, what is for `clients[j]` is its own.
proof fn lemma_own_is_left(clients: Seq<ClientView>, j: int, now: u64, seq: u32)
    requires
        race_laws::distinct(clients),
        0 <= j < clients.len(),
    ensures
        timers::all_retransmitted(clients, now).filter(
            |d: DatagramView| retransmits(d, clients[j].addr, seq),
        ) == resent(clients[j].addr, clients[j].out.pending, now).filter(
            |d: DatagramView| retransmits(d, clients[j].addr, seq),
        ),
    decreases clients.len(),
{
    let addr = clients[j].addr;
    let f = |d: DatagramView| retransmits(d, addr, seq);
    let init = clients.drop_last();
    let c = clients.last();
    let n = clients.len() - 1;
    let before = timers::all_retransmitted(init, now);
    let own = resent(c.addr, c.out.pending, now);
    assert(timers::all_retransmitted(clients, now) == before + own);
    Seq::filter_distributes_over_add(before, own, f);
    assert(forall|i: int| 0 <= i < init.len() ==> init[i] == clients[i]);
    if j < n {
        lemma_own_is_left(init, j, now, seq);
        assert(clients[j].addr != clients[n].addr);
        lemma_none_left(own, f);
        assert(before.filter(f) + Seq::empty() =~= before.filter(f));
    } else {
        assert forall|i: int| 0 <= i < init.len() implies (#[trigger] init[i]).addr != addr by {
            assert(clients[i].addr != clients[n].addr);
        }
        lemma_addressed_to_others(init, now, addr);
        lemma_none_left(before, f);
        assert(Seq::empty() + own.filter(f) =~= own.filter(f));
    }
}

/// Nothing is retransmitted to a key that no client has.
proof fn lemma_addressed_to_others(clients: Seq<ClientView>, now: u64, addr: u64)
    requires
        forall|i: int| 0 <= i < clients.len() ==> (#[trigger] clients[i]).addr != addr,
    ensures
        forall|k: int|
            0 <= k < timers::all_retransmitted(clients, now).len() ==> (
            #[trigger] timers::all_retransmitted(clients, now)[k]).to != addr,
    decreases clients.len(),
{
    if clients.len() > 0 {
        let init = clients.drop_last();
        let c = clients.last();
        assert(clients[clients.len() - 1] == c);
        assert forall|i: int| 0 <= i < init.len() implies (#[trigger] init[i]).addr != addr by {
            assert(init[i] == clients[i]);
        }
        lemma_addressed_to_others(init, now, addr);
        let before = timers::all_retransmitted(init, now);
        let all = timers::all_retransmitted(clients, now);
        assert forall|k: int| 0 <= k < all.len() implies (#[trigger] all[k]).to != addr by {
            if k < before.len() {
                assert(all[k] == before[k]);
            }
        }
    }
}

/// A client that is not evicted is not among those that are.
pub proof fn lemma_not_stale(s: ServerView, addr: u64, now: u64)
    requires
        race_laws::distinct(s.clients),
        s.knows(addr),
        !s.client(addr).stale(now),
    ensures
        !s.stale(now).contains(addr),
{
    let silent = |c: ClientView| c.stale(now);
    let picked = s.clients.filter(silent);
    let gone = s.stale(now);
    state::lemma_seat_of(s.clients, addr);
    seqs::lemma_filter_holds(s.clients, silent);
    if gone.contains(addr) {
        let k = choose|k: int| 0 <= k < gone.len() && gone[k] == addr;
        assert(gone[k] == picked[k].addr);
        assert(silent(picked[k]) && s.clients.contains(picked[k]));
        let m = choose|m: int| 0 <= m < s.clients.len() && s.clients[m] == picked[k];
        let i = s.seat(addr);
        if m < i {
            assert(s.clients[m].addr != s.clients[i].addr);
        } else if i < m {
            assert(s.clients[i].addr != s.clients[m].addr);
        }
    }
}

/// A tick retransmits each packet that is due to a client that is not silent for
/// too long: exactly one datagram of the tick retransmits it, with its resend
/// count one higher and nothing else changed, and it goes on waiting for its
/// ack. The count never passes [`MAX_RESENDS`]. The packet's number is not that
/// of another packet that waits, as
/// [`link_laws::law_waiting_packets_are_distinctly_numbered`] has it until the
/// counter comes round to a packet that still waits.
#[verifier::rlimit(30)]
pub proof fn law_tick_retransmits_what_is_due(s: ServerView, addr: u64, i: int, clock: Clock)
    requires
        s.wf(),
        s.knows(addr),
        !s.client(addr).stale(clock.now),
        0 <= i < s.client(addr).out.pending.len(),
        s.client(addr).out.pending[i].due(clock.now),
        s.client(addr).out.pending[i].packet.resend < MAX_RESENDS,
        forall|j: int|
            0 <= j < s.client(addr).out.pending.len() ==> (
            #[trigger] s.client(addr).out.pending[j]).packet.payload.len() <= u64::MAX,
        forall|j: int|
            0 <= j < s.client(addr).out.pending.len() && j != i ==> (
            #[trigger] s.client(addr).out.pending[j]).packet.seq
                != s.client(addr).out.pending[i].packet.seq,
    ensures
        ({
            let q = s.client(addr).out.pending[i].packet;
            let again = PacketView { resend: (q.resend + 1) as u8, ..q };
            let after = s.ticked(clock);
            let mail = after.outbox.skip(s.outbox.len() as int);
            &&& after.outbox.take(s.outbox.len() as int) == s.outbox
            &&& mail.filter(|d: DatagramView| retransmits(d, addr, q.seq)) == seq![
                DatagramView {
                    to: addr,
                    bytes: frame::frame_bytes(FrameView::Reliable(again)),
                },
            ]
            &&& 1 <= again.resend <= MAX_RESENDS
            &&& after.knows(addr)
            &&& after.client(addr).out.pending.contains(
                PendingView { packet: again, last_sent: clock.now },
            )
        }),
{
    let now = clock.now;
    let c = s.client(addr);
    let p = c.out.pending[i];
    let q = p.packet;
    let f = |d: DatagramView| retransmits(d, addr, q.seq);
    let gone = s.stale(now);
    let evicted = s.evicted(gone, clock);
    let retried = evicted.retried(now);
    let after = s.ticked(clock);
    let n = s.outbox.len() as int;
    lemma_not_stale(s, addr, now);
    lemma_evicted_waits(s, gone, addr, clock);
    let heir = evicted.client(addr);
    let j = evicted.seat(addr);
    state::lemma_seat_of(evicted.clients, addr);
    // What evicting sent is news.
    growth::lemma_evicted_grows(s, gone, clock);
    growth::lemma_carries_on(s, evicted);
    let news = evicted.outbox.skip(n);
    assert forall|k: int| 0 <= k < news.len() implies !f(#[trigger] news[k]) by {
        assert(news[k] == evicted.outbox[n + k]);
        lemma_news_retransmits_nothing(news[k], addr, q.seq);
    }
    lemma_none_left(news, f);
    // What is retransmitted.
    let resends = timers::all_retransmitted(evicted.clients, now);
    lemma_own_is_left(evicted.clients, j, now, q.seq);
    lemma_one_is_resent(addr, c.out.pending, heir.out.pending, now, i);
    // The pings.
    let ping = state::loose(messages::clock_bytes(Event::Ping, clock.seconds));
    let pings = state::all_posted(retried.clients, Audience::Everyone, ping);
    growth::lemma_all_posted_is_the_same(retried.clients, Audience::Everyone, ping);
    frame::law_encoded_frame_parses_back(
        FrameView::Unreliable(messages::clock_bytes(Event::Ping, clock.seconds)),
    );
    assert forall|k: int| 0 <= k < pings.len() implies !f(#[trigger] pings[k]) by {}
    lemma_none_left(pings, f);
    let mail = after.outbox.skip(n);
    assert(after.outbox =~= evicted.outbox + resends + pings);
    assert(mail =~= news + resends + pings) by {
        assert(evicted.outbox =~= s.outbox + news) by {
            assert(evicted.outbox.take(n) == s.outbox);
        }
    }
    Seq::filter_distributes_over_add(news, resends, f);
    Seq::filter_distributes_over_add(news + resends, pings, f);
    assert(mail.filter(f) =~= resends.filter(f));
    growth::lemma_ticked_grows(s, clock);
    // It goes on waiting.
    state::lemma_same_seat(evicted.clients, after.clients, addr);
    let live = |p: PendingView| p.packet.resend < MAX_RESENDS;
    seqs::lemma_filter_holds(heir.out.pending, live);
    assert(heir.out.pending.take(c.out.pending.len() as int)[i] == p);
    assert(live(p) && heir.out.pending.contains(p));
    let alive = heir.out.alive();
    assert(alive.contains(p));
    let m = choose|m: int| 0 <= m < alive.len() && alive[m] == p;
    assert(after.clients[j].out.pending[m] == p.retried(now));
}

/// News retransmits nothing.
proof fn lemma_news_retransmits_nothing(d: DatagramView, addr: u64, seq: u32)
    requires
        growth::is_news(d.bytes),
    ensures
        !retransmits(d, addr, seq),
{
    growth::lemma_news_is_parsed(d.bytes);
}

} // verus!
