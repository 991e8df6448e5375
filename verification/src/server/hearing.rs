//! What a client hears of a step: the messages that the step's new mail carries
//! to it, and nothing else.

use vstd::prelude::*;

use crate::link::DatagramView;
use crate::server::chat;
use crate::server::client;
use crate::server::client::{ClientView, Clock, MessageView};
use crate::server::laws;
use crate::server::race_laws;
use crate::server::state;
use crate::server::state::{Audience, ServerView};

verus! {

/// The datagrams to `addr` among those that a step added, in order.
pub open spec fn mail_to(before: ServerView, after: ServerView, addr: u64) -> Seq<DatagramView> {
    after.outbox.skip(before.outbox.len() as int).filter(|d: DatagramView| d.to == addr)
}

/// Mail is only added.
pub open spec fn adds_mail(before: ServerView, after: ServerView) -> bool {
    &&& before.outbox.len() <= after.outbox.len()
    &&& after.outbox.take(before.outbox.len() as int) == before.outbox
}

/// A step sends the client with the key `addr` exactly the messages `msgs`, in
/// this order: its new mail is theirs, and they wait for its acks.
#[verifier::opaque]
pub open spec fn hears(
    before: ServerView,
    after: ServerView,
    addr: u64,
    msgs: Seq<MessageView>,
    clock: Clock,
) -> bool {
    &&& adds_mail(before, after)
    &&& race_laws::distinct(before.clients) && race_laws::distinct(after.clients)
    &&& before.knows(addr) && after.knows(addr)
    &&& mail_to(before, after, addr) == before.client(addr).mail(msgs, clock)
    &&& after.client(addr).out == before.client(addr).told(msgs, clock).out
}

/// What [`hears`] says.
pub proof fn lemma_heard(
    before: ServerView,
    after: ServerView,
    addr: u64,
    msgs: Seq<MessageView>,
    clock: Clock,
)
    requires
        hears(before, after, addr, msgs, clock),
    ensures
        adds_mail(before, after),
        race_laws::distinct(after.clients),
        before.knows(addr),
        after.knows(addr),
        mail_to(before, after, addr) == before.client(addr).mail(msgs, clock),
        after.client(addr).out == before.client(addr).told(msgs, clock).out,
{
    reveal(hears);
}

/// The key of a client finds that client.
pub proof fn lemma_key_finds(clients: Seq<ClientView>, i: int)
    requires
        race_laws::distinct(clients),
        0 <= i < clients.len(),
    ensures
        state::seat_of(clients, clients[i].addr) == i,
{
    let k = state::seat_of(clients, clients[i].addr);
    state::lemma_seat_of(clients, clients[i].addr);
    if k < i {
        assert(clients[k].addr != clients[i].addr);
    }
}

/// What is said to a client depends on its key and its link alone.
proof fn lemma_same_link(c: ClientView, d: ClientView, msgs: Seq<MessageView>, clock: Clock)
    requires
        c.addr == d.addr,
        c.out == d.out,
    ensures
        c.mail(msgs, clock) == d.mail(msgs, clock),
        c.told(msgs, clock).out == d.told(msgs, clock).out,
    decreases msgs.len(),
{
    if msgs.len() > 0 {
        lemma_same_link(c, d, msgs.drop_last(), clock);
    }
}

/// Telling two things is telling one behind the other.
proof fn lemma_told_twice(
    c: ClientView,
    a: Seq<MessageView>,
    b: Seq<MessageView>,
    clock: Clock,
)
    ensures
        c.told(a + b, clock) == c.told(a, clock).told(b, clock),
        c.mail(a + b, clock) == c.mail(a, clock) + c.told(a, clock).mail(b, clock),
    decreases b.len(),
{
    let mid = c.told(a, clock);
    client::lemma_told_keeps(c, a, clock);
    if b.len() == 0 {
        assert(a + b =~= a);
        assert(c.mail(a, clock) + mid.mail(b, clock) =~= c.mail(a, clock));
    } else {
        let init = b.drop_last();
        lemma_told_twice(c, a, init, clock);
        assert((a + b).drop_last() =~= a + init);
        assert((a + b).last() == b.last());
        assert(c.mail(a + b, clock) =~= c.mail(a, clock) + mid.mail(b, clock));
    }
}

/// Hearing two things is hearing one behind the other.
pub proof fn lemma_hears_twice(
    a: ServerView,
    b: ServerView,
    c: ServerView,
    addr: u64,
    first: Seq<MessageView>,
    second: Seq<MessageView>,
    clock: Clock,
)
    requires
        hears(a, b, addr, first, clock),
        hears(b, c, addr, second, clock),
    ensures
        hears(a, c, addr, first + second, clock),
{
    reveal(hears);
    let n = a.outbox.len() as int;
    let m = b.outbox.len() as int;
    let f = |d: DatagramView| d.to == addr;
    let one = b.outbox.skip(n);
    let two = c.outbox.skip(m);
    assert(c.outbox.take(n) =~= c.outbox.take(m).take(n));
    assert(c.outbox.skip(n) =~= one + two) by {
        assert(c.outbox.take(m) == b.outbox);
        assert forall|k: int| n <= k < m implies c.outbox[k] == b.outbox[k] by {
            assert(c.outbox.take(m)[k] == b.outbox[k]);
        }
    }
    Seq::filter_distributes_over_add(one, two, f);
    let x = a.client(addr);
    let y = b.client(addr);
    let told = x.told(first, clock);
    state::lemma_seat_of(a.clients, addr);
    state::lemma_seat_of(b.clients, addr);
    client::lemma_told_keeps(x, first, clock);
    lemma_same_link(y, told, second, clock);
    lemma_told_twice(x, first, second, clock);
}

/// What leaves the mail, the keys and the links as they are is not heard.
pub proof fn lemma_hears_nothing(a: ServerView, b: ServerView, addr: u64, clock: Clock)
    requires
        race_laws::distinct(a.clients),
        a.knows(addr),
        b.outbox == a.outbox,
        a.clients.len() == b.clients.len(),
        forall|i: int|
            0 <= i < a.clients.len() ==> (#[trigger] a.clients[i]).addr == b.clients[i].addr
                && a.clients[i].out == b.clients[i].out,
    ensures
        hears(a, b, addr, Seq::empty(), clock),
        b.seat(addr) == a.seat(addr),
{
    reveal(hears);
    let n = a.outbox.len() as int;
    state::lemma_seat_of(a.clients, addr);
    state::lemma_same_seat(a.clients, b.clients, addr);
    assert forall|i: int, j: int| 0 <= i < j < b.clients.len() implies (
    #[trigger] b.clients[i]).addr != (#[trigger] b.clients[j]).addr by {
        assert(a.clients[i].addr != a.clients[j].addr);
    }
    assert(b.outbox.take(n) =~= a.outbox);
    assert(b.outbox.skip(n) =~= Seq::empty());
    reveal(Seq::filter);
    assert(mail_to(a, b, addr) =~= Seq::empty());
}

/// That another client is gone is not heard by itself.
pub proof fn lemma_hears_nothing_of_removal(
    a: ServerView,
    b: ServerView,
    gone: int,
    addr: u64,
    clock: Clock,
)
    requires
        race_laws::distinct(a.clients),
        a.knows(addr),
        0 <= gone < a.clients.len(),
        gone != a.seat(addr),
        b.outbox == a.outbox,
        b.clients == a.clients.remove(gone),
    ensures
        hears(a, b, addr, Seq::empty(), clock),
        b.client(addr) == a.client(addr),
{
    reveal(hears);
    let n = a.outbox.len() as int;
    let i = a.seat(addr);
    state::lemma_seat_of(a.clients, addr);
    let j = if i < gone {
        i
    } else {
        i - 1
    };
    let at = |k: int|
        if k < gone {
            k
        } else {
            k + 1
        };
    assert forall|k: int, m: int| 0 <= k < m < b.clients.len() implies (
    #[trigger] b.clients[k]).addr != (#[trigger] b.clients[m]).addr by {
        assert(b.clients[k] == a.clients[at(k)]);
        assert(b.clients[m] == a.clients[at(m)]);
        assert(a.clients[at(k)].addr != a.clients[at(m)].addr);
    }
    assert(b.clients[j] == a.clients[i]);
    lemma_key_finds(b.clients, j);
    assert(b.outbox.take(n) =~= a.outbox);
    assert(b.outbox.skip(n) =~= Seq::empty());
    reveal(Seq::filter);
    assert(mail_to(a, b, addr) =~= Seq::empty());
}

/// Of what an audience is told, a client gets its own mail if it is one of it,
/// and nothing if not.
proof fn lemma_own_mail(
    clients: Seq<ClientView>,
    to: Audience,
    msgs: Seq<MessageView>,
    clock: Clock,
    addr: u64,
)
    requires
        race_laws::distinct(clients),
    ensures
        ({
            let i = state::seat_of(clients, addr);
            state::all_mail(clients, to, msgs, clock).filter(|d: DatagramView| d.to == addr)
                == if i < clients.len() && to.has(clients[i]) {
                clients[i].mail(msgs, clock)
            } else {
                Seq::empty()
            }
        }),
    decreases clients.len(),
{
    let f = |d: DatagramView| d.to == addr;
    let i = state::seat_of(clients, addr);
    state::lemma_seat_of(clients, addr);
    if clients.len() == 0 {
        reveal(Seq::filter);
        assert(state::all_mail(clients, to, msgs, clock).filter(f) =~= Seq::empty());
    } else {
        let init = clients.drop_last();
        let c = clients.last();
        let n = clients.len() - 1;
        assert(forall|k: int| 0 <= k < n ==> init[k] == clients[k]);
        lemma_own_mail(init, to, msgs, clock, addr);
        state::lemma_seat_of(init, addr);
        let before = state::all_mail(init, to, msgs, clock);
        let own = if to.has(c) {
            c.mail(msgs, clock)
        } else {
            Seq::empty()
        };
        Seq::filter_distributes_over_add(before, own, f);
        laws::lemma_mail_is_addressed(c, msgs, clock);
        if c.addr == addr {
            assert forall|k: int| 0 <= k < n implies (#[trigger] init[k]).addr != addr by {
                assert(clients[k].addr != clients[n].addr);
            }
            assert(i == n);
            lemma_all_pass(own, f);
            assert(before.filter(f) + own =~= own);
        } else {
            lemma_none_pass(own, f);
            assert(before.filter(f) + Seq::empty() =~= before.filter(f));
            if i < n {
                lemma_key_finds(init, i);
            } else {
                let k = state::seat_of(init, addr);
                if k < n {
                    assert(clients[k].addr == addr);
                }
            }
        }
    }
}

/// A sequence whose elements all pass stays as it is.
pub proof fn lemma_all_pass<A>(s: Seq<A>, f: spec_fn(A) -> bool)
    requires
        forall|k: int| 0 <= k < s.len() ==> f(#[trigger] s[k]),
    ensures
        s.filter(f) == s,
    decreases s.len(),
{
    reveal(Seq::filter);
    if s.len() > 0 {
        assert forall|k: int| 0 <= k < s.len() - 1 implies f(#[trigger] s.drop_last()[k]) by {
            assert(s.drop_last()[k] == s[k]);
        }
        lemma_all_pass(s.drop_last(), f);
        assert(f(s[s.len() - 1]));
        assert(s.drop_last().push(s.last()) =~= s);
    } else {
        assert(s.filter(f) =~= s);
    }
}

/// Nothing is left of a sequence whose elements do not pass.
pub proof fn lemma_none_pass<A>(s: Seq<A>, f: spec_fn(A) -> bool)
    requires
        forall|k: int| 0 <= k < s.len() ==> !f(#[trigger] s[k]),
    ensures
        s.filter(f) == Seq::<A>::empty(),
    decreases s.len(),
{
    reveal(Seq::filter);
    if s.len() > 0 {
        assert forall|k: int| 0 <= k < s.len() - 1 implies !f(#[trigger] s.drop_last()[k]) by {
            assert(s.drop_last()[k] == s[k]);
        }
        lemma_none_pass(s.drop_last(), f);
        assert(!f(s[s.len() - 1]));
    } else {
        assert(s.filter(f) =~= Seq::empty());
    }
}

/// What an audience is told, its members hear, and nobody else.
pub proof fn lemma_hears_told(
    s: ServerView,
    to: Audience,
    msgs: Seq<MessageView>,
    addr: u64,
    clock: Clock,
)
    requires
        race_laws::distinct(s.clients),
        s.knows(addr),
    ensures
        hears(
            s,
            s.told(to, msgs, clock),
            addr,
            if to.has(s.client(addr)) {
                msgs
            } else {
                Seq::empty()
            },
            clock,
        ),
        s.told(to, msgs, clock).seat(addr) == s.seat(addr),
{
    reveal(hears);
    let after = s.told(to, msgs, clock);
    let n = s.outbox.len() as int;
    state::lemma_told_keeps(s, to, msgs, clock);
    state::lemma_seat_of(s.clients, addr);
    assert(after.seat(addr) == s.seat(addr));
    assert forall|i: int, j: int| 0 <= i < j < after.clients.len() implies (
    #[trigger] after.clients[i]).addr != (#[trigger] after.clients[j]).addr by {
        assert(after.clients[i] == ClientView { out: after.clients[i].out, ..s.clients[i] });
        assert(after.clients[j] == ClientView { out: after.clients[j].out, ..s.clients[j] });
        assert(s.clients[i].addr != s.clients[j].addr);
    }
    assert(after.outbox.take(n) =~= s.outbox);
    assert(after.outbox.skip(n) =~= state::all_mail(s.clients, to, msgs, clock));
    lemma_own_mail(s.clients, to, msgs, clock, addr);
}

/// What is said to the whole lobby, its members hear, and nobody else.
pub proof fn lemma_hears_said_all(s: ServerView, line: Seq<char>, addr: u64, clock: Clock)
    requires
        race_laws::distinct(s.clients),
        s.knows(addr),
    ensures
        hears(
            s,
            s.said_all(line, clock),
            addr,
            if s.client(addr).garage is Some {
                seq![client::ordered(chat::system_line(line))]
            } else {
                Seq::empty()
            },
            clock,
        ),
        s.said_all(line, clock).seat(addr) == s.seat(addr),
{
    let msgs = seq![client::ordered(chat::system_line(line))];
    let told = s.told(Audience::Lobby, msgs, clock);
    let heard = if s.client(addr).garage is Some {
        msgs
    } else {
        Seq::empty()
    };
    lemma_hears_told(s, Audience::Lobby, msgs, addr, clock);
    lemma_heard(s, told, addr, heard, clock);
    lemma_hears_nothing(told, s.said_all(line, clock), addr, clock);
    lemma_hears_twice(
        s,
        told,
        s.said_all(line, clock),
        addr,
        heard,
        Seq::empty(),
        clock,
    );
    assert(heard + Seq::empty() =~= heard);
}

} // verus!
