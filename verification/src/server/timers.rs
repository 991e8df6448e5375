//! What happens by itself as time passes.

use vstd::prelude::*;

use crate::event::Event;
use crate::link;
use crate::link::{elapsed, DatagramView, TICK};
use crate::messages;
use crate::messages::encode_clock;
use crate::seqs;
use crate::server::client::{ClientView, Clock};
use crate::server::race::{FINISH_GRACE, RACE_END_DELAY};
use crate::server::state;
use crate::server::state::{Audience, Server, ServerView};

verus! {

/// Drop a client after this long without a datagram. Generous relative to the
/// 1 Hz ping so a brief stall does not evict anyone.
pub const CLIENT_TIMEOUT: u64 = 15_000_000_000;

/// Cadence of `CarState` traffic.
pub const CAR_STATE_INTERVAL: u64 = 50_000_000;

/// The datagrams that retransmit what is due at `now`, client by client.
pub open spec fn all_retransmitted(clients: Seq<ClientView>, now: u64) -> Seq<DatagramView>
    decreases clients.len(),
{
    if clients.len() == 0 {
        Seq::empty()
    } else {
        let c = clients.last();
        all_retransmitted(clients.drop_last(), now) + link::carried(
            c.addr,
            link::retransmitted(c.out.alive(), now),
        )
    }
}

impl ClientView {
    /// Silent for too long.
    pub open spec fn stale(self, now: u64) -> bool {
        elapsed(now, self.last_seen) > CLIENT_TIMEOUT
    }
}

impl ServerView {
    /// The keys of the clients that have been silent for too long.
    pub open spec fn stale(self, now: u64) -> Seq<u64> {
        self.clients.filter(|c: ClientView| c.stale(now)).map_values(|c: ClientView| c.addr)
    }

    /// With the clients of these keys removed, one after the other.
    pub open spec fn evicted(self, addrs: Seq<u64>, clock: Clock) -> ServerView
        decreases addrs.len(),
    {
        if addrs.len() == 0 {
            self
        } else {
            self.evicted(addrs.drop_last(), clock).removed(addrs.last(), clock)
        }
    }

    /// With everything that is due sent once more.
    pub open spec fn retried(self, now: u64) -> ServerView {
        ServerView {
            clients: self.clients.map_values(
                |c: ClientView| ClientView { out: c.out.retried(now), ..c },
            ),
            outbox: self.outbox + all_retransmitted(self.clients, now),
            ..self
        }
    }

    /// With silent clients evicted, unacked packets retransmitted, and everyone
    /// pinged.
    pub open spec fn ticked(self, clock: Clock) -> ServerView {
        self.evicted(self.stale(clock.now), clock).retried(clock.now).posted(
            Audience::Everyone,
            state::loose(messages::clock_bytes(Event::Ping, clock.seconds)),
        )
    }

    /// The race is over at `now`: the pause behind the last finish is over, or
    /// the grace period behind the first.
    pub open spec fn is_over(self, now: u64) -> bool {
        ||| match self.race_end_at {
            Some(t) => now >= t,
            None => false,
        }
        ||| match self.first_finish {
            Some(t) => elapsed(now, t) >= FINISH_GRACE,
            None => false,
        }
    }

    /// With a tick, if one is due.
    pub open spec fn ticked_if_due(self, clock: Clock) -> ServerView {
        if clock.now >= self.next_tick {
            ServerView { next_tick: (clock.now + TICK) as u64, ..self.ticked(clock) }
        } else {
            self
        }
    }

    /// With the phantom's car state streamed, if it races and that is due.
    pub open spec fn streamed_if_due(self, clock: Clock) -> ServerView {
        if self.racing && clock.now >= self.next_car_state {
            ServerView {
                next_car_state: (clock.now + CAR_STATE_INTERVAL) as u64,
                ..self.posted(
                    Audience::Lobby,
                    state::loose(self.live_host_state(clock)),
                )
            }
        } else {
            self
        }
    }

    /// With everything done that is due at this time.
    pub open spec fn advanced(self, clock: Clock) -> ServerView {
        let s = self.ticked_if_due(clock).streamed_if_due(clock);
        if s.racing && s.is_over(clock.now) {
            s.race_ended(clock)
        } else {
            s
        }
    }
}

impl Server {
    /// The keys of the clients that have been silent for too long.
    fn stale(&self, now: u64) -> (addrs: Vec<u64>)
        ensures
            addrs@ == self@.stale(now),
    {
        let ghost silent = |c: ClientView| c.stale(now);
        let ghost key = |c: ClientView| c.addr;
        let ghost all = self@.clients;
        let mut addrs: Vec<u64> = Vec::new();
        let mut i: usize = 0;
        proof {
            seqs::lemma_filter_none(all, silent);
            assert(addrs@ =~= all.take(0).filter(silent).map_values(key));
        }
        while i < self.clients.len()
            invariant
                i <= self.clients@.len(),
                self.clients@.len() == self@.clients.len(),
                all == self@.clients,
                silent == (|c: ClientView| c.stale(now)),
                key == (|c: ClientView| c.addr),
                addrs@ == all.take(i as int).filter(silent).map_values(key),
            decreases self.clients@.len() - i,
        {
            assert(self.clients@[i as int]@ == all[i as int]);
            proof {
                seqs::lemma_filter_step(all, silent, i as int);
            }
            if elapsed(now, self.clients[i].last_seen) > CLIENT_TIMEOUT {
                addrs.push(self.clients[i].addr);
            }
            assert(addrs@ =~= all.take(i + 1).filter(silent).map_values(key));
            i = i + 1;
        }
        assert(all.take(i as int) =~= all);
        addrs
    }

    /// Retransmit what is due.
    fn retry(&mut self, now: u64)
        ensures
            final(self)@ == old(self)@.retried(now),
            old(self)@.wf() ==> final(self)@.wf(),
    {
        let ghost before = self@;
        let ghost after = before.retried(now).clients;
        let mut i: usize = 0;
        assert(before.clients.take(0) =~= Seq::empty());
        assert(self@.clients =~= after.take(0) + before.clients.skip(0));
        assert(self@.outbox =~= before.outbox + all_retransmitted(before.clients.take(0), now));
        while i < self.clients.len()
            invariant
                i <= self.clients@.len(),
                before == old(self)@,
                after == before.retried(now).clients,
                self.clients@.len() == before.clients.len(),
                self@ == (ServerView {
                    clients: after.take(i as int) + before.clients.skip(i as int),
                    outbox: before.outbox + all_retransmitted(before.clients.take(i as int), now),
                    ..before
                }),
            decreases self.clients@.len() - i,
        {
            let ghost here = self@;
            proof {
                assert(self.clients@[i as int]@ == here.clients[i as int]);
                assert(here.clients[i as int] == before.clients[i as int]);
                assert(before.clients.take(i + 1).drop_last() =~= before.clients.take(i as int));
                assert(before.clients.take(i + 1).last() == before.clients[i as int]);
            }
            let addr: u64 = self.clients[i].addr;
            self.clients[i].out.retry(addr, now, &mut self.outbox);
            assert(self.clients@[i as int]@ =~= after[i as int]);
            assert(self@.clients =~= here.clients.update(i as int, after[i as int]));
            assert(self@.clients =~= after.take(i + 1) + before.clients.skip(i + 1));
            assert(self@.outbox =~= before.outbox + all_retransmitted(
                before.clients.take(i + 1),
                now,
            ));
            i = i + 1;
        }
        assert(before.clients.take(i as int) =~= before.clients);
        assert(self@.clients =~= after);
    }

    /// Once a second: evict silent clients, retransmit unacked packets, ping.
    pub fn tick(&mut self, clock: Clock)
        requires
            old(self)@.wf(),
            clock.now + RACE_END_DELAY <= u64::MAX,
        ensures
            final(self)@ == old(self)@.ticked(clock),
            final(self)@.wf(),
    {
        let ghost before = self@;
        let addrs = self.stale(clock.now);
        let mut k: usize = 0;
        assert(addrs@.take(0) =~= Seq::empty());
        while k < addrs.len()
            invariant
                k <= addrs@.len(),
                before == old(self)@,
                clock.now + RACE_END_DELAY <= u64::MAX,
                self@ == before.evicted(addrs@.take(k as int), clock),
                self@.wf(),
            decreases addrs@.len() - k,
        {
            assert(addrs@.take(k + 1).drop_last() =~= addrs@.take(k as int));
            assert(addrs@.take(k + 1).last() == addrs@[k as int]);
            self.remove_client(addrs[k], clock);
            k = k + 1;
        }
        assert(addrs@.take(k as int) =~= addrs@);
        self.retry(clock.now);
        let ping = encode_clock(Event::Ping, clock.seconds);
        self.post(Audience::Everyone, ping.as_slice());
    }

    /// Do everything that is due at this time: the tick, the phantom's car
    /// state, and the end of the race.
    pub fn advance(&mut self, clock: Clock)
        requires
            old(self)@.wf(),
            clock.now + RACE_END_DELAY <= u64::MAX,
        ensures
            final(self)@ == old(self)@.advanced(clock),
            final(self)@.wf(),
    {
        if clock.now >= self.next_tick {
            self.tick(clock);
            self.next_tick = clock.now + TICK;
        }
        if self.racing && clock.now >= self.next_car_state {
            let state = self.live_host_state(clock);
            self.post(Audience::Lobby, state.as_slice());
            self.next_car_state = clock.now + CAR_STATE_INTERVAL;
        }
        if self.racing {
            let settled: bool = match self.race_end_at {
                Some(t) => clock.now >= t,
                None => false,
            };
            let grace_out: bool = match self.first_finish {
                Some(t) => elapsed(clock.now, t) >= FINISH_GRACE,
                None => false,
            };
            if settled || grace_out {
                self.end_race(clock);
            }
        }
    }
}

} // verus!
