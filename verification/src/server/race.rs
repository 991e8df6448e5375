//! Races: the start, the phantom host's car, finishes, and the end.

use vstd::prelude::*;

use crate::bytes;
use crate::bytes::{overwrite, put_u32};
use crate::event::Event;
use crate::le;
use crate::link::elapsed;
use crate::messages;
use crate::messages::{
    encode_car_crossed_finish, encode_garage_commit, encode_race_end, encode_ready_broadcast,
    encode_spawn_car, encode_start_race, put_pose, Finish, Pose, GENERATION,
};
use crate::player::PlayerId;
use crate::seqs;
use crate::server::client;
use crate::server::client::{ClientView, Clock, Message, MessageView};
use crate::server::state::{Audience, Server, ServerView, CAR_STATE_LEN};
use crate::text;
use crate::text::{push_decimal, push_padded, push_text};

verus! {

broadcast use crate::le::group_widths;

/// Entity the real host gave its own car; clients only echo it.
pub const HOST_ENTITY: u32 = 0x540;

/// Byte offsets of the two fields that are patched in the phantom's car state:
///
/// ```text
/// 0..28   pose, rotation xyzw and position xyz
/// 84      bool, held at the grid until 3 s after RaceGo
/// 90..94  f32, sender clock
/// ```
pub const CAR_STATE_GRID_HOLD: usize = 84;

pub const CAR_STATE_CLOCK: usize = 90;

/// The grid flag clears this long after `RaceGo`.
pub const GRID_HOLD: u64 = 3_000_000_000;

/// Pause between the last finish and `RaceEnd`, so finishers see the final times
/// before the results notepad replaces them. A real host waits for the host
/// player to press a button here.
pub const RACE_END_DELAY: u64 = 5_000_000_000;

/// End the race this long after the first finish even if someone is still out
/// on the track (stuck, crashed, or idling); otherwise one player could hold the
/// lobby forever.
pub const FINISH_GRACE: u64 = 180_000_000_000;

/// A race time of `millis` milliseconds as `m:ss.mmm`.
pub open spec fn race_time(millis: nat) -> Seq<char> {
    text::decimal(millis / 60_000) + ":"@ + text::padded(millis / 1000 % 60, 2) + "."@
        + text::padded(millis % 1000, 3)
}

/// `m:ss.mmm`, the way the game's own results table shows a race time.
pub fn format_race_time(millis: u64) -> (s: String)
    ensures
        s@ == race_time(millis as nat),
{
    let mut s = String::new();
    push_decimal(&mut s, millis / 60_000);
    push_text(&mut s, ":");
    push_padded(&mut s, millis / 1000 % 60, 2);
    push_text(&mut s, ".");
    push_padded(&mut s, millis % 1000, 3);
    assert(s@ =~= race_time(millis as nat));
    s
}

/// `c` put behind the cars whose id is not higher, before those whose is.
pub open spec fn lined_up_with(line: Seq<ClientView>, c: ClientView) -> Seq<ClientView>
    decreases line.len(),
{
    if line.len() == 0 || line.last().id.client_id <= c.id.client_id {
        line.push(c)
    } else {
        lined_up_with(line.drop_last(), c).push(line.last())
    }
}

/// The lobby's cars in the order of their client ids: who starts where.
pub open spec fn line_up(clients: Seq<ClientView>) -> Seq<ClientView>
    decreases clients.len(),
{
    if clients.len() == 0 {
        Seq::empty()
    } else if clients.last().in_lobby() {
        lined_up_with(line_up(clients.drop_last()), clients.last())
    } else {
        line_up(clients.drop_last())
    }
}

/// A car is put at the one place that keeps the order.
proof fn lemma_lined_up_with(line: Seq<ClientView>, c: ClientView, at: int)
    requires
        0 <= at <= line.len(),
        forall|j: int| at <= j < line.len() ==> (#[trigger] line[j]).id.client_id > c.id.client_id,
        at > 0 ==> line[at - 1].id.client_id <= c.id.client_id,
    ensures
        lined_up_with(line, c) == line.insert(at, c),
    decreases line.len(),
{
    if at == line.len() {
        assert(line.insert(at, c) =~= line.push(c));
    } else {
        let init = line.drop_last();
        assert forall|j: int| at <= j < init.len() implies (#[trigger] init[j]).id.client_id
            > c.id.client_id by {
            assert(init[j] == line[j]);
        }
        lemma_lined_up_with(init, c, at);
        assert(line[line.len() - 1].id.client_id > c.id.client_id);
        assert(line.insert(at, c) =~= init.insert(at, c).push(line.last()));
    }
}

impl ServerView {
    /// Where the phantom host stands in the next race: parked on a computed
    /// off-road shoulder when the scene has one, else on the next grid slot.
    pub open spec fn host_pose(self) -> Pose {
        let count = self.size(Audience::Lobby);
        match self.map().parking_pose(count) {
            Some(pose) => pose,
            None => self.map().grid_pose(count),
        }
    }

    /// The car of `c` at its grid slot.
    pub open spec fn spawn_of(self, c: ClientView, slot: nat) -> MessageView {
        client::ordered(
            messages::spawn_car_bytes(
                c.id,
                c.entity(),
                c.garage->Some_0,
                self.map().grid_pose(slot)@,
            ),
        )
    }

    /// What every client hears at the start: the host is ready, the race, and
    /// one car per participant, host first.
    pub open spec fn start_messages(self) -> Seq<MessageView> {
        let line = line_up(self.clients);
        seq![
            client::ordered(messages::ready_broadcast_bytes(PlayerId::host(), true)),
            client::ordered(
                messages::start_race_bytes(
                    self.map().name,
                    self.map().variant,
                    self.settings_for(self.map_index),
                ),
            ),
            client::ordered(
                messages::spawn_car_bytes(
                    PlayerId::host(),
                    HOST_ENTITY,
                    self.host.garage,
                    self.host_pose()@,
                ),
            ),
        ] + Seq::new(line.len(), |slot: int| self.spawn_of(line[slot], slot as nat))
    }

    /// With every client's race flags reset; `grid` puts the lobby in the race.
    pub open spec fn flags_reset(self, grid: bool) -> ServerView {
        ServerView {
            clients: self.clients.map_values(
                |c: ClientView|
                    ClientView {
                        racing: grid && c.in_lobby(),
                        ready: false,
                        finished: false,
                        ..c
                    },
            ),
            ..self
        }
    }

    /// With a race started, as a real host does on Start Race.
    pub open spec fn race_started(self, clock: Clock) -> ServerView {
        ServerView {
            racing: true,
            first_finish: None,
            race_end_at: None,
            race_go_at: None,
            host_state: bytes::overwritten(
                self.host.state,
                self.host.state.len() - CAR_STATE_LEN,
                messages::pose_bytes(self.host_pose()@),
            ),
            ..self.told(Audience::Lobby, self.start_messages(), clock).flags_reset(true)
        }
    }

    /// The phantom still sits at the grid.
    pub open spec fn held(self, now: u64) -> bool {
        match self.race_go_at {
            None => true,
            Some(t) => elapsed(now, t) < GRID_HOLD,
        }
    }

    /// The phantom's state for this instant. A real car's state carries its
    /// sender clock and a "held at grid" flag that clears 3 s after RaceGo.
    pub open spec fn live_host_state(self, clock: Clock) -> Seq<u8> {
        let at = self.host_state.len() - CAR_STATE_LEN;
        bytes::overwritten(
            bytes::overwritten(
                self.host_state,
                at + CAR_STATE_GRID_HOLD,
                bytes::bool_bytes(self.held(clock.now)),
            ),
            at + CAR_STATE_CLOCK,
            le::u32_bytes(clock.seconds),
        )
    }

    /// With a finish of `from`'s car recorded and relayed to the others.
    pub open spec fn crossed(self, from: u64, finish: Finish, clock: Clock) -> ServerView {
        if !self.knows(from) {
            self
        } else {
            let c = self.client(from);
            ServerView {
                first_finish: match self.first_finish {
                    Some(t) => Some(t),
                    None => Some(clock.now),
                },
                ..self.with_client(self.seat(from), ClientView { finished: true, ..c }).told(
                    Audience::LobbyBut(from),
                    seq![client::unordered(messages::car_crossed_finish_bytes(c.id, finish))],
                    clock,
                )
            }
        }
    }

    /// How many cars have finished.
    pub open spec fn finishers(self) -> nat {
        self.clients.filter(|c: ClientView| c.finished).len()
    }

    /// With the finish of `from` announced in chat, the time as `shown`, and the
    /// race settled if it was the last; the phantom is to finish at `host_time`.
    pub open spec fn finish_announced(
        self,
        from: u64,
        shown: Seq<char>,
        host_time: u64,
        clock: Clock,
    ) -> ServerView {
        if !self.knows(from) {
            self
        } else {
            ServerView { host_time, ..self }.said_all(
                self.client(from).name() + " finished P"@ + text::decimal(self.finishers())
                    + " in "@ + shown,
                clock,
            ).settled(clock)
        }
    }

    /// Every racer has finished.
    pub open spec fn all_finished(self) -> bool {
        forall|i: int|
            0 <= i < self.clients.len() && (#[trigger] self.clients[i]).racing
                ==> self.clients[i].finished
    }

    /// With the end scheduled, if every remaining racer has finished: the
    /// phantom host "finishes" too, a hair behind the last real finisher, so the
    /// results table lists it last and shows no 0.000 row.
    pub open spec fn settled(self, clock: Clock) -> ServerView {
        if !self.racing || self.race_end_at is Some || !self.all_finished() {
            self
        } else {
            ServerView {
                race_end_at: Some((clock.now + RACE_END_DELAY) as u64),
                ..self.told(
                    Audience::Lobby,
                    seq![
                        client::unordered(
                            messages::car_crossed_finish_bytes(
                                PlayerId::host(),
                                Finish {
                                    entity: HOST_ENTITY,
                                    generation: GENERATION,
                                    time_bits: self.host_time,
                                },
                            ),
                        ),
                    ],
                    clock,
                )
            }
        }
    }

    /// With everyone sent back to the lobby: `RaceEnd`, then a fresh commit of
    /// the host garage.
    pub open spec fn race_closed(self, clock: Clock) -> ServerView {
        ServerView {
            racing: false,
            first_finish: None,
            race_end_at: None,
            ..self.told(
                Audience::Lobby,
                seq![
                    client::ordered(messages::tagged(Event::RaceEnd, seq![1u8])),
                    client::ordered(
                        messages::garage_commit_bytes(PlayerId::host(), self.host.garage),
                    ),
                ],
                clock,
            ).flags_reset(false)
        }
    }

    /// What the lobby hears when a vote decides the next track.
    pub open spec fn vote_won_line(self, index: int) -> Seq<char> {
        "Vote won by "@ + self.maps[index].label() + " with "@ + text::decimal(
            self.votes_for(index),
        ) + " vote(s)"@
    }

    /// With the race ended and the lobby moved on: to the vote leader if anyone
    /// voted, else to the next entry.
    pub open spec fn race_ended(self, clock: Clock) -> ServerView {
        let closed = self.race_closed(clock);
        match closed.leader() {
            Some(index) => closed.said_all(closed.vote_won_line(index), clock).moved_to(
                index,
                clock,
            ),
            None => closed.moved_to(closed.following(), clock),
        }
    }
}

impl Server {
    /// The seats of the lobby's cars, in the order of their client ids.
    #[verifier::rlimit(30)]
    fn line_up(&self) -> (order: Vec<usize>)
        ensures
            forall|k: int|
                0 <= k < order@.len() ==> (#[trigger] order@[k]) < self.clients@.len()
                    && self.clients@[order@[k] as int]@.in_lobby(),
            order@.map_values(|i: usize| self.clients@[i as int]@) == line_up(self@.clients),
    {
        let ghost at = |i: usize| self.clients@[i as int]@;
        let mut order: Vec<usize> = Vec::new();
        let mut i: usize = 0;
        assert(self@.clients.take(0) =~= Seq::empty());
        assert(order@.map_values(at) =~= line_up(self@.clients.take(0)));
        while i < self.clients.len()
            invariant
                i <= self.clients@.len(),
                self.clients@.len() == self@.clients.len(),
                at == (|i: usize| self.clients@[i as int]@),
                forall|k: int|
                    0 <= k < order@.len() ==> (#[trigger] order@[k]) < self.clients@.len()
                        && self.clients@[order@[k] as int]@.in_lobby(),
                order@.map_values(at) == line_up(self@.clients.take(i as int)),
            decreases self.clients@.len() - i,
        {
            let ghost line = order@.map_values(at);
            let ghost c = self@.clients[i as int];
            assert(self@.clients.take(i + 1).drop_last() =~= self@.clients.take(i as int));
            assert(self@.clients.take(i + 1).last() == c);
            assert(self.clients@[i as int]@ == c);
            if self.clients[i].in_lobby() {
                let id: u32 = self.clients[i].id.client_id;
                let mut pos: usize = order.len();
                while pos > 0 && self.clients[order[pos - 1]].id.client_id > id
                    invariant
                        pos <= order@.len(),
                        at == (|i: usize| self.clients@[i as int]@),
                        line == order@.map_values(at),
                        id == c.id.client_id,
                        forall|k: int|
                            0 <= k < order@.len() ==> (#[trigger] order@[k]) < self.clients@.len(),
                        forall|j: int|
                            pos <= j < line.len() ==> (#[trigger] line[j]).id.client_id
                                > c.id.client_id,
                    decreases pos,
                {
                    assert(line[pos - 1] == self.clients@[order@[pos - 1] as int]@);
                    pos = pos - 1;
                }
                proof {
                    if pos > 0 {
                        assert(line[pos - 1] == self.clients@[order@[pos - 1] as int]@);
                    }
                    lemma_lined_up_with(line, c, pos as int);
                }
                let ghost before = order@;
                order.insert(pos, i);
                assert(order@ == before.insert(pos as int, i));
                assert(order@.map_values(at) =~= line.insert(pos as int, c));
                assert forall|k: int| 0 <= k < order@.len() implies (#[trigger] order@[k])
                    < self.clients@.len() && self.clients@[order@[k] as int]@.in_lobby() by {
                    if k < pos {
                        assert(order@[k] == before[k]);
                    } else if k > pos {
                        assert(order@[k] == before[k - 1]);
                    }
                }
            }
            i = i + 1;
        }
        assert(self@.clients.take(i as int) =~= self@.clients);
        order
    }

    /// Where the phantom host stands in the next race.
    fn host_pose(&self) -> (p: Pose)
        requires
            self@.rotation_wf(),
        ensures
            p == self@.host_pose(),
    {
        let count: usize = self.size(Audience::Lobby);
        match self.map().parking_pose(count) {
            Some(pose) => pose,
            None => self.map().grid_pose(count),
        }
    }

    /// What every client hears at the start of a race.
    #[verifier::rlimit(30)]
    fn start_messages(&self) -> (msgs: Vec<Message>)
        requires
            self@.rotation_wf(),
        ensures
            client::messages(msgs@) == self@.start_messages(),
    {
        let ghost line = line_up(self@.clients);
        let ghost all = self@.start_messages();
        let settings = self.settings_for(self.map_index);
        let mut msgs: Vec<Message> = Vec::new();
        msgs.push(
            Message { payload: encode_ready_broadcast(PlayerId::host(), true), ordered: true },
        );
        msgs.push(
            Message {
                payload: encode_start_race(
                    self.map().name.as_str(),
                    self.map().variant,
                    &settings,
                ),
                ordered: true,
            },
        );
        msgs.push(
            Message {
                payload: encode_spawn_car(
                    PlayerId::host(),
                    HOST_ENTITY,
                    self.host.garage.as_slice(),
                    &self.host_pose(),
                ),
                ordered: true,
            },
        );
        let order = self.line_up();
        assert(order@.len() == line.len());
        let mut slot: usize = 0;
        assert(client::messages(msgs@) =~= all.take(3));
        while slot < order.len()
            invariant
                slot <= order@.len(),
                order@.len() == line.len(),
                self@.rotation_wf(),
                line == line_up(self@.clients),
                all == self@.start_messages(),
                forall|k: int|
                    0 <= k < order@.len() ==> (#[trigger] order@[k]) < self.clients@.len()
                        && self.clients@[order@[k] as int]@.in_lobby(),
                order@.map_values(|i: usize| self.clients@[i as int]@) == line,
                client::messages(msgs@) == all.take(3 + slot),
            decreases order@.len() - slot,
        {
            let ghost before = client::messages(msgs@);
            let c = &self.clients[order[slot]];
            assert(c@ == line[slot as int]);
            if let Some(garage) = &c.garage {
                let payload = encode_spawn_car(
                    c.id,
                    c.entity(),
                    garage.as_slice(),
                    &self.map().grid_pose(slot),
                );
                let m = Message { payload, ordered: true };
                let ghost shown = m@;
                msgs.push(m);
                assert(shown == self@.spawn_of(line[slot as int], slot as nat));
                assert(shown == all[3 + slot]);
                assert(client::messages(msgs@) =~= before.push(shown));
                assert(client::messages(msgs@) =~= all.take(3 + slot + 1));
            }
            slot = slot + 1;
        }
        assert(all.take(3 + slot) =~= all);
        msgs
    }

    /// Reset every client's race flags; `grid` puts the lobby in the race.
    fn reset_flags(&mut self, grid: bool)
        ensures
            final(self)@ == old(self)@.flags_reset(grid),
            old(self)@.wf() ==> final(self)@.wf(),
    {
        let ghost before = self@;
        let ghost after = before.flags_reset(grid).clients;
        let mut i: usize = 0;
        assert(self@.clients =~= after.take(0) + before.clients.skip(0));
        while i < self.clients.len()
            invariant
                i <= self.clients@.len(),
                before == old(self)@,
                after == before.flags_reset(grid).clients,
                self.clients@.len() == before.clients.len(),
                self@ == (ServerView {
                    clients: after.take(i as int) + before.clients.skip(i as int),
                    ..before
                }),
            decreases self.clients@.len() - i,
        {
            let ghost here = self@;
            assert(self.clients@[i as int]@ == here.clients[i as int]);
            let joined: bool = self.clients[i].in_lobby();
            self.clients[i].racing = grid && joined;
            self.clients[i].ready = false;
            self.clients[i].finished = false;
            assert(self.clients@[i as int]@ == after[i as int]);
            assert(self@.clients =~= here.clients.update(i as int, after[i as int]));
            assert(self@.clients =~= after.take(i + 1) + before.clients.skip(i + 1));
            i = i + 1;
        }
        assert(self@.clients =~= after);
    }

    /// Do what a real host does on Start Race: mark the host ready, announce
    /// the race, then spawn one car per participant (host first) into every
    /// client's world, all on the ordered stream. The grid gate is satisfied
    /// separately by the host's grid confirm.
    pub fn start_race(&mut self, clock: Clock)
        requires
            old(self)@.wf(),
        ensures
            final(self)@ == old(self)@.race_started(clock),
            final(self)@.wf(),
    {
        let ghost before = self@;
        let msgs = self.start_messages();
        // Spawn and streamed state must agree on the host's pose.
        let pose = self.host_pose();
        let mut placed: Vec<u8> = Vec::new();
        put_pose(&mut placed, &pose);
        assert(placed@ =~= messages::pose_bytes(pose@));
        proof {
            messages::lemma_pose_bytes_width(pose@);
        }
        let mut state = self.host.state.clone();
        assert(state@ =~= before.host.state);
        let at: usize = state.len() - CAR_STATE_LEN;
        overwrite(&mut state, at, placed.as_slice());
        self.tell(Audience::Lobby, msgs.as_slice(), clock);
        self.reset_flags(true);
        self.host_state = state;
        self.race_go_at = None;
        self.racing = true;
        self.first_finish = None;
        self.race_end_at = None;
    }

    /// The phantom's state for this instant. A real car's state carries its
    /// sender clock and a "held at grid" flag that clears 3 s after RaceGo; a
    /// frozen copy left clients drawing the host as loose wheels.
    pub fn live_host_state(&self, clock: Clock) -> (payload: Vec<u8>)
        requires
            self@.host_state.len() >= CAR_STATE_LEN,
        ensures
            payload@ == self@.live_host_state(clock),
    {
        let mut payload = self.host_state.clone();
        assert(payload@ =~= self@.host_state);
        let at: usize = payload.len() - CAR_STATE_LEN;
        let held: bool = match self.race_go_at {
            None => true,
            Some(t) => elapsed(clock.now, t) < GRID_HOLD,
        };
        // The flag is one byte; patching four there would also overwrite the
        // low half of the f32 behind it.
        let flag: [u8; 1] = [if held { 1u8 } else { 0u8 }];
        assert(flag@ =~= bytes::bool_bytes(held));
        overwrite(&mut payload, at + CAR_STATE_GRID_HOLD, flag.as_slice());
        let mut seconds: Vec<u8> = Vec::new();
        put_u32(&mut seconds, clock.seconds);
        assert(seconds@ =~= le::u32_bytes(clock.seconds));
        overwrite(&mut payload, at + CAR_STATE_CLOCK, seconds.as_slice());
        payload
    }

    /// A client crossed the finish: record it and tell the others as the host
    /// does. [`Server::announce_finish`] does the rest.
    pub fn car_finished(&mut self, from: u64, finish: Finish, clock: Clock)
        requires
            old(self)@.wf(),
        ensures
            final(self)@ == old(self)@.crossed(from, finish, clock),
            final(self)@.wf(),
    {
        let ghost before = self@;
        let i: usize = self.seat(from);
        if i == self.clients.len() {
            return;
        }
        self.clients[i].finished = true;
        let ghost c = before.client(from);
        let ghost marked = before.with_client(i as int, ClientView { finished: true, ..c });
        assert(self.clients@[i as int]@ =~= ClientView { finished: true, ..c });
        assert(self@.clients =~= marked.clients);
        assert(self@.clients_wf());
        let relay = encode_car_crossed_finish(self.clients[i].id, &finish);
        self.tell_one(Audience::LobbyBut(from), relay, false, clock);
        if self.first_finish.is_none() {
            self.first_finish = Some(clock.now);
        }
    }

    /// How many cars have finished.
    fn finishers(&self) -> (n: usize)
        ensures
            n == self@.finishers(),
    {
        let ghost done = |c: ClientView| c.finished;
        let mut n: usize = 0;
        let mut i: usize = 0;
        proof {
            seqs::lemma_filter_none(self@.clients, done);
        }
        while i < self.clients.len()
            invariant
                done == (|c: ClientView| c.finished),
                n <= i <= self.clients@.len(),
                self.clients@.len() == self@.clients.len(),
                n == self@.clients.take(i as int).filter(done).len(),
            decreases self.clients@.len() - i,
        {
            assert(self.clients@[i as int]@ == self@.clients[i as int]);
            proof {
                seqs::lemma_filter_step(self@.clients, done, i as int);
            }
            if self.clients[i].finished {
                n = n + 1;
            }
            i = i + 1;
        }
        assert(self@.clients.take(i as int) =~= self@.clients);
        n
    }

    /// Announce the finish of `from` in chat, its race time as `shown`, and
    /// schedule the end once nobody is left racing. `host_time` is the time the
    /// phantom host is to finish with: the bits of an `f64`, a hair more than
    /// the race time.
    pub fn announce_finish(&mut self, from: u64, shown: &str, host_time: u64, clock: Clock)
        requires
            old(self)@.wf(),
            clock.now + RACE_END_DELAY <= u64::MAX,
        ensures
            final(self)@ == old(self)@.finish_announced(from, shown@, host_time, clock),
            final(self)@.wf(),
    {
        let ghost before = self@;
        let i: usize = self.seat(from);
        if i == self.clients.len() {
            return;
        }
        let place: usize = self.finishers();
        let mut line = String::new();
        push_text(&mut line, self.clients[i].name());
        push_text(&mut line, " finished P");
        push_decimal(&mut line, place as u64);
        push_text(&mut line, " in ");
        push_text(&mut line, shown);
        assert(line@ =~= before.client(from).name() + " finished P"@ + text::decimal(place as nat)
            + " in "@ + shown@);
        self.host_time = host_time;
        self.say_all(line.as_str(), clock);
        self.settle_finish(clock);
    }

    /// Whether every racer has finished.
    fn all_finished(&self) -> (r: bool)
        ensures
            r == self@.all_finished(),
    {
        let mut i: usize = 0;
        while i < self.clients.len()
            invariant
                i <= self.clients@.len(),
                self.clients@.len() == self@.clients.len(),
                forall|j: int|
                    0 <= j < i && (#[trigger] self@.clients[j]).racing ==> self@.clients[j].finished,
            decreases self.clients@.len() - i,
        {
            assert(self.clients@[i as int]@ == self@.clients[i as int]);
            if self.clients[i].racing && !self.clients[i].finished {
                return false;
            }
            i = i + 1;
        }
        true
    }

    /// Once every remaining racer has finished, the phantom host "finishes" too
    /// (so the results table shows no 0.000 row) and `RaceEnd` is scheduled.
    /// Called after a finish and after a racer leaves.
    pub fn settle_finish(&mut self, clock: Clock)
        requires
            old(self)@.wf(),
            clock.now + RACE_END_DELAY <= u64::MAX,
        ensures
            final(self)@ == old(self)@.settled(clock),
            final(self)@.wf(),
    {
        if !self.racing || self.race_end_at.is_some() || !self.all_finished() {
            return;
        }
        let finish = Finish {
            entity: HOST_ENTITY,
            generation: GENERATION,
            time_bits: self.host_time,
        };
        let host_finish = encode_car_crossed_finish(PlayerId::host(), &finish);
        self.tell_one(Audience::Lobby, host_finish, false, clock);
        self.race_end_at = Some(clock.now + RACE_END_DELAY);
    }

    /// Send everyone back to the lobby the way a real host does after the finish
    /// overlay: `RaceEnd`, then a fresh commit of the host garage. Clients
    /// answer with their own worn `GarageState`. Then rotate for the next race:
    /// the vote leader if anyone voted, else the next entry.
    pub fn end_race(&mut self, clock: Clock)
        requires
            old(self)@.wf(),
        ensures
            final(self)@ == old(self)@.race_ended(clock),
            final(self)@.wf(),
    {
        let ghost before = self@;
        let msgs: [Message; 2] = [
            Message { payload: encode_race_end(), ordered: true },
            Message {
                payload: encode_garage_commit(PlayerId::host(), self.host.garage.as_slice()),
                ordered: true,
            },
        ];
        assert(client::messages(msgs@) =~= seq![
            client::ordered(messages::tagged(Event::RaceEnd, seq![1u8])),
            client::ordered(messages::garage_commit_bytes(PlayerId::host(), before.host.garage)),
        ]);
        self.tell(Audience::Lobby, msgs.as_slice(), clock);
        self.reset_flags(false);
        self.racing = false;
        self.first_finish = None;
        self.race_end_at = None;
        let ghost closed = before.race_closed(clock);
        assert(self@ == closed);
        match self.vote_leader() {
            Some((index, votes)) => {
                let mut line = String::new();
                push_text(&mut line, "Vote won by ");
                push_text(&mut line, self.track(index).label().as_str());
                push_text(&mut line, " with ");
                push_decimal(&mut line, votes as u64);
                push_text(&mut line, " vote(s)");
                assert(line@ =~= closed.vote_won_line(index as int));
                self.say_all(line.as_str(), clock);
                self.set_map(index, clock);
            },
            None => {
                let next: usize = self.following();
                self.set_map(next, clock);
            },
        }
    }
}

} // verus!
