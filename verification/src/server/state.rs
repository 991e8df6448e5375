//! The state of the lobby, and how its members are reached.

use vstd::prelude::*;

use crate::frame;
use crate::frame::{encode_unreliable, FrameView};
use crate::link::{Datagram, DatagramView, Outbox, TICK};
use crate::messages::{GarageScene, RaceSettings};
use crate::player::PlayerId;
use crate::seqs;
use crate::server::client;
use crate::server::client::{Client, ClientView, Clock, Message, MessageView};
use crate::track::{Track, TrackView};

verus! {

/// Size of the car state inside `CarState`/`CarStateBroadcast`.
pub const CAR_STATE_LEN: usize = 94;

/// The bits of the `f64` 0.001: the time the phantom host "finishes" with before
/// anyone has finished.
pub const MILLISECOND_BITS: u64 = 0x3f50_624d_d2f1_a9fc;

/// The phantom host's car, captured from a real host: opaque to the server but
/// for the layout of its state.
pub struct HostCar {
    /// A stock car's `GarageState` payload.
    ///
    /// A joining client expects a garage commit for the host during the
    /// handshake; committing this stock body keeps the handshake complete
    /// without modelling vehicle state.
    pub garage: Vec<u8>,
    /// A `CarStateBroadcast` payload of the car sitting still at the grid; its
    /// last [`CAR_STATE_LEN`] bytes are the car state.
    pub state: Vec<u8>,
    /// What a visitor sees around the car.
    pub interior: GarageScene,
}

/// What a [`HostCar`] holds.
#[verifier::ext_equal]
pub struct HostCarView {
    pub garage: Seq<u8>,
    pub state: Seq<u8>,
    pub prefix: Seq<u8>,
    pub scene: Seq<u8>,
}

impl View for HostCar {
    type V = HostCarView;

    open spec fn view(&self) -> HostCarView {
        HostCarView {
            garage: self.garage@,
            state: self.state@,
            prefix: self.interior.prefix@,
            scene: self.interior.scene@,
        }
    }
}

/// A lobby and the race it may be in.
pub struct Server {
    /// Name shown over the host's car in the lobby.
    pub name: String,
    /// Tracks to race, in order; `map_index` is the one the lobby is on.
    pub maps: Vec<Track>,
    pub map_index: usize,
    /// Night, rain and the default lap count; a rotation entry may override
    /// the laps.
    pub settings: RaceSettings,
    /// Connected clients, in the order they came.
    pub clients: Vec<Client>,
    pub next_client_id: u32,
    /// Set when a race starts; cleared once everyone finished (or the grace ran
    /// out) and when the lobby empties.
    pub racing: bool,
    /// When the first car finished; starts the grace clock.
    pub first_finish: Option<u64>,
    /// Race time the phantom host "finishes" with, a hair behind the latest
    /// finisher, as the bits of an `f64`.
    pub host_time: u64,
    /// When to send `RaceEnd`, once finishing is settled.
    pub race_end_at: Option<u64>,
    /// `CarStateBroadcast` payload for the phantom's place on the current
    /// track; its clock and grid flag are patched per send.
    pub host_state: Vec<u8>,
    /// When `RaceGo` went out; the grid flag clears 3 s later like a real car.
    pub race_go_at: Option<u64>,
    /// When the next tick is due.
    pub next_tick: u64,
    /// When the phantom's next car state is due.
    pub next_car_state: u64,
    pub host: HostCar,
    /// Datagrams to be sent.
    pub outbox: Outbox,
    /// Chat lines the server said to the whole lobby, for the log.
    pub said: Vec<String>,
}

/// What a [`Server`] holds.
#[verifier::ext_equal]
pub struct ServerView {
    pub name: Seq<char>,
    pub maps: Seq<TrackView>,
    pub map_index: int,
    pub settings: RaceSettings,
    pub clients: Seq<ClientView>,
    pub next_client_id: u32,
    pub racing: bool,
    pub first_finish: Option<u64>,
    pub host_time: u64,
    pub race_end_at: Option<u64>,
    pub host_state: Seq<u8>,
    pub race_go_at: Option<u64>,
    pub next_tick: u64,
    pub next_car_state: u64,
    pub host: HostCarView,
    pub outbox: Seq<DatagramView>,
    pub said: Seq<Seq<char>>,
}

/// The lines of `v`, by their views.
pub open spec fn lines(v: Seq<String>) -> Seq<Seq<char>> {
    v.map_values(|s: String| s@)
}

/// The clients of `v`, by their views.
pub open spec fn client_views(v: Seq<Client>) -> Seq<ClientView> {
    v.map_values(|c: Client| c@)
}

/// The tracks of `v`, by their views.
pub open spec fn track_views(v: Seq<Track>) -> Seq<TrackView> {
    v.map_values(|t: Track| t@)
}

impl View for Server {
    type V = ServerView;

    open spec fn view(&self) -> ServerView {
        ServerView {
            name: self.name@,
            maps: track_views(self.maps@),
            map_index: self.map_index as int,
            settings: self.settings,
            clients: client_views(self.clients@),
            next_client_id: self.next_client_id,
            racing: self.racing,
            first_finish: self.first_finish,
            host_time: self.host_time,
            race_end_at: self.race_end_at,
            host_state: self.host_state@,
            race_go_at: self.race_go_at,
            next_tick: self.next_tick,
            next_car_state: self.next_car_state,
            host: self.host@,
            outbox: self.outbox@,
            said: lines(self.said@),
        }
    }
}

/// Whom a message is for.
#[derive(Debug, Clone, Copy, PartialEq, Eq, Structural)]
pub enum Audience {
    /// The client with this key, in the lobby or not.
    One(u64),
    /// Everyone in the lobby.
    Lobby,
    /// Everyone in the lobby but the client with this key.
    LobbyBut(u64),
    /// Every client, in the lobby or not.
    Everyone,
}

impl Audience {
    /// A message for this audience is for `c`.
    pub open spec fn has(self, c: ClientView) -> bool {
        match self {
            Audience::One(addr) => c.addr == addr,
            Audience::Lobby => c.in_lobby(),
            Audience::LobbyBut(addr) => c.in_lobby() && c.addr != addr,
            Audience::Everyone => true,
        }
    }

    /// Whether a message for this audience is for `c`.
    pub fn includes(self, c: &Client) -> (r: bool)
        ensures
            r == self.has(c@),
    {
        match self {
            Audience::One(addr) => c.addr == addr,
            Audience::Lobby => c.in_lobby(),
            Audience::LobbyBut(addr) => c.in_lobby() && c.addr != addr,
            Audience::Everyone => true,
        }
    }
}

/// The clients after those in the audience were told `msgs`.
pub open spec fn all_told(
    clients: Seq<ClientView>,
    to: Audience,
    msgs: Seq<MessageView>,
    clock: Clock,
) -> Seq<ClientView> {
    clients.map_values(
        |c: ClientView|
            if to.has(c) {
                c.told(msgs, clock)
            } else {
                c
            },
    )
}

/// The datagrams that tell the audience `msgs`, client by client.
pub open spec fn all_mail(
    clients: Seq<ClientView>,
    to: Audience,
    msgs: Seq<MessageView>,
    clock: Clock,
) -> Seq<DatagramView>
    decreases clients.len(),
{
    if clients.len() == 0 {
        Seq::empty()
    } else {
        all_mail(clients.drop_last(), to, msgs, clock) + (if to.has(clients.last()) {
            clients.last().mail(msgs, clock)
        } else {
            Seq::empty()
        })
    }
}

/// `bytes` to everyone in the audience, client by client.
pub open spec fn all_posted(clients: Seq<ClientView>, to: Audience, bytes: Seq<u8>) -> Seq<
    DatagramView,
>
    decreases clients.len(),
{
    if clients.len() == 0 {
        Seq::empty()
    } else {
        all_posted(clients.drop_last(), to, bytes) + (if to.has(clients.last()) {
            seq![DatagramView { to: clients.last().addr, bytes }]
        } else {
            Seq::empty()
        })
    }
}

/// The first client with the key `addr`; the number of clients where there is
/// none.
pub open spec fn seat_of(clients: Seq<ClientView>, addr: u64) -> int
    decreases clients.len(),
{
    if clients.len() == 0 || clients[0].addr == addr {
        0
    } else {
        1 + seat_of(clients.skip(1), addr)
    }
}

/// The first client with the id `id`; the number of clients where there is
/// none.
pub open spec fn seat_of_player(clients: Seq<ClientView>, id: PlayerId) -> int
    decreases clients.len(),
{
    if clients.len() == 0 || clients[0].id == id {
        0
    } else {
        1 + seat_of_player(clients.skip(1), id)
    }
}

/// A seat is inside, is that of the key, and there is none before it.
pub proof fn lemma_seat_of(clients: Seq<ClientView>, addr: u64)
    ensures
        0 <= seat_of(clients, addr) <= clients.len(),
        seat_of(clients, addr) < clients.len() ==> clients[seat_of(clients, addr)].addr == addr,
        forall|i: int| 0 <= i < seat_of(clients, addr) ==> (#[trigger] clients[i]).addr != addr,
    decreases clients.len(),
{
    if clients.len() > 0 && clients[0].addr != addr {
        let rest = clients.skip(1);
        lemma_seat_of(rest, addr);
        let p = seat_of(rest, addr);
        assert forall|i: int| 0 <= i < 1 + p implies (#[trigger] clients[i]).addr != addr by {
            if i > 0 {
                assert(rest[i - 1] == clients[i]);
            }
        }
        if p < rest.len() {
            assert(rest[p] == clients[1 + p]);
        }
    }
}

impl ServerView {
    /// The rotation has tracks, all of them sound, and the lobby is on one.
    pub open spec fn rotation_wf(self) -> bool {
        &&& 0 <= self.map_index < self.maps.len() <= usize::MAX
        &&& forall|i: int| 0 <= i < self.maps.len() ==> (#[trigger] self.maps[i]).wf()
    }

    /// Every client is sound, and no two share a key.
    pub open spec fn clients_wf(self) -> bool {
        &&& forall|i: int|
            0 <= i < self.clients.len() ==> (#[trigger] self.clients[i]).wf(self.maps.len())
        &&& forall|i: int, j: int|
            0 <= i < j < self.clients.len() ==> (#[trigger] self.clients[i]).addr
                != (#[trigger] self.clients[j]).addr
    }

    /// The phantom host's state is a whole car state while it is streamed.
    pub open spec fn host_wf(self) -> bool {
        &&& self.host.state.len() >= CAR_STATE_LEN
        &&& self.racing ==> self.host_state.len() >= CAR_STATE_LEN
    }

    /// What every operation keeps.
    pub open spec fn wf(self) -> bool {
        self.rotation_wf() && self.clients_wf() && self.host_wf()
    }

    /// The place of the client with the key `addr`; the number of clients where
    /// there is none.
    pub open spec fn seat(self, addr: u64) -> int {
        seat_of(self.clients, addr)
    }

    /// A client with the key `addr` is connected.
    pub open spec fn knows(self, addr: u64) -> bool {
        self.seat(addr) < self.clients.len()
    }

    /// The client with the key `addr`.
    pub open spec fn client(self, addr: u64) -> ClientView {
        self.clients[self.seat(addr)]
    }

    /// The client with the key `addr` is connected and in the lobby.
    pub open spec fn hosts(self, addr: u64) -> bool {
        self.knows(addr) && self.client(addr).in_lobby()
    }

    /// With the client at `i` replaced.
    pub open spec fn with_client(self, i: int, c: ClientView) -> ServerView {
        ServerView { clients: self.clients.update(i, c), ..self }
    }

    /// How many clients the audience has.
    pub open spec fn size(self, to: Audience) -> nat {
        self.clients.filter(|c: ClientView| to.has(c)).len()
    }

    /// With the audience told `msgs`.
    pub open spec fn told(self, to: Audience, msgs: Seq<MessageView>, clock: Clock) -> ServerView {
        ServerView {
            clients: all_told(self.clients, to, msgs, clock),
            outbox: self.outbox + all_mail(self.clients, to, msgs, clock),
            ..self
        }
    }

    /// With `bytes` sent to the audience, unreliably.
    pub open spec fn posted(self, to: Audience, bytes: Seq<u8>) -> ServerView {
        ServerView { outbox: self.outbox + all_posted(self.clients, to, bytes), ..self }
    }

    /// With one datagram sent to `addr`.
    pub open spec fn sent(self, addr: u64, bytes: Seq<u8>) -> ServerView {
        ServerView { outbox: self.outbox.push(DatagramView { to: addr, bytes }), ..self }
    }
}

/// The datagram that carries `payload` unreliably.
pub open spec fn loose(payload: Seq<u8>) -> Seq<u8> {
    frame::frame_bytes(FrameView::Unreliable(payload))
}

/// Telling an audience something keeps the server sound, and what it knows of
/// its clients but for the packets on their way.
pub proof fn lemma_told_keeps(s: ServerView, to: Audience, msgs: Seq<MessageView>, clock: Clock)
    ensures
        s.told(to, msgs, clock).clients.len() == s.clients.len(),
        forall|i: int|
            0 <= i < s.clients.len() ==> (#[trigger] s.told(to, msgs, clock).clients[i]) == (
            ClientView { out: s.told(to, msgs, clock).clients[i].out, ..s.clients[i] }),
        forall|addr: u64| #[trigger] s.told(to, msgs, clock).seat(addr) == s.seat(addr),
        s.wf() ==> s.told(to, msgs, clock).wf(),
{
    let after = s.told(to, msgs, clock);
    assert forall|i: int| 0 <= i < s.clients.len() implies (#[trigger] after.clients[i]) == (
    ClientView { out: after.clients[i].out, ..s.clients[i] }) by {
        client::lemma_told_keeps(s.clients[i], msgs, clock);
    }
    assert forall|addr: u64| #[trigger] after.seat(addr) == s.seat(addr) by {
        lemma_same_seat(s.clients, after.clients, addr);
    }
}

/// Clients with the same keys have the same seats.
pub proof fn lemma_same_seat(a: Seq<ClientView>, b: Seq<ClientView>, addr: u64)
    requires
        a.len() == b.len(),
        forall|i: int| 0 <= i < a.len() ==> (#[trigger] a[i]).addr == b[i].addr,
    ensures
        seat_of(a, addr) == seat_of(b, addr),
{
    lemma_seat_of(a, addr);
    lemma_seat_of(b, addr);
    let i = seat_of(a, addr);
    let j = seat_of(b, addr);
    if i < j {
        assert(b[i].addr != addr);
        assert(a[i].addr == b[i].addr);
    } else if j < i {
        assert(a[j].addr != addr);
        assert(a[j].addr == b[j].addr);
    }
}

impl Server {
    pub fn new(
        name: String,
        maps: Vec<Track>,
        settings: RaceSettings,
        host: HostCar,
        clock: Clock,
    ) -> (s: Server)
        requires
            maps@.len() > 0,
            forall|i: int| 0 <= i < maps@.len() ==> (#[trigger] maps@[i])@.wf(),
            host@.state.len() >= CAR_STATE_LEN,
            clock.now + TICK <= u64::MAX,
        ensures
            s@.wf(),
            s@ == (ServerView {
                name: name@,
                maps: track_views(maps@),
                map_index: 0,
                settings,
                clients: Seq::empty(),
                next_client_id: 1,
                racing: false,
                first_finish: None,
                host_time: MILLISECOND_BITS,
                race_end_at: None,
                host_state: Seq::empty(),
                race_go_at: None,
                next_tick: (clock.now + TICK) as u64,
                next_car_state: clock.now,
                host: host@,
                outbox: Seq::empty(),
                said: Seq::empty(),
            }),
    {
        let count: usize = maps.len();
        let s = Server {
            name,
            maps,
            map_index: 0,
            settings,
            clients: Vec::new(),
            next_client_id: 1,
            racing: false,
            first_finish: None,
            host_time: MILLISECOND_BITS,
            race_end_at: None,
            host_state: Vec::new(),
            race_go_at: None,
            next_tick: clock.now + TICK,
            next_car_state: clock.now,
            host,
            outbox: Outbox::new(),
            said: Vec::new(),
        };
        assert(s@.clients =~= Seq::empty());
        assert(s@.host_state =~= Seq::empty());
        assert(s@.said =~= Seq::empty());
        assert(s@.maps.len() == count);
        s
    }

    /// The place of the client with the key `addr`; the number of clients where
    /// there is none.
    pub fn seat(&self, addr: u64) -> (i: usize)
        ensures
            i == self@.seat(addr),
            i <= self.clients@.len(),
            self.clients@.len() == self@.clients.len(),
            i < self.clients@.len() ==> self.clients@[i as int]@ == self@.client(addr)
                && self.clients@[i as int].addr == addr,
    {
        let mut i: usize = 0;
        assert(self@.clients.skip(0) =~= self@.clients);
        while i < self.clients.len()
            invariant
                i <= self.clients@.len(),
                self.clients@.len() == self@.clients.len(),
                self@.seat(addr) == i + seat_of(self@.clients.skip(i as int), addr),
            decreases self.clients@.len() - i,
        {
            assert(self.clients@[i as int]@ == self@.clients[i as int]);
            if self.clients[i].addr == addr {
                return i;
            }
            assert(self@.clients.skip(i as int).skip(1) =~= self@.clients.skip(i + 1));
            i = i + 1;
        }
        i
    }

    /// The place of the client with the id `id`; the number of clients where
    /// there is none.
    pub fn seat_of_player(&self, id: PlayerId) -> (i: usize)
        ensures
            i == seat_of_player(self@.clients, id),
            i <= self.clients@.len(),
            self.clients@.len() == self@.clients.len(),
            i < self.clients@.len() ==> self.clients@[i as int]@ == self@.clients[i as int],
    {
        let mut i: usize = 0;
        assert(self@.clients.skip(0) =~= self@.clients);
        while i < self.clients.len()
            invariant
                i <= self.clients@.len(),
                self.clients@.len() == self@.clients.len(),
                seat_of_player(self@.clients, id) == i + seat_of_player(
                    self@.clients.skip(i as int),
                    id,
                ),
            decreases self.clients@.len() - i,
        {
            assert(self.clients@[i as int]@ == self@.clients[i as int]);
            if self.clients[i].id == id {
                return i;
            }
            assert(self@.clients.skip(i as int).skip(1) =~= self@.clients.skip(i + 1));
            i = i + 1;
        }
        i
    }

    /// How many clients the audience has.
    pub fn size(&self, to: Audience) -> (n: usize)
        ensures
            n == self@.size(to),
    {
        let ghost in_audience = |c: ClientView| to.has(c);
        let mut n: usize = 0;
        let mut i: usize = 0;
        proof {
            seqs::lemma_filter_none(self@.clients, in_audience);
        }
        while i < self.clients.len()
            invariant
                in_audience == (|c: ClientView| to.has(c)),
                n <= i <= self.clients@.len(),
                self.clients@.len() == self@.clients.len(),
                n == self@.clients.take(i as int).filter(in_audience).len(),
            decreases self.clients@.len() - i,
        {
            assert(self.clients@[i as int]@ == self@.clients[i as int]);
            proof {
                seqs::lemma_filter_step(self@.clients, in_audience, i as int);
            }
            if to.includes(&self.clients[i]) {
                n = n + 1;
            }
            i = i + 1;
        }
        assert(self@.clients.take(i as int) =~= self@.clients);
        n
    }

    /// Tell the audience `msgs`: queue them for each client in it.
    pub fn tell(&mut self, to: Audience, msgs: &[Message], clock: Clock)
        ensures
            final(self)@ == old(self)@.told(to, client::messages(msgs@), clock),
            old(self)@.wf() ==> final(self)@.wf(),
    {
        let ghost before = self@;
        let ghost all = client::messages(msgs@);
        let ghost after = all_told(before.clients, to, all, clock);
        let mut i: usize = 0;
        assert(before.clients.take(0) =~= Seq::empty());
        assert(self@.clients =~= after.take(0) + before.clients.skip(0));
        assert(self@.outbox =~= before.outbox + all_mail(before.clients.take(0), to, all, clock));
        while i < self.clients.len()
            invariant
                i <= self.clients@.len(),
                before == old(self)@,
                all == client::messages(msgs@),
                after == all_told(before.clients, to, all, clock),
                self.clients@.len() == before.clients.len(),
                self@ == (ServerView {
                    clients: after.take(i as int) + before.clients.skip(i as int),
                    outbox: before.outbox + all_mail(
                        before.clients.take(i as int),
                        to,
                        all,
                        clock,
                    ),
                    ..before
                }),
            decreases self.clients@.len() - i,
        {
            let ghost here = self@;
            proof {
                assert(self.clients@[i as int]@ == here.clients[i as int]);
                assert(here.clients[i as int] == before.clients[i as int]);
                assert(before.clients.take(i + 1).drop_last() =~= before.clients.take(i as int));
                assert(before.clients.take(i + 1).last() == before.clients[i as int]);
            }
            if to.includes(&self.clients[i]) {
                self.clients[i].tell(msgs, clock, &mut self.outbox);
                assert(self.clients@[i as int]@ == after[i as int]);
            }
            assert(self@.clients =~= here.clients.update(i as int, after[i as int]));
            assert(self@.clients =~= after.take(i + 1) + before.clients.skip(i + 1));
            assert(self@.outbox =~= before.outbox + all_mail(
                before.clients.take(i + 1),
                to,
                all,
                clock,
            ));
            i = i + 1;
        }
        assert(before.clients.take(i as int) =~= before.clients);
        assert(self@.clients =~= after);
        proof {
            lemma_told_keeps(before, to, all, clock);
        }
    }

    /// Send `payload` to the audience, unreliably.
    pub fn post(&mut self, to: Audience, payload: &[u8])
        ensures
            final(self)@ == old(self)@.posted(to, loose(payload@)),
            old(self)@.wf() ==> final(self)@.wf(),
    {
        let ghost before = self@;
        let ghost bytes = loose(payload@);
        let mut i: usize = 0;
        assert(before.clients.take(0) =~= Seq::empty());
        assert(self@.outbox =~= before.outbox + all_posted(before.clients.take(0), to, bytes));
        while i < self.clients.len()
            invariant
                i <= self.clients@.len(),
                before == old(self)@,
                bytes == loose(payload@),
                self.clients@.len() == before.clients.len(),
                client_views(self.clients@) == before.clients,
                self@ == (ServerView {
                    outbox: before.outbox + all_posted(before.clients.take(i as int), to, bytes),
                    ..before
                }),
            decreases self.clients@.len() - i,
        {
            proof {
                assert(self.clients@[i as int]@ == before.clients[i as int]);
                assert(before.clients.take(i + 1).drop_last() =~= before.clients.take(i as int));
                assert(before.clients.take(i + 1).last() == before.clients[i as int]);
            }
            if to.includes(&self.clients[i]) {
                self.outbox.send(self.clients[i].addr, encode_unreliable(payload));
            }
            assert(self@.outbox =~= before.outbox + all_posted(
                before.clients.take(i + 1),
                to,
                bytes,
            ));
            i = i + 1;
        }
        assert(before.clients.take(i as int) =~= before.clients);
    }

    /// Hand out the datagrams to be sent.
    pub fn drain(&mut self) -> (mail: Vec<Datagram>)
        ensures
            mail@.map_values(|d: Datagram| d@) == old(self)@.outbox,
            final(self)@ == (ServerView { outbox: Seq::empty(), ..old(self)@ }),
            old(self)@.wf() ==> final(self)@.wf(),
    {
        self.outbox.drain()
    }

    /// Hand out what was said to the whole lobby.
    pub fn take_said(&mut self) -> (said: Vec<String>)
        ensures
            lines(said@) == old(self)@.said,
            final(self)@ == (ServerView { said: Seq::empty(), ..old(self)@ }),
            old(self)@.wf() ==> final(self)@.wf(),
    {
        let mut said: Vec<String> = Vec::new();
        std::mem::swap(&mut said, &mut self.said);
        assert(self@.said =~= Seq::empty());
        said
    }
}

} // verus!
