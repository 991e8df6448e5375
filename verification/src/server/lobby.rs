//! Joining, readying up, and leaving.

use vstd::prelude::*;

use crate::event::Event;
use crate::messages;
use crate::messages::{
    decode_disconnect, decode_ready, encode_garage_commit, encode_player_left, encode_race_go,
    encode_ready_broadcast,
};
use crate::player;
use crate::player::{
    ClientInfo, PlayerId, PlayerInfo, PlayerInfoView, ServerInfo, ServerInfoView,
};
use crate::seqs;
use crate::server::client;
use crate::server::client::{ClientView, Clock, Message, MessageView};
use crate::server::note;
use crate::server::note::{Note, NoteView};
use crate::server::race::RACE_END_DELAY;
use crate::server::state::{Audience, Server, ServerView};
use crate::text::push_text;

verus! {

/// `AvatarState` as every real host and client has sent it; opaque here.
pub open spec fn blank_avatar() -> Seq<u8> {
    seq![0u8, 0u8, 0u8, 0u8, 0u8]
}

/// A client's entry in the lobby's player list.
pub open spec fn entry_of(c: ClientView) -> PlayerInfoView {
    PlayerInfoView { id: c.id, name: c.name(), avatar: blank_avatar() }
}

/// The commit of a client's garage.
pub open spec fn commit_of(c: ClientView) -> MessageView {
    client::unordered(messages::garage_commit_bytes(c.id, c.garage->Some_0))
}

impl ServerView {
    /// Lobby members with another id than `id`.
    pub open spec fn others(self, id: PlayerId) -> Seq<ClientView> {
        self.clients.filter(|c: ClientView| c.id != id && c.in_lobby())
    }

    /// Lobby description for a joining client, in a real host's order: everyone
    /// already joined, then the host itself (a client stalls at "Connecting"
    /// without the host entry).
    pub open spec fn server_info(self, id: PlayerId) -> ServerInfoView {
        ServerInfoView {
            players: self.others(id).map_values(|c: ClientView| entry_of(c)).push(
                PlayerInfoView {
                    id: PlayerId::host(),
                    name: self.name,
                    avatar: blank_avatar(),
                },
            ),
            applicant: id,
            host: PlayerId::host(),
            map: self.map().name,
            variant: self.map().variant,
            enabled_mods: Seq::empty(),
        }
    }

    /// The garages of the host and of everyone already joined.
    pub open spec fn commits(self, id: PlayerId) -> Seq<MessageView> {
        seq![
            client::unordered(
                messages::garage_commit_bytes(PlayerId::host(), self.host.garage),
            ),
        ] + self.others(id).map_values(|c: ClientView| commit_of(c))
    }

    /// With `from`'s identity taken, and what became of it. As a real host does:
    /// the newcomer hears of the lobby, the host's garage, and the garage of
    /// every player already in it; existing members are told about the newcomer
    /// now, its garage follows once it arrives.
    pub open spec fn introduced(self, from: u64, payload: Seq<u8>, clock: Clock) -> (
        ServerView,
        Option<NoteView>,
    ) {
        match player::read_client_info(payload) {
            Err(error) => (self, Some(NoteView::BadEvent { what: "ClientInfo", error })),
            Ok((info, _)) => {
                let id = self.client(from).id;
                let named = self.with_client(
                    self.seat(from),
                    ClientView { info: Some(info), ..self.client(from) },
                );
                let description = client::unordered(
                    player::server_info_bytes(named.server_info(id)),
                );
                (
                    named.told(
                        Audience::One(from),
                        seq![description] + named.commits(id),
                        clock,
                    ).told(
                        Audience::LobbyBut(from),
                        seq![client::unordered(player::joined_bytes(id, info))],
                        clock,
                    ),
                    Some(NoteView::LobbyDescribed { commits: named.commits(id).len() as usize }),
                )
            },
        }
    }

    /// With `from`'s garage taken, and what became of it. The garage completes
    /// the join, and comes again after each race with worn conditions; it is
    /// kept and committed to everyone else. A newcomer hears what is raced next.
    pub open spec fn garaged(self, from: u64, payload: Seq<u8>, clock: Clock) -> (
        ServerView,
        Option<NoteView>,
    ) {
        let c = self.client(from);
        let parked = self.with_client(
            self.seat(from),
            ClientView { garage: Some(payload), ..c },
        ).told(
            Audience::LobbyBut(from),
            seq![client::ordered(messages::garage_commit_bytes(c.id, payload))],
            clock,
        );
        (
            if c.in_lobby() {
                parked
            } else {
                parked.said(
                    from,
                    "Next race: "@ + parked.describe(parked.upcoming())
                        + ". Chat !help for commands."@,
                    clock,
                )
            },
            Some(NoteView::GarageCommitted { peers: self.size(Audience::LobbyBut(from)) as usize }),
        )
    }

    /// Every racer has confirmed at the grid.
    pub open spec fn all_confirmed(self) -> bool {
        forall|i: int|
            0 <= i < self.clients.len() && (#[trigger] self.clients[i]).racing
                ==> self.clients[i].ready
    }

    /// There is a lobby, and everyone in it is ready.
    pub open spec fn everyone_ready(self) -> bool {
        &&& exists|i: int| 0 <= i < self.clients.len() && (#[trigger] self.clients[i]).in_lobby()
        &&& forall|i: int|
            0 <= i < self.clients.len() && (#[trigger] self.clients[i]).in_lobby()
                ==> self.clients[i].ready
    }

    /// With the countdown started: the host confirms, and the race goes.
    pub open spec fn gone(self, clock: Clock) -> ServerView {
        ServerView {
            race_go_at: Some(clock.now),
            ..self.told(
                Audience::Lobby,
                seq![
                    client::ordered(messages::ready_broadcast_bytes(PlayerId::host(), true)),
                    client::unordered(messages::tagged(Event::RaceGo, Seq::empty())),
                ],
                clock,
            )
        }
    }

    /// With `from`'s Ready taken, and what became of it. In the lobby the race
    /// starts once everyone is ready. In a race it is the grid confirm: the
    /// phantom host confirms the moment the last racer does. A late joiner's
    /// Ready just waits.
    pub open spec fn readied(self, from: u64, payload: Seq<u8>, clock: Clock) -> (
        ServerView,
        Option<NoteView>,
    ) {
        match messages::read_ready(payload) {
            Err(error) => (self, Some(NoteView::BadEvent { what: "Ready", error })),
            Ok((ready, _)) => {
                let c = self.client(from);
                let peers = self.size(Audience::LobbyBut(from)) as usize;
                let marked = self.with_client(
                    self.seat(from),
                    ClientView { ready, ..c },
                ).told(
                    Audience::LobbyBut(from),
                    seq![client::ordered(messages::ready_broadcast_bytes(c.id, ready))],
                    clock,
                );
                if self.racing {
                    if !c.racing {
                        (marked, Some(NoteView::ReadyDuringRace { ready, peers }))
                    } else if c.ready != ready && marked.all_confirmed() {
                        (marked.gone(clock), Some(NoteView::EveryoneConfirmed { ready }))
                    } else {
                        (marked, Some(NoteView::GridConfirmed { ready, peers }))
                    }
                } else if marked.everyone_ready() {
                    (marked.race_started(clock), Some(NoteView::RaceStarted { ready }))
                } else {
                    (marked, Some(NoteView::ReadyChanged { ready, peers }))
                }
            },
        }
    }

    /// With the client forgotten, and the lobby told that its slot is gone, if
    /// it ever had one. A race nobody is left in ends; the leaver may have been
    /// the last one still driving.
    pub open spec fn removed(self, addr: u64, clock: Clock) -> ServerView {
        if !self.knows(addr) {
            self
        } else {
            let c = self.client(addr);
            let without = ServerView { clients: self.clients.remove(self.seat(addr)), ..self };
            let heard = if c.in_lobby() {
                without.told(
                    Audience::Lobby,
                    seq![client::unordered(messages::player_left_bytes(c.id))],
                    clock,
                )
            } else {
                without
            };
            if heard.racing && heard.size(Audience::Lobby) == 0 {
                heard.race_ended(clock)
            } else if heard.racing {
                heard.settled(clock)
            } else {
                heard
            }
        }
    }

    /// With `from` gone at its own wish, and what became of it.
    pub open spec fn disconnected(self, from: u64, payload: Seq<u8>, clock: Clock) -> (
        ServerView,
        Option<NoteView>,
    ) {
        let reason = match messages::read_disconnect(payload) {
            Ok((reason, _)) => reason,
            Err(_) => 0,
        };
        (self.removed(from, clock), Some(NoteView::Disconnected { reason }))
    }
}

impl Server {
    /// The player list for a joining client, and the garages it needs.
    #[verifier::rlimit(30)]
    fn roll_call(&self, id: PlayerId) -> (r: (ServerInfo, Vec<Message>))
        requires
            self@.rotation_wf(),
        ensures
            r.0@ == self@.server_info(id),
            client::messages(r.1@) == self@.commits(id),
    {
        let ghost other = |c: ClientView| c.id != id && c.in_lobby();
        let ghost entry = |c: ClientView| entry_of(c);
        let ghost commit = |c: ClientView| commit_of(c);
        let ghost all = self@.clients;
        let ghost host_commit = client::unordered(
            messages::garage_commit_bytes(PlayerId::host(), self@.host.garage),
        );
        let mut players: Vec<PlayerInfo> = Vec::new();
        let mut commits: Vec<Message> = Vec::new();
        commits.push(
            Message {
                payload: encode_garage_commit(PlayerId::host(), self.host.garage.as_slice()),
                ordered: false,
            },
        );
        let mut i: usize = 0;
        proof {
            seqs::lemma_filter_none(all, other);
            assert(players@.map_values(|p: PlayerInfo| p@) =~= all.take(0).filter(other).map_values(
                entry,
            ));
            assert(client::messages(commits@) =~= seq![host_commit] + all.take(0).filter(
                other,
            ).map_values(commit));
        }
        while i < self.clients.len()
            invariant
                i <= self.clients@.len(),
                self.clients@.len() == self@.clients.len(),
                all == self@.clients,
                other == (|c: ClientView| c.id != id && c.in_lobby()),
                entry == (|c: ClientView| entry_of(c)),
                commit == (|c: ClientView| commit_of(c)),
                players@.map_values(|p: PlayerInfo| p@) == all.take(i as int).filter(
                    other,
                ).map_values(entry),
                client::messages(commits@) == seq![host_commit] + all.take(i as int).filter(
                    other,
                ).map_values(commit),
            decreases self.clients@.len() - i,
        {
            let ghost listed = players@.map_values(|p: PlayerInfo| p@);
            let ghost committed = client::messages(commits@);
            let ghost before = all.take(i as int).filter(other);
            let ghost grown = all.take(i + 1).filter(other);
            proof {
                seqs::lemma_filter_step(all, other, i as int);
            }
            let c = &self.clients[i];
            assert(c@ == all[i as int]);
            if c.id != id {
                if let Some(garage) = &c.garage {
                    let mut name = String::new();
                    push_text(&mut name, c.name());
                    assert(name@ =~= c@.name());
                    let p = PlayerInfo { id: c.id, name, avatar: [0, 0, 0, 0, 0] };
                    let ghost shown = p@;
                    assert(shown =~= entry_of(c@)) by {
                        assert(p.avatar@ =~= blank_avatar());
                    }
                    players.push(p);
                    let m = Message {
                        payload: encode_garage_commit(c.id, garage.as_slice()),
                        ordered: false,
                    };
                    let ghost sent = m@;
                    commits.push(m);
                    proof {
                        assert(grown == before.push(c@));
                        assert(players@.map_values(|p: PlayerInfo| p@) =~= listed.push(shown));
                        assert(grown.map_values(entry) =~= before.map_values(entry).push(
                            entry_of(c@),
                        ));
                        assert(client::messages(commits@) =~= committed.push(sent));
                        assert(grown.map_values(commit) =~= before.map_values(commit).push(
                            commit_of(c@),
                        ));
                        assert(client::messages(commits@) =~= seq![host_commit]
                            + grown.map_values(commit));
                    }
                }
            }
            i = i + 1;
        }
        assert(all.take(i as int) =~= all);
        let ghost listed = players@.map_values(|p: PlayerInfo| p@);
        let mut name = String::new();
        push_text(&mut name, self.name.as_str());
        assert(name@ =~= self.name@);
        let host = PlayerInfo { id: PlayerId::host(), name, avatar: [0, 0, 0, 0, 0] };
        assert(host.avatar@ =~= blank_avatar());
        let ghost last = host@;
        players.push(host);
        let mut map = String::new();
        push_text(&mut map, self.map().name.as_str());
        assert(map@ =~= self@.map().name);
        let info = ServerInfo {
            players,
            applicant: id,
            host: PlayerId::host(),
            map,
            variant: self.map().variant,
            enabled_mods: Vec::new(),
        };
        proof {
            assert(info@.players =~= listed.push(last));
            assert(info@.players =~= self@.server_info(id).players);
            assert(info@.enabled_mods =~= Seq::empty());
            assert(info@ =~= self@.server_info(id));
        }
        (info, commits)
    }

    /// A client identifies itself: describe the lobby to it, commit the host
    /// garage, then one commit per player already in it, all retransmitted until
    /// acked. Existing members are told about the newcomer now; its garage
    /// follows once it arrives.
    pub fn introduce(&mut self, from: u64, payload: &[u8], clock: Clock) -> (note: Option<Note>)
        requires
            old(self)@.wf(),
            old(self)@.knows(from),
        ensures
            (final(self)@, note::noted(note)) == old(self)@.introduced(from, payload@, clock),
            final(self)@.wf(),
    {
        let ghost before = self@;
        let info = match ClientInfo::decode(payload) {
            Ok(info) => info,
            Err(error) => return Some(Note::BadEvent { what: "ClientInfo", error }),
        };
        let i: usize = self.seat(from);
        let id = self.clients[i].id;
        let joined = info.encode_joined(id);
        let ghost shown = info@;
        self.clients[i].info = Some(info);
        let ghost named = before.with_client(
            i as int,
            ClientView { info: Some(shown), ..before.client(from) },
        );
        assert(self.clients@[i as int]@ =~= named.clients[i as int]);
        assert(self@.clients =~= named.clients);
        assert(self@.clients_wf());
        let (description, garages) = self.roll_call(id);
        let commits: usize = garages.len();
        let mut msgs: Vec<Message> = Vec::new();
        msgs.push(Message { payload: description.encode(), ordered: false });
        let ghost head = client::unordered(player::server_info_bytes(named.server_info(id)));
        assert(client::messages(msgs@) =~= seq![head]);
        let mut garages = garages;
        let ghost rest = client::messages(garages@);
        assert(rest == named.commits(id));
        assert(rest.len() == commits);
        msgs.append(&mut garages);
        assert(client::messages(msgs@) =~= seq![head] + rest);
        self.tell(Audience::One(from), msgs.as_slice(), clock);
        self.tell_one(Audience::LobbyBut(from), joined, false, clock);
        Some(Note::LobbyDescribed { commits })
    }

    /// A client's garage completes the join, and comes again after each race
    /// with worn conditions. Its body is opaque here; it is kept so it can be
    /// committed to everyone else, which is how they see the newcomer's (or
    /// refreshed) car.
    pub fn take_garage(&mut self, from: u64, payload: Vec<u8>, clock: Clock) -> (note: Option<Note>)
        requires
            old(self)@.wf(),
            old(self)@.knows(from),
        ensures
            (final(self)@, note::noted(note)) == old(self)@.garaged(from, payload@, clock),
            final(self)@.wf(),
    {
        let ghost before = self@;
        let ghost body = payload@;
        let peers: usize = self.size(Audience::LobbyBut(from));
        let i: usize = self.seat(from);
        let joining: bool = !self.clients[i].in_lobby();
        let commit = encode_garage_commit(self.clients[i].id, payload.as_slice());
        self.clients[i].garage = Some(payload);
        let ghost kept = before.with_client(
            i as int,
            ClientView { garage: Some(body), ..before.client(from) },
        );
        assert(self.clients@[i as int]@ =~= kept.clients[i as int]);
        assert(self@.clients =~= kept.clients);
        assert(self@.clients_wf());
        self.tell_one(Audience::LobbyBut(from), commit, true, clock);
        if joining {
            let ghost parked = self@;
            let mut line = String::new();
            push_text(&mut line, "Next race: ");
            push_text(&mut line, self.describe(self.upcoming()).as_str());
            push_text(&mut line, ". Chat !help for commands.");
            assert(line@ =~= "Next race: "@ + parked.describe(parked.upcoming())
                + ". Chat !help for commands."@);
            self.say(from, line.as_str(), clock);
        }
        Some(Note::GarageCommitted { peers })
    }

    /// Whether every racer has confirmed at the grid.
    fn all_confirmed(&self) -> (r: bool)
        ensures
            r == self@.all_confirmed(),
    {
        let mut i: usize = 0;
        while i < self.clients.len()
            invariant
                i <= self.clients@.len(),
                self.clients@.len() == self@.clients.len(),
                forall|j: int|
                    0 <= j < i && (#[trigger] self@.clients[j]).racing ==> self@.clients[j].ready,
            decreases self.clients@.len() - i,
        {
            assert(self.clients@[i as int]@ == self@.clients[i as int]);
            if self.clients[i].racing && !self.clients[i].ready {
                return false;
            }
            i = i + 1;
        }
        true
    }

    /// Whether there is a lobby, and everyone in it is ready.
    fn everyone_ready(&self) -> (r: bool)
        ensures
            r == self@.everyone_ready(),
    {
        let mut joined: bool = false;
        let mut i: usize = 0;
        while i < self.clients.len()
            invariant
                i <= self.clients@.len(),
                self.clients@.len() == self@.clients.len(),
                joined == (exists|j: int|
                    0 <= j < i && (#[trigger] self@.clients[j]).in_lobby()),
                forall|j: int|
                    0 <= j < i && (#[trigger] self@.clients[j]).in_lobby()
                        ==> self@.clients[j].ready,
            decreases self.clients@.len() - i,
        {
            assert(self.clients@[i as int]@ == self@.clients[i as int]);
            if self.clients[i].in_lobby() {
                if !self.clients[i].ready {
                    return false;
                }
                joined = true;
            }
            i = i + 1;
        }
        joined
    }

    /// Start the countdown.
    fn go(&mut self, clock: Clock)
        ensures
            final(self)@ == old(self)@.gone(clock),
            old(self)@.wf() ==> final(self)@.wf(),
    {
        let msgs: [Message; 2] = [
            Message { payload: encode_ready_broadcast(PlayerId::host(), true), ordered: true },
            Message { payload: encode_race_go(), ordered: false },
        ];
        assert(client::messages(msgs@) =~= seq![
            client::ordered(messages::ready_broadcast_bytes(PlayerId::host(), true)),
            client::unordered(messages::tagged(Event::RaceGo, Seq::empty())),
        ]);
        self.tell(Audience::Lobby, msgs.as_slice(), clock);
        self.race_go_at = Some(clock.now);
    }

    /// A client's Ready: the lobby checkbox, or the "press any button" grid
    /// confirm.
    pub fn take_ready(&mut self, from: u64, payload: &[u8], clock: Clock) -> (note: Option<Note>)
        requires
            old(self)@.wf(),
            old(self)@.knows(from),
        ensures
            (final(self)@, note::noted(note)) == old(self)@.readied(from, payload@, clock),
            final(self)@.wf(),
    {
        let ghost before = self@;
        let ready: bool = match decode_ready(payload) {
            Ok(ready) => ready,
            Err(error) => return Some(Note::BadEvent { what: "Ready", error }),
        };
        let peers: usize = self.size(Audience::LobbyBut(from));
        let i: usize = self.seat(from);
        let changed: bool = self.clients[i].ready != ready;
        let racer: bool = self.clients[i].racing;
        let broadcast = encode_ready_broadcast(self.clients[i].id, ready);
        self.clients[i].ready = ready;
        let ghost set = before.with_client(
            i as int,
            ClientView { ready, ..before.client(from) },
        );
        assert(self.clients@[i as int]@ =~= set.clients[i as int]);
        assert(self@.clients =~= set.clients);
        assert(self@.clients_wf());
        self.tell_one(Audience::LobbyBut(from), broadcast, true, clock);
        if self.racing {
            if !racer {
                return Some(Note::ReadyDuringRace { ready, peers });
            }
            if changed && self.all_confirmed() {
                self.go(clock);
                return Some(Note::EveryoneConfirmed { ready });
            }
            return Some(Note::GridConfirmed { ready, peers });
        }
        if self.everyone_ready() {
            self.start_race(clock);
            return Some(Note::RaceStarted { ready });
        }
        Some(Note::ReadyChanged { ready, peers })
    }

    /// Forget a client and tell the lobby its slot is gone, if it ever had one.
    pub fn remove_client(&mut self, addr: u64, clock: Clock)
        requires
            old(self)@.wf(),
            clock.now + RACE_END_DELAY <= u64::MAX,
        ensures
            final(self)@ == old(self)@.removed(addr, clock),
            final(self)@.wf(),
    {
        let ghost before = self@;
        let i: usize = self.seat(addr);
        if i == self.clients.len() {
            return;
        }
        let id = self.clients[i].id;
        let joined: bool = self.clients[i].in_lobby();
        let _ = self.clients.remove(i);
        let ghost without = ServerView { clients: before.clients.remove(i as int), ..before };
        assert(self@.clients =~= without.clients);
        proof {
            lemma_removal_keeps(before, i as int);
        }
        if joined {
            self.tell_one(Audience::Lobby, encode_player_left(id), false, clock);
        }
        if self.racing && self.size(Audience::Lobby) == 0 {
            self.end_race(clock);
        } else if self.racing {
            // The leaver may have been the last one still driving.
            self.settle_finish(clock);
        }
    }

    /// A client leaves. A real host also keeps retransmitting PlayerLeft to the
    /// leaver, which never acks; dropping it here is equivalent.
    pub fn disconnect(&mut self, from: u64, payload: &[u8], clock: Clock) -> (note: Option<Note>)
        requires
            old(self)@.wf(),
            clock.now + RACE_END_DELAY <= u64::MAX,
        ensures
            (final(self)@, note::noted(note)) == old(self)@.disconnected(from, payload@, clock),
            final(self)@.wf(),
    {
        let reason: u32 = match decode_disconnect(payload) {
            Ok(reason) => reason,
            Err(_) => 0,
        };
        self.remove_client(from, clock);
        Some(Note::Disconnected { reason })
    }
}

/// Without one of its clients a sound server is still sound.
pub proof fn lemma_removal_keeps(s: ServerView, i: int)
    requires
        s.wf(),
        0 <= i < s.clients.len(),
    ensures
        (ServerView { clients: s.clients.remove(i), ..s }).wf(),
{
    let after = ServerView { clients: s.clients.remove(i), ..s };
    assert forall|j: int| 0 <= j < after.clients.len() implies (#[trigger] after.clients[j]).wf(
        after.maps.len(),
    ) by {
        if j < i {
            assert(after.clients[j] == s.clients[j]);
        } else {
            assert(after.clients[j] == s.clients[j + 1]);
        }
    }
    assert forall|j: int, k: int|
        0 <= j < k < after.clients.len() implies (#[trigger] after.clients[j]).addr != (
    #[trigger] after.clients[k]).addr by {
        let j0 = if j < i {
            j
        } else {
            j + 1
        };
        let k0 = if k < i {
            k
        } else {
            k + 1
        };
        assert(after.clients[j] == s.clients[j0]);
        assert(after.clients[k] == s.clients[k0]);
    }
}

} // verus!
