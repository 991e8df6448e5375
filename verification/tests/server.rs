//! The server, driven by clients that speak through the bridge's translation.

use beatermp::server::client::Clock;
use beatermp::server::note::Note;
use beatermp::server::race::format_race_time;
use beatermp::server::state::{HostCar, Server, MILLISECOND_BITS};
use beatermp::text::decode_hex;
use beatermp::track::{Parking, Track};
use beatermp::translate::{Peer, ToSteam};
use beatermp::{
    decode_car_crossed_finish, decode_chat, decode_player_left, encode, encode_car_crossed_finish,
    encode_chat, encode_clock, encode_garage_commit, encode_garage_visit_broadcast,
    encode_lobby_change_map, encode_location_in_garage, encode_player_left, encode_race_end,
    encode_race_go, encode_ready_broadcast, encode_spawn_car, encode_start_race,
    encode_visit_garage_response, encode_with_sender_disc, event_discriminant, event_kind, parse,
    CarState, Chunk, ClientInfo, Event, Finish, Frame, GarageScene, Packet, PlayerId, Pose, RaceSettings,
    ServerInfo,
};

const GARAGE: &str = "1000000001010000000025a9633f";

const HOST_CAR_STATE: &str = "0c000000ffffffff0100000040050000010000000000000092fc7fbf0000000021aa273ca00f8e42bb3f3f3f00007843000000005c58b6be000000000000000000000000000000000000000017798e3e0000803f000000000000000090880045010000000000000001000000000011c58e43";

const SECOND: u64 = 1_000_000_000;

/// One client, its half of the protocol, and what it got.
struct Player {
    addr: u64,
    peer: Peer,
    got: Vec<(bool, Vec<u8>)>,
}

struct Net {
    server: Server,
    now: u64,
    players: Vec<Player>,
    acking: bool,
}

fn pose(x: u32) -> Pose {
    [0, 0, 0, 1.0f32.to_bits(), x, 0.75f32.to_bits(), 0]
}

fn track(name: &str, variant: u32, laps: Option<u32>) -> Track {
    Track {
        name: name.to_string(),
        variant,
        spawns: vec![pose(1), pose(2)],
        laps,
        parking: None,
    }
}

fn host_car() -> HostCar {
    HostCar {
        garage: decode_hex(GARAGE),
        state: decode_hex(HOST_CAR_STATE),
        interior: GarageScene {
            prefix: [1; 32],
            scene: [2; 240],
        },
    }
}

fn rotation() -> Vec<Track> {
    vec![
        track("forest_long", 1, None),
        track("oval", 2, Some(3)),
        track("autumn_02", 5, None),
    ]
}

impl Net {
    fn new(maps: Vec<Track>) -> Net {
        let start = Clock {
            now: 0,
            unix: 1000,
            seconds: 0,
        };
        let settings = RaceSettings::default();
        Net {
            server: Server::new("host".to_string(), maps, settings, host_car(), start),
            now: 0,
            players: Vec::new(),
            acking: true,
        }
    }

    fn clock(&self) -> Clock {
        Clock {
            now: self.now,
            unix: 1000 + self.now / SECOND,
            seconds: (self.now as f32 / 1e9).to_bits(),
        }
    }

    /// Hand out what the server sends, and the acks that come back.
    fn flush(&mut self) {
        loop {
            let mail = self.server.drain();
            if mail.is_empty() {
                return;
            }
            for d in mail {
                let clock = self.clock();
                let Some(p) = self.players.iter_mut().find(|p| p.addr == d.to) else {
                    continue;
                };
                let (ack, messages) = p.peer.from_beatermp(&d.bytes);
                for m in messages {
                    match m {
                        ToSteam::Reliable(payload) => p.got.push((true, payload)),
                        ToSteam::Unreliable(payload) => p.got.push((false, payload)),
                    }
                }
                if let (Some(ack), true) = (ack, self.acking) {
                    self.server.handle(d.to, &ack, clock);
                }
            }
        }
    }

    fn raw(&mut self, from: u64, datagram: &[u8]) -> Option<Note> {
        let note = self.server.handle(from, datagram, self.clock());
        if let Some(Note::CrossedFinish { time_bits }) = note {
            let time = f64::from_bits(time_bits);
            let shown = format!("{time:.3}");
            let host_time = (time + 0.001).to_bits();
            self.server.announce_finish(from, &shown, host_time, self.clock());
        }
        self.flush();
        note
    }

    fn send(&mut self, from: u64, payload: &[u8]) -> Option<Note> {
        if !self.players.iter().any(|p| p.addr == from) {
            self.players.push(Player {
                addr: from,
                peer: Peer::new(),
                got: Vec::new(),
            });
        }
        let p = self.players.iter_mut().find(|p| p.addr == from).unwrap();
        let datagram = p.peer.from_steam(payload, 0);
        self.raw(from, &datagram)
    }

    fn advance(&mut self, by: u64) {
        self.now += by;
        self.server.advance(self.clock());
        self.flush();
    }

    fn join(&mut self, addr: u64, name: &str) {
        let info = ClientInfo {
            name: name.to_string(),
            trailing: 0,
        };
        self.send(addr, &info.encode());
        self.send(addr, &garage(addr as u8));
    }

    /// What a client got since last asked.
    fn got(&mut self, addr: u64) -> Vec<Vec<u8>> {
        let p = self.players.iter_mut().find(|p| p.addr == addr).unwrap();
        p.got.drain(..).map(|(_, payload)| payload).collect()
    }

    fn forget(&mut self) {
        for p in self.players.iter_mut() {
            p.got.clear();
        }
    }

    /// The server's chat lines among what a client got.
    fn lines(&mut self, addr: u64) -> Vec<String> {
        self.got(addr)
            .iter()
            .filter(|p| event_kind(p) == Ok(Event::Chat))
            .map(|p| decode_chat(p).unwrap())
            .filter_map(|l| {
                let l = l.strip_prefix("#{100100230}")?;
                Some(l.strip_suffix("#{RES}")?.to_string())
            })
            .collect()
    }

    fn chat(&mut self, from: u64, line: &str) -> Option<Note> {
        self.send(from, &encode_chat(line))
    }
}

fn garage(mark: u8) -> Vec<u8> {
    vec![16, 0, 0, 0, mark, mark]
}

fn id(client_id: u32) -> PlayerId {
    PlayerId {
        client_id,
        player_index: 1,
    }
}

fn ready(on: bool) -> Vec<u8> {
    vec![6, 0, 0, 0, on as u8]
}

fn crossed(entity: u32, time: f64) -> Vec<u8> {
    let mut out = vec![4, 0, 0, 0];
    out.extend_from_slice(&entity.to_le_bytes());
    out.extend_from_slice(&1u32.to_le_bytes());
    out.extend_from_slice(&time.to_le_bytes());
    out
}

fn kinds(payloads: &[Vec<u8>]) -> Vec<Event> {
    payloads.iter().map(|p| event_kind(p).unwrap()).collect()
}

/// A lobby of three on the grid, confirmed and gone.
fn racing() -> Net {
    let mut net = Net::new(rotation());
    net.join(10, "ann");
    net.join(20, "bob");
    net.send(10, &ready(true));
    net.send(20, &ready(true));
    net.send(10, &ready(true));
    net.send(20, &ready(true));
    assert!(net.server.racing);
    assert!(net.server.race_go_at.is_some());
    net.forget();
    net
}

// ---------------------------------------------------------------------------
// Envelope
// ---------------------------------------------------------------------------

#[test]
fn greeting_comes_back_unchanged() {
    let mut net = Net::new(rotation());
    let clock = net.clock();
    assert_eq!(net.server.handle(7, &[3, 1, 1, 0, 0], clock), Some(Note::GreetingEchoed));
    let mail = net.server.drain();
    assert_eq!((mail[0].to, mail[0].bytes.as_slice()), (7, &[3u8, 1, 1, 0, 0][..]));
    let note = net.server.handle(7, &[3, 9, 0, 0, 0], clock);
    assert_eq!(note, Some(Note::UnexpectedGreeting(9)));
    assert_eq!(net.server.drain()[0].bytes, [3, 9, 0, 0, 0]);
    assert_eq!(net.server.clients.len(), 1);
}

#[test]
fn noise_creates_no_client() {
    let mut net = Net::new(rotation());
    let note = net.raw(7, &[9, 9]);
    assert!(matches!(note, Some(Note::Ignored { len: 2, .. })));
    assert!(net.server.clients.is_empty());
}

#[test]
fn ping_is_answered_with_its_own_clock() {
    let mut net = Net::new(rotation());
    net.send(7, &encode_clock(Event::Ping, 4.25f32.to_bits()));
    assert_eq!(net.got(7), [encode_clock(Event::Pong, 4.25f32.to_bits())]);
    net.send(7, &encode_clock(Event::Pong, 1));
    assert!(net.got(7).is_empty());
}

#[test]
fn clients_count_from_one() {
    let mut net = Net::new(rotation());
    net.send(7, &encode_clock(Event::Pong, 1));
    net.send(3, &encode_clock(Event::Pong, 1));
    net.send(7, &encode_clock(Event::Pong, 1));
    let ids: Vec<(u64, PlayerId)> = net.server.clients.iter().map(|c| (c.addr, c.id)).collect();
    assert_eq!(ids, [(7, id(1)), (3, id(2))]);
    assert_eq!(net.server.next_client_id, 3);
}

#[test]
fn ack_for_nothing_is_noted() {
    let mut net = Net::new(rotation());
    let note = net.raw(7, &encode(&Frame::Ack(4)));
    assert_eq!(note, Some(Note::AckForNothing(4)));
}

#[test]
fn unacked_packets_are_sent_again_until_given_up() {
    let mut net = Net::new(rotation());
    net.acking = false;
    let info = ClientInfo {
        name: "ann".to_string(),
        trailing: 0,
    };
    let first = net.server.clients.len();
    assert_eq!(first, 0);
    net.send(10, &info.encode());
    // ServerInfo and the host's garage wait for their acks.
    let seqs = |net: &Net| -> Vec<(u32, u8)> {
        net.server.clients[0]
            .out
            .pending
            .iter()
            .map(|p| (p.packet.seq, p.packet.resend))
            .collect()
    };
    assert_eq!(seqs(&net), [(1, 0), (2, 0)]);
    net.advance(SECOND);
    assert_eq!(seqs(&net), [(1, 1), (2, 1)]);
    // The ack of one leaves the other.
    net.raw(10, &encode(&Frame::Ack(1)));
    assert_eq!(seqs(&net), [(2, 1)]);
    for _ in 0..14 {
        net.raw(10, &[3, 1, 1, 0, 0]);
        net.advance(SECOND);
    }
    assert_eq!(seqs(&net), [(2, 15)]);
    net.raw(10, &[3, 1, 1, 0, 0]);
    net.advance(SECOND);
    assert_eq!(seqs(&net), []);
}

#[test]
fn retransmitted_packet_is_acked_but_not_applied() {
    let mut net = Net::new(rotation());
    net.join(10, "ann");
    net.join(20, "bob");
    net.forget();
    let packet = encode(&Frame::Reliable(Packet {
        payload: ready(false),
        seq: 77,
        resend: 0,
        sent_at: 0,
        ordered_index: None,
        chunk: None,
    }));
    net.raw(10, &packet);
    assert_eq!(net.got(20), [encode_ready_broadcast(id(1), false)]);
    let clock = net.clock();
    let note = net.server.handle(10, &packet, clock);
    assert_eq!(note, Some(Note::ReAcked { seq: 77, resend: 0 }));
    let mail = net.server.drain();
    assert_eq!(mail.len(), 1);
    assert_eq!(mail[0].bytes, encode(&Frame::Ack(77)));
}

#[test]
fn chunked_event_is_applied_once_it_is_whole() {
    let mut net = Net::new(rotation());
    net.join(10, "ann");
    net.join(20, "bob");
    net.forget();
    let mut big = vec![16u8, 0, 0, 0];
    big.extend((0..600u32).map(|i| i as u8));
    let piece = |seq: u32, from: usize, to: usize| {
        encode(&Frame::Reliable(Packet {
            payload: big[from..to].to_vec(),
            seq,
            resend: 0,
            sent_at: 0,
            ordered_index: None,
            chunk: Some(Chunk {
                id: 1,
                offset: from as u32,
                total_size: 604,
                count: 2,
            }),
        }))
    };
    assert_eq!(net.raw(10, &piece(51, 450, 604)), None);
    assert!(net.got(20).is_empty());
    assert_eq!(net.raw(10, &piece(50, 0, 450)), Some(Note::GarageCommitted { peers: 1 }));
    assert_eq!(net.got(20), [encode_garage_commit(id(1), &big)]);
}

#[test]
fn piece_that_does_not_fit_is_told_apart() {
    let mut net = Net::new(rotation());
    let piece = |seq: u32, offset: u32, total_size: u32| {
        encode(&Frame::Reliable(Packet {
            payload: vec![1; 8],
            seq,
            resend: 0,
            sent_at: 0,
            ordered_index: None,
            chunk: Some(Chunk {
                id: 5,
                offset,
                total_size,
                count: 2,
            }),
        }))
    };
    assert_eq!(net.raw(10, &piece(1, 4, 10)), Some(Note::BadChunk(5)));
    assert_eq!(net.raw(10, &piece(2, 0, 10)), None);
    // A later piece that claims a larger payload than the first one did: acked,
    // noted, and nothing else.
    let note = net.server.handle(10, &piece(3, 8, 20), net.clock());
    assert_eq!(note, Some(Note::BadChunk(5)));
    let mail = net.server.drain();
    assert_eq!(mail.len(), 1);
    assert_eq!((mail[0].to, mail[0].bytes.clone()), (10, encode(&Frame::Ack(3))));
    // Its retransmit is known as one, and the payload is still being collected.
    assert_eq!(
        net.raw(10, &piece(3, 8, 20)),
        Some(Note::ReAcked { seq: 3, resend: 0 })
    );
    assert_eq!(net.raw(11, &piece(3, 8, 20)), None);
}

#[test]
fn payload_is_whole_at_the_length_announced_first() {
    let mut net = Net::new(rotation());
    let piece = |seq: u32, payload: &[u8], offset: u32, total_size: u32| {
        encode(&Frame::Reliable(Packet {
            payload: payload.to_vec(),
            seq,
            resend: 0,
            sent_at: 0,
            ordered_index: None,
            chunk: Some(Chunk {
                id: 1,
                offset,
                total_size,
                count: 3,
            }),
        }))
    };
    assert_eq!(net.raw(10, &piece(1, &[36, 0], 0, 8)), None);
    // This piece claims a shorter payload; half of the first one is missing yet.
    assert_eq!(net.raw(10, &piece(2, &[0, 0], 2, 4)), None);
    assert_eq!(
        net.raw(10, &piece(3, &[1, 2, 3, 4], 4, 8)),
        Some(Note::Consumed { disc: 36, reliable: true })
    );
}

#[test]
fn piece_past_the_payload_announced_first_is_ignored() {
    let mut net = Net::new(rotation());
    let piece = |seq: u32, payload: &[u8], offset: u32, total_size: u32| {
        encode(&Frame::Reliable(Packet {
            payload: payload.to_vec(),
            seq,
            resend: 0,
            sent_at: 0,
            ordered_index: None,
            chunk: Some(Chunk {
                id: 1,
                offset,
                total_size,
                count: 2,
            }),
        }))
    };
    assert_eq!(net.raw(10, &piece(1, &[36, 0], 0, 4)), None);
    let note = net.server.handle(10, &piece(2, &[1; 4], 4, 10), net.clock());
    assert_eq!(note, Some(Note::BadChunk(1)));
    let mail = net.server.drain();
    assert_eq!(mail.len(), 1);
    assert_eq!((mail[0].to, mail[0].bytes.clone()), (10, encode(&Frame::Ack(2))));
    // The rest of the payload completes it.
    assert_eq!(
        net.raw(10, &piece(3, &[0, 0], 2, 4)),
        Some(Note::Consumed { disc: 36, reliable: true })
    );
}

// ---------------------------------------------------------------------------
// Joining and leaving
// ---------------------------------------------------------------------------

#[test]
fn newcomer_hears_of_the_lobby_and_every_garage() {
    let mut net = Net::new(rotation());
    net.join(10, "ann");
    assert_eq!(
        kinds(&net.got(10)),
        [Event::ServerInfo, Event::GarageStateCommit, Event::Chat]
    );
    let info = ClientInfo {
        name: "bob".to_string(),
        trailing: 0,
    };
    let note = net.send(20, &info.encode());
    assert_eq!(note, Some(Note::LobbyDescribed { commits: 2 }));
    let got = net.got(20);
    assert_eq!(got.len(), 3);
    let described = ServerInfo::decode(&got[0]).unwrap();
    let listed: Vec<(PlayerId, &str)> =
        described.players.iter().map(|p| (p.id, p.name.as_str())).collect();
    assert_eq!(listed, [(id(1), "ann"), (PlayerId::host(), "host")]);
    assert_eq!((described.applicant, described.host), (id(2), PlayerId::host()));
    assert_eq!((described.map.as_str(), described.variant), ("forest_long", 1));
    assert_eq!(got[1], encode_garage_commit(PlayerId::host(), &decode_hex(GARAGE)));
    assert_eq!(got[2], encode_garage_commit(id(1), &garage(10)));
    // Members learn of the newcomer now, and of its garage once it arrives.
    assert_eq!(net.got(10), [info.encode_joined(id(2))]);
    net.send(20, &garage(20));
    assert_eq!(net.got(10), [encode_garage_commit(id(2), &garage(20))]);
    assert_eq!(
        net.lines(20),
        ["Next race: forest_long | Default (1 lap). Chat !help for commands."]
    );
    // A worn garage after a race is committed without the greeting.
    net.send(20, &garage(21));
    assert!(net.lines(20).is_empty());
}

#[test]
fn leaver_is_announced_with_its_reason() {
    let mut net = Net::new(rotation());
    net.join(10, "ann");
    net.join(20, "bob");
    net.forget();
    let note = net.send(20, &[23, 0, 0, 0, 2, 0, 0, 0]);
    assert_eq!(note, Some(Note::Disconnected { reason: 2 }));
    let got = net.got(10);
    assert_eq!(got, [encode_player_left(id(2))]);
    assert_eq!(decode_player_left(&got[0]), Ok(id(2)));
    assert!(net.got(20).is_empty());
    assert_eq!(net.server.clients.len(), 1);
    // A short Disconnect counts as no reason.
    assert_eq!(net.send(10, &[23, 0, 0, 0]), Some(Note::Disconnected { reason: 0 }));
}

#[test]
fn silent_client_is_evicted_after_fifteen_seconds() {
    let mut net = Net::new(rotation());
    net.join(10, "ann");
    net.join(20, "bob");
    net.forget();
    for _ in 0..15 {
        net.advance(SECOND);
        net.raw(10, &[3, 1, 1, 0, 0]);
    }
    assert_eq!(net.server.clients.len(), 2);
    net.advance(SECOND);
    assert_eq!(net.server.clients.len(), 1);
    assert_eq!(net.server.clients[0].addr, 10);
    assert!(net.got(10).contains(&encode_player_left(id(2))));
}

#[test]
fn tick_pings_everyone_once_a_second() {
    let mut net = Net::new(rotation());
    net.send(7, &encode_clock(Event::Pong, 1));
    net.advance(SECOND / 2);
    assert!(net.got(7).is_empty());
    net.advance(SECOND / 2);
    assert_eq!(net.got(7), [encode_clock(Event::Ping, 1.0f32.to_bits())]);
    net.advance(SECOND - 1);
    assert!(net.got(7).is_empty());
}

// ---------------------------------------------------------------------------
// Races
// ---------------------------------------------------------------------------

#[test]
fn race_starts_when_everyone_is_ready() {
    let mut maps = rotation();
    maps[0].parking = Some(Parking {
        count: 3,
        poses: vec![pose(100), pose(101), pose(102)],
    });
    let mut net = Net::new(maps);
    net.join(10, "ann");
    net.join(20, "bob");
    // Someone who has not joined yet is not waited for.
    net.send(30, &encode_clock(Event::Pong, 1));
    net.forget();
    assert_eq!(net.send(20, &ready(true)), Some(Note::ReadyChanged { ready: true, peers: 1 }));
    assert_eq!(net.send(20, &ready(false)), Some(Note::ReadyChanged { ready: false, peers: 1 }));
    assert_eq!(net.send(20, &ready(true)), Some(Note::ReadyChanged { ready: true, peers: 1 }));
    assert!(!net.server.racing);
    net.forget();
    assert_eq!(net.send(10, &ready(true)), Some(Note::RaceStarted { ready: true }));
    let expected = vec![
        encode_ready_broadcast(PlayerId::host(), true),
        encode_start_race("forest_long", 1, &RaceSettings::default()),
        encode_spawn_car(PlayerId::host(), 0x540, &decode_hex(GARAGE), &pose(102)),
        encode_spawn_car(id(1), 0x1001, &garage(10), &pose(1)),
        encode_spawn_car(id(2), 0x1002, &garage(20), &pose(2)),
    ];
    assert_eq!(net.got(10), expected);
    assert_eq!(net.got(20)[1..], expected[..]);
    assert!(net.got(30).is_empty());
    let flags: Vec<(bool, bool)> = net.server.clients.iter().map(|c| (c.racing, c.ready)).collect();
    assert_eq!(flags, [(true, false), (true, false), (false, false)]);
    // The streamed state stands where the car was spawned.
    assert_eq!(net.server.host_state[20..24], 0u32.to_le_bytes());
    assert_eq!(net.server.host_state[36..40], 102u32.to_le_bytes());
}

#[test]
fn host_without_a_shoulder_takes_the_next_grid_slot() {
    let mut net = Net::new(rotation());
    net.join(10, "ann");
    net.forget();
    net.send(10, &ready(true));
    let spawn = encode_spawn_car(PlayerId::host(), 0x540, &decode_hex(GARAGE), &pose(2));
    assert_eq!(net.got(10)[2], spawn);
}

#[test]
fn rotation_entry_overrides_the_laps() {
    let mut net = Net::new(vec![track("oval", 2, Some(3))]);
    net.server.settings.night = true;
    net.join(10, "ann");
    net.forget();
    net.send(10, &ready(true));
    let settings = RaceSettings {
        laps: 3,
        night: true,
        rain: false,
    };
    assert_eq!(net.got(10)[1], encode_start_race("oval", 2, &settings));
}

#[test]
fn countdown_waits_for_the_last_racer_only() {
    let mut net = Net::new(rotation());
    net.join(10, "ann");
    net.join(20, "bob");
    net.send(10, &ready(true));
    net.send(20, &ready(true));
    net.join(30, "late");
    assert_eq!(
        net.send(30, &ready(true)),
        Some(Note::ReadyDuringRace { ready: true, peers: 2 })
    );
    assert_eq!(
        net.send(10, &ready(true)),
        Some(Note::GridConfirmed { ready: true, peers: 2 })
    );
    net.forget();
    net.now = 7 * SECOND;
    assert_eq!(net.send(20, &ready(true)), Some(Note::EveryoneConfirmed { ready: true }));
    assert_eq!(
        net.got(20),
        [encode_ready_broadcast(PlayerId::host(), true), encode_race_go()]
    );
    assert_eq!(net.server.race_go_at, Some(7 * SECOND));
    // Pressing the button again does not start it again.
    net.now = 8 * SECOND;
    assert_eq!(
        net.send(20, &ready(true)),
        Some(Note::GridConfirmed { ready: true, peers: 2 })
    );
    assert_eq!(net.server.race_go_at, Some(7 * SECOND));
}

#[test]
fn car_state_reaches_the_others_only() {
    let mut net = racing();
    net.send(30, &encode_clock(Event::Pong, 1));
    net.forget();
    let mut state = vec![11u8, 0, 0, 0];
    state.extend_from_slice(&[7; 94]);
    state.extend_from_slice(&0x1001u32.to_le_bytes());
    state.extend_from_slice(&1u32.to_le_bytes());
    assert_eq!(net.send(10, &state), None);
    let expected = CarState::decode(&state).unwrap().encode_broadcast(id(1));
    let got: Vec<(bool, Vec<u8>)> = net.players[1].got.drain(..).collect();
    assert_eq!(got, [(false, expected)]);
    assert!(net.got(10).is_empty());
    assert!(net.got(30).is_empty());
    // Nobody hears of a car whose driver has not joined, or of half a state.
    assert_eq!(net.send(30, &state), None);
    assert!(net.got(20).is_empty());
    assert!(matches!(
        net.send(10, &state[..8]),
        Some(Note::BadEvent { what: "CarState", .. })
    ));
}

#[test]
fn phantom_streams_its_state_at_twenty_hertz() {
    let mut net = racing();
    let go = net.now;
    net.advance(50_000_000);
    let first = net.got(10);
    assert_eq!(first.len(), 1);
    assert_eq!(first[0].len(), 114);
    let (owner, car) = CarState::decode_broadcast(&first[0]).unwrap();
    assert_eq!((owner, car.entity), (PlayerId::host(), 0x540));
    assert_eq!(car.state[84], 1);
    assert_eq!(car.state[85], 0);
    assert_eq!(car.state[90..94], ((go + 50_000_000) as f32 / 1e9).to_le_bytes());
    net.advance(49_000_000);
    assert!(net.got(10).is_empty());
    net.advance(1_000_000);
    assert_eq!(net.got(10).len(), 1);
    // The flag clears three seconds after the race went.
    net.now = go + 3 * SECOND - 1;
    net.server.next_tick = u64::MAX;
    net.advance(0);
    assert_eq!(net.got(10)[0][20 + 84], 1);
    net.now = go + 3 * SECOND;
    net.server.next_car_state = 0;
    net.advance(0);
    assert_eq!(net.got(10)[0][20 + 84], 0);
}

#[test]
fn finishes_are_relayed_and_the_race_ends_behind_the_last() {
    let mut net = racing();
    net.server.next_car_state = u64::MAX;
    let note = net.send(20, &crossed(0x1002, 61.5));
    assert_eq!(note, Some(Note::CrossedFinish { time_bits: 61.5f64.to_bits() }));
    let got = net.got(10);
    let finish = Finish {
        entity: 0x1002,
        generation: 1,
        time_bits: 61.5f64.to_bits(),
    };
    assert_eq!(got[0], encode_car_crossed_finish(id(2), &finish));
    assert_eq!(got.len(), 2);
    assert_eq!(net.lines(20), ["bob finished P1 in 61.500"]);
    assert_eq!(net.server.race_end_at, None);
    assert_eq!(net.server.first_finish, Some(net.now));

    net.now += 2 * SECOND;
    net.send(10, &crossed(0x1001, 70.25));
    assert_eq!(net.server.race_end_at, Some(net.now + 5 * SECOND));
    let got = net.got(20);
    // The relay, the announcement, and the phantom a hair behind.
    assert_eq!(
        kinds(&got),
        [Event::CarCrossedFinish, Event::Chat, Event::CarCrossedFinish]
    );
    let (owner, last) = decode_car_crossed_finish(&got[2]).unwrap();
    assert_eq!((owner, last.entity, last.generation), (PlayerId::host(), 0x540, 1));
    assert_eq!(f64::from_bits(last.time_bits), 70.25 + 0.001);
    net.forget();

    net.server.next_tick = u64::MAX;
    net.advance(5 * SECOND - 1);
    assert!(net.server.racing);
    net.advance(1);
    assert!(!net.server.racing);
    let got = net.got(10);
    assert_eq!(got[0], encode_race_end());
    assert_eq!(got[1], encode_garage_commit(PlayerId::host(), &decode_hex(GARAGE)));
    assert_eq!(got[2], encode_lobby_change_map("oval", 2));
    assert_eq!(
        decode_chat(&got[3]).unwrap(),
        "#{100100230}Next race: oval | Reverse (3 laps). !vote picks another.#{RES}"
    );
    assert_eq!(got.len(), 4);
    assert_eq!(net.server.map_index, 1);
    assert!(net.server.clients.iter().all(|c| !c.racing && !c.ready && !c.finished));
    // Races run back to back.
    net.send(10, &ready(true));
    net.send(20, &ready(true));
    assert!(net.server.racing);
}

#[test]
fn nobody_finishes_outside_a_race() {
    let mut net = Net::new(rotation());
    net.join(10, "ann");
    assert_eq!(net.send(10, &crossed(1, 1.0)), Some(Note::FinishOutsideRace));
    assert_eq!(net.server.host_time, MILLISECOND_BITS);
    assert_eq!(f64::from_bits(MILLISECOND_BITS), 0.001);
}

#[test]
fn grace_period_ends_a_race_someone_is_stuck_in() {
    let mut net = racing();
    net.send(20, &crossed(0x1002, 61.5));
    let finished = net.now;
    net.server.next_tick = u64::MAX;
    net.now = finished + 180 * SECOND - 1;
    net.advance(0);
    assert!(net.server.racing);
    net.advance(1);
    assert!(!net.server.racing);
    assert_eq!(net.server.first_finish, None);
}

#[test]
fn race_ends_with_an_empty_lobby() {
    let mut net = racing();
    net.send(30, &encode_clock(Event::Pong, 1));
    net.send(10, &[23, 0, 0, 0, 0, 0, 0, 0]);
    assert!(net.server.racing);
    net.send(20, &[23, 0, 0, 0, 0, 0, 0, 0]);
    assert!(!net.server.racing);
    assert_eq!(net.server.map_index, 1);
}

#[test]
fn leaver_is_not_waited_for() {
    let mut net = racing();
    net.send(20, &crossed(0x1002, 61.5));
    net.forget();
    net.send(10, &[23, 0, 0, 0, 0, 0, 0, 0]);
    assert!(net.server.racing);
    assert_eq!(net.server.race_end_at, Some(net.now + 5 * SECOND));
    let got = net.got(20);
    assert_eq!(kinds(&got), [Event::PlayerLeft, Event::CarCrossedFinish]);
    let (_, last) = decode_car_crossed_finish(&got[1]).unwrap();
    assert_eq!(f64::from_bits(last.time_bits), 61.5 + 0.001);
}

// ---------------------------------------------------------------------------
// Chat and votes
// ---------------------------------------------------------------------------

#[test]
fn chat_is_relayed_as_it_was() {
    let mut net = Net::new(rotation());
    net.join(10, "ann");
    net.join(20, "bob");
    net.forget();
    assert_eq!(net.chat(10, "ann: hi"), Some(Note::ChatRelayed { peers: 1 }));
    assert_eq!(net.got(20), [encode_chat("ann: hi")]);
    assert!(net.got(10).is_empty());
    // Someone who has not joined is not heard.
    assert_eq!(net.chat(30, "eve: hi"), None);
    assert!(net.got(20).is_empty());
    assert!(matches!(
        net.send(10, &[0, 0, 0, 0, 9]),
        Some(Note::BadEvent { what: "chat", .. })
    ));
}

#[test]
fn commands_are_answered_to_their_sender() {
    let mut net = Net::new(rotation());
    net.join(10, "ann");
    net.join(20, "bob");
    net.forget();
    let command = "HELP".to_string();
    assert_eq!(net.chat(10, "ann:  !HELP "), Some(Note::CommandHandled { command }));
    assert_eq!(
        net.lines(10),
        [
            "!maps shows the rotation, !next the upcoming race",
            "!vote N or !vote <map> picks the next map, !vote shows the tally",
        ]
    );
    assert_eq!(net.got(20), [encode_chat("ann:  !HELP ")]);
    net.chat(10, "!maps");
    assert_eq!(
        net.lines(10),
        [
            ">1. forest_long | Default (1 lap)",
            " 2. oval | Reverse (3 laps)",
            " 3. autumn_02 | TimeAttackReverse (1 lap)",
        ]
    );
    net.chat(10, "ann: !next");
    assert_eq!(net.lines(10), ["Next race: forest_long | Default (1 lap)"]);
    net.chat(10, "ann: !Frob now");
    assert_eq!(net.lines(10), ["Unknown command !Frob; try !help"]);
    // Another's name in front is no prefix.
    assert_eq!(net.chat(10, "bob: !next"), Some(Note::ChatRelayed { peers: 1 }));
}

#[test]
fn upcoming_race_is_marked_while_racing() {
    let mut net = racing();
    net.chat(10, "!next");
    assert_eq!(
        net.lines(10),
        ["Racing forest_long | Default now; next: oval | Reverse (3 laps)"]
    );
    net.chat(10, "!vote 3");
    net.forget();
    net.chat(10, "!rotation");
    assert_eq!(net.lines(10)[2], ">3. autumn_02 | TimeAttackReverse (1 lap)");
}

#[test]
fn maps_are_found_by_number_or_fragment() {
    let mut net = Net::new(rotation());
    net.join(10, "ann");
    net.join(20, "bob");
    net.join(30, "cat");
    net.forget();
    let mut answer = |line: &str| {
        net.chat(10, line);
        net.lines(10).remove(0)
    };
    assert_eq!(answer("!vote 4"), "No map number 4; see !maps");
    assert_eq!(answer("!vote 0"), "No map number 0; see !maps");
    assert_eq!(answer("!vote Reverse"), "2 maps match \"reverse\"; vote by number, see !maps");
    assert_eq!(answer("!vote \"Moon\"\u{7}"), "No map matches \"\\\"moon\\\"\\u{7}\"; see !maps");
    assert_eq!(answer("!vote forest"), "forest_long | Default is already next");
    assert_eq!(answer("!vote OVAL"), "ann voted for oval | Reverse (1/2 needed)");
    assert_eq!(answer("!vote +3"), "ann voted for autumn_02 | TimeAttackReverse (1/2 needed)");
}

#[test]
fn majority_switches_the_track_at_once() {
    let mut net = Net::new(rotation());
    net.join(10, "ann");
    net.join(20, "bob");
    net.join(30, "cat");
    net.forget();
    net.chat(10, "!vote");
    assert_eq!(
        net.lines(10),
        ["No votes yet. !vote N or !vote <map> picks the next map; see !maps"]
    );
    net.chat(10, "!vote 2");
    net.chat(20, "!vote 3");
    net.forget();
    net.chat(30, "!vote");
    assert_eq!(
        net.lines(30),
        ["Votes: oval | Reverse 1, autumn_02 | TimeAttackReverse 1"]
    );
    assert_eq!(net.server.tally(), [0, 1, 1]);
    // A tie goes to the earlier entry.
    assert_eq!(net.server.vote_leader(), Some((1, 1)));
    net.forget();
    net.chat(30, "!vote autumn");
    let got = net.got(30);
    assert_eq!(kinds(&got), [Event::Chat, Event::Chat, Event::LobbyChangeMap, Event::Chat]);
    assert_eq!(got[2], encode_lobby_change_map("autumn_02", 5));
    assert_eq!(
        net.lines(10),
        [
            "cat voted for autumn_02 | TimeAttackReverse (2/2 needed)",
            "Vote passed.",
            "Next race: autumn_02 | TimeAttackReverse (1 lap). !vote picks another.",
        ]
    );
    assert_eq!(net.server.map_index, 2);
    assert_eq!(net.server.tally(), [0, 0, 0]);
}

#[test]
fn vote_leader_wins_when_the_race_ends() {
    let mut net = racing();
    net.chat(10, "!vote 3");
    net.chat(20, "!vote 3");
    assert_eq!(net.server.map_index, 0);
    net.forget();
    net.send(10, &crossed(0x1001, 60.0));
    net.send(20, &crossed(0x1002, 61.0));
    net.forget();
    net.server.next_car_state = u64::MAX;
    net.server.next_tick = u64::MAX;
    net.advance(5 * SECOND);
    assert_eq!(net.server.map_index, 2);
    assert_eq!(
        net.lines(10),
        [
            "Vote won by autumn_02 | TimeAttackReverse with 2 vote(s)",
            "Next race: autumn_02 | TimeAttackReverse (1 lap). !vote picks another.",
        ]
    );
    assert_eq!(net.server.vote_leader(), None);
    // The rotation continues from there, and wraps.
    assert_eq!(net.server.following(), 0);
}

#[test]
fn votes_die_with_the_player() {
    let mut net = racing();
    net.chat(10, "!vote 3");
    assert_eq!(net.server.vote_leader(), Some((2, 1)));
    net.send(10, &[23, 0, 0, 0, 0, 0, 0, 0]);
    assert_eq!(net.server.vote_leader(), None);
}

// ---------------------------------------------------------------------------
// Visits and relays
// ---------------------------------------------------------------------------

#[test]
fn visit_to_the_host_is_answered_by_the_server() {
    let mut net = Net::new(rotation());
    net.join(10, "ann");
    net.join(20, "bob");
    net.forget();
    let mut request = vec![33u8, 0, 0, 0, 0xff, 0xff, 0xff, 0xff, 1, 0, 0, 0];
    assert_eq!(net.send(10, &request), Some(Note::Visiting(PlayerId::host())));
    let garage = decode_hex(GARAGE);
    let interior = host_car().interior;
    let response = encode_visit_garage_response(PlayerId::host(), &garage, &interior);
    assert_eq!(net.got(10), [response]);
    assert_eq!(
        net.got(20),
        [
            encode_garage_visit_broadcast(id(1), PlayerId::host()),
            encode_location_in_garage(id(1), PlayerId::host()),
        ]
    );
    // Nobody has that id.
    request[4..8].copy_from_slice(&9u32.to_le_bytes());
    assert_eq!(net.send(10, &request), Some(Note::UnknownOwner(id(9))));
    assert!(net.got(20).is_empty());
    assert!(matches!(
        net.send(10, &request[..9]),
        Some(Note::BadEvent { what: "RequestVisitGarage", .. })
    ));
}

#[test]
fn visit_to_a_player_goes_through_the_owner() {
    let mut net = Net::new(rotation());
    net.join(10, "ann");
    net.join(20, "bob");
    net.join(30, "cat");
    net.forget();
    let request = vec![33u8, 0, 0, 0, 2, 0, 0, 0, 1, 0, 0, 0];
    assert_eq!(net.send(10, &request), Some(Note::Visiting(id(2))));
    let shown = [
        encode_garage_visit_broadcast(id(1), id(2)),
        encode_location_in_garage(id(1), id(2)),
    ];
    assert_eq!(net.got(20), [request, shown[0].clone(), shown[1].clone()]);
    assert_eq!(net.got(30), shown);
    assert!(net.got(10).is_empty());
    let answer = vec![34u8, 0, 0, 0, 5, 5];
    assert_eq!(net.send(20, &answer), Some(Note::VisitAnswered { visitors: 1 }));
    assert_eq!(net.got(10), [answer.clone()]);
    assert!(net.got(30).is_empty());
    // The answer is for those who asked, once.
    assert_eq!(net.send(20, &answer), Some(Note::VisitAnswered { visitors: 0 }));
    assert!(net.got(10).is_empty());
}

#[test]
fn avatar_updates_are_thinned_out() {
    let mut net = Net::new(rotation());
    net.join(10, "ann");
    net.join(20, "bob");
    net.forget();
    let update = |mark: u8| vec![29u8, 0, 0, 0, mark];
    net.now = 50_000_000;
    net.send(10, &update(1));
    net.now += 49_999_999;
    net.send(10, &update(2));
    net.now += 1;
    net.send(10, &update(3));
    let got: Vec<(bool, Vec<u8>)> = net.players[1].got.drain(..).collect();
    // Unreliable in, reliable out.
    assert_eq!(
        got,
        [
            (true, encode_with_sender_disc(30, id(1), &update(1))),
            (true, encode_with_sender_disc(30, id(1), &update(3))),
        ]
    );
}

#[test]
fn events_are_retagged_or_consumed() {
    let mut net = Net::new(rotation());
    net.join(10, "ann");
    net.join(20, "bob");
    net.forget();
    let cart = vec![43u8, 0, 0, 0, 9];
    let note = net.send(10, &cart);
    assert_eq!(note, Some(Note::Retagged { disc: 43, twin: 46, reliable: true, peers: 1 }));
    assert_eq!(net.got(20), [encode_with_sender_disc(46, id(1), &cart)]);
    let hub = vec![31u8, 0, 0, 0, 0, 0, 0, 0];
    let note = net.send(10, &hub);
    assert_eq!(note, Some(Note::Retagged { disc: 31, twin: 32, reliable: true, peers: 1 }));
    assert_eq!(net.got(20), [encode_with_sender_disc(32, id(1), &hub)]);
    let stop = vec![41u8, 0, 0, 0];
    let note = net.send(10, &stop);
    assert_eq!(note, Some(Note::Retagged { disc: 41, twin: 42, reliable: true, peers: 1 }));
    assert_eq!(net.got(20), [encode_with_sender_disc(42, id(1), &stop)]);
    // No twin, or nobody to speak for: nothing goes out.
    assert_eq!(net.send(10, &[99, 0, 0, 0]), Some(Note::Consumed { disc: 99, reliable: true }));
    assert_eq!(net.send(30, &cart), Some(Note::Consumed { disc: 43, reliable: true }));
    assert_eq!(net.send(30, &hub), None);
    assert!(net.got(20).is_empty());
    // So it is with events that a host keeps to itself, and with what is too
    // short to be an event.
    for disc in [36u8, 37] {
        let consumed = Note::Consumed { disc: u32::from(disc), reliable: true };
        assert_eq!(net.send(10, &[disc, 0, 0, 0, 1]), Some(consumed));
    }
    for short in [&[][..], &[0], &[0, 0], &[1, 2, 3]] {
        let bad = match event_discriminant(short) {
            Err(error) => Note::BadEvent { what: "event", error },
            Ok(disc) => panic!("{short:?} is event {disc}"),
        };
        assert_eq!(net.send(10, short), Some(bad.clone()));
        assert_eq!(net.raw(10, &encode(&Frame::Unreliable(short.to_vec()))), Some(bad));
    }
    assert!(net.got(20).is_empty());
}

#[test]
fn unreliable_events_are_passed_on_alike() {
    let mut net = Net::new(rotation());
    net.join(10, "ann");
    net.join(20, "bob");
    net.forget();
    let loose = |payload: &[u8]| encode(&Frame::Unreliable(payload.to_vec()));
    let cart = vec![44u8, 0, 0, 0, 9];
    assert_eq!(
        net.raw(10, &loose(&cart)),
        Some(Note::Retagged { disc: 44, twin: 47, reliable: false, peers: 1 })
    );
    assert_eq!(
        net.players[1].got.drain(..).collect::<Vec<_>>(),
        [(true, encode_with_sender_disc(47, id(1), &cart))]
    );
    let line = encode_chat("ann: psst");
    assert_eq!(
        net.raw(10, &loose(&line)),
        Some(Note::Relayed { event: Event::Chat, reliable: false, peers: 1 })
    );
    assert_eq!(net.players[1].got.drain(..).collect::<Vec<_>>(), [(false, line)]);
    assert_eq!(
        net.raw(10, &loose(&[2, 0, 0, 0])),
        Some(Note::Consumed { disc: 2, reliable: false })
    );
}

#[test]
fn malformed_events_are_noted() {
    let mut net = Net::new(rotation());
    net.join(10, "ann");
    for (payload, event) in [
        (vec![15u8, 0, 0, 0, 1], "ClientInfo"),
        (vec![6, 0, 0, 0], "Ready"),
        (vec![4, 0, 0, 0, 1], "CrossedFinish"),
    ] {
        let note = net.send(10, &payload);
        assert!(matches!(&note, Some(Note::BadEvent { what, .. }) if *what == event), "{note:?}");
    }
}

#[test]
fn ordered_events_are_counted_per_client() {
    let mut net = Net::new(rotation());
    net.acking = false;
    net.join(10, "ann");
    net.join(20, "bob");
    let indices = |net: &Net, i: usize| -> Vec<(u32, Option<u32>)> {
        net.server.clients[i]
            .out
            .pending
            .iter()
            .map(|p| (p.packet.seq, p.packet.ordered_index))
            .collect()
    };
    // ServerInfo, the host's garage, the greeting line, the newcomer, its garage.
    assert_eq!(
        indices(&net, 0),
        [(1, None), (2, None), (3, Some(0)), (4, None), (5, Some(1))]
    );
    assert_eq!(indices(&net, 1), [(1, None), (2, None), (3, None), (4, Some(0))]);
    let sent = &net.server.clients[0].out.pending[0].packet;
    assert_eq!(sent.sent_at, 1000);
    let parsed = parse(&encode(&Frame::Reliable(sent.clone())));
    assert_eq!(parsed, Ok(Frame::Reliable(sent.clone())));
}

// ---------------------------------------------------------------------------
// Acks and retransmits
// ---------------------------------------------------------------------------

#[test]
fn new_packet_is_acked_first_and_only_once() {
    let mut net = Net::new(rotation());
    net.join(10, "ann");
    net.join(20, "bob");
    let line = encode(&Frame::Reliable(Packet {
        payload: encode_chat("ann: !help"),
        seq: 77,
        resend: 0,
        sent_at: 0,
        ordered_index: None,
        chunk: None,
    }));
    let clock = net.clock();
    net.server.handle(10, &line, clock);
    let mail = net.server.drain();
    assert!(mail.len() > 1);
    assert_eq!((mail[0].to, mail[0].bytes.clone()), (10, encode(&Frame::Ack(77))));
    for d in &mail[1..] {
        assert!(!matches!(parse(&d.bytes), Ok(Frame::Ack(_))));
    }
}

#[test]
fn tick_retransmits_each_due_packet_once_even_as_others_are_evicted() {
    let mut net = Net::new(rotation());
    net.acking = false;
    net.join(10, "ann");
    net.join(20, "bob");
    let waiting: Vec<(u32, u8)> = net.server.clients[0]
        .out
        .pending
        .iter()
        .map(|p| (p.packet.seq, p.packet.resend))
        .collect();
    assert!(!waiting.is_empty());
    net.now += 16 * SECOND;
    net.raw(10, &encode(&Frame::Unreliable(encode_clock(Event::Ping, 0))));
    let clock = net.clock();
    net.server.tick(clock);
    assert_eq!(net.server.clients.len(), 1);
    let mut resent = Vec::new();
    for d in net.server.drain() {
        assert_eq!(d.to, 10);
        if let Ok(Frame::Reliable(p)) = parse(&d.bytes) {
            if p.resend > 0 {
                resent.push((p.seq, p.resend));
            }
        }
    }
    let expected: Vec<(u32, u8)> = waiting.iter().map(|(seq, n)| (*seq, n + 1)).collect();
    assert_eq!(resent, expected);
    for (seq, n) in expected {
        let pending = &net.server.clients[0].out.pending;
        assert!(pending.iter().any(|p| p.packet.seq == seq
            && p.packet.resend == n
            && p.last_sent == clock.now));
    }
}

// ---------------------------------------------------------------------------
// The log
// ---------------------------------------------------------------------------

#[test]
fn race_times_are_shown_in_minutes_seconds_and_milliseconds() {
    for (millis, shown) in [
        (0, "0:00.000"),
        (59_999, "0:59.999"),
        (60_000, "1:00.000"),
        (83_456, "1:23.456"),
        (600_007, "10:00.007"),
        (6_000_000, "100:00.000"),
    ] {
        assert_eq!(format_race_time(millis), shown);
    }
}

#[test]
fn lines_to_the_whole_lobby_are_kept_for_the_log() {
    let mut net = Net::new(rotation());
    net.join(10, "ann");
    assert!(net.server.take_said().is_empty());
    let clock = net.clock();
    net.server.say(10, "psst", clock);
    net.server.say_all("hello", clock);
    net.server.say_all("again", clock);
    assert_eq!(net.server.take_said(), ["hello", "again"]);
    assert!(net.server.take_said().is_empty());
}

#[test]
fn waiting_packets_have_numbers_of_their_own_across_the_wrap() {
    let mut net = Net::new(rotation());
    net.acking = false;
    net.join(10, "ann");
    net.server.clients[0].out.pending.clear();
    net.server.clients[0].out.next_seq = u32::MAX - 1;
    let clock = net.clock();
    for line in ["one", "two", "three", "four"] {
        net.server.say_all(line, clock);
    }
    let seqs = |net: &Net| -> Vec<u32> {
        let pending = &net.server.clients[0].out.pending;
        pending.iter().map(|p| p.packet.seq).collect()
    };
    assert_eq!(seqs(&net), [u32::MAX - 1, u32::MAX, 0, 1]);
    net.server.handle(10, &encode(&Frame::Ack(u32::MAX)), clock);
    net.now += 2 * SECOND;
    let clock = net.clock();
    net.server.tick(clock);
    net.server.say_all("five", clock);
    assert_eq!(seqs(&net), [u32::MAX - 1, 0, 1, 2]);
}
