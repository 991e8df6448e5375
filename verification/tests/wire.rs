//! Codec tests over datagrams laid out byte by byte, as the game sends them.
//!
//! The sessions below are written with helpers of their own, not with the
//! codec's encoders: they pin field widths, field order, option tags, and the
//! trailing `Packet` bookkeeping block.
//!
//! * `host_fd87` / `client_fd87`: join handshake plus a while of idle lobby.
//! * `lobby_race_*`: join, both players toggle Ready, host starts the race, then
//!   racing. Exercises acks, retransmits, ordered indices, chunking and the
//!   Unreliable car-state stream.
//! * `second_join_host`: a second client joins.
//! * `leave_host`: that client leaves.
//! * `grid_confirm_host`: the host confirms at the grid.
//! * `finish_host`: both cars cross, the host presses on, everyone returns to
//!   the lobby.
//! * `garage_visit_host`: a client visits the host's garage from the lobby,
//!   walks around, returns to the hub.
//! * `race_settings_host`: the host changes the track twice, then starts.

use beatermp::{
    broadcast_twin, broadcast_verbatim, clock_of, decode_car_crossed_finish, decode_crossed_finish,
    decode_disconnect, decode_player_left, decode_ready, decode_visit_request, encode,
    encode_car_crossed_finish, encode_garage_commit, encode_garage_visit_broadcast,
    encode_lobby_change_map, encode_location_in_garage, encode_player_left, encode_race_end,
    encode_race_go, encode_ready_broadcast, encode_spawn_car, encode_start_race,
    encode_visit_garage_response, encode_with_sender, encode_with_sender_disc, event_kind, parse,
    CarState, ClientInfo, Event, Frame, GarageScene, Packet, PlayerId, Pose, RaceSettings,
    ServerInfo, CHUNK_SIZE, GREETING_ID,
};

const FIXTURES: [&str; 9] = [
    "host_fd87.txt",
    "client_fd87.txt",
    "lobby_race_host.txt",
    "lobby_race_client.txt",
    "second_join_host.txt",
    "leave_host.txt",
    "finish_host.txt",
    "garage_visit_host.txt",
    "race_settings_host.txt",
];

const CLIENT_INFO: &str = "0f00000005000000000000006d6a6130300000000000000000";

const SERVER_INFO: &str = "0e0000000100000000000000ffffffff0100000005000000000000006d6a61303000000000000100000001000000ffffffff010000000b00000000000000666f726573745f6c6f6e67010000000000000000000000";

const GARAGE_STATE: &str = "1000000001010000000025a9633f000000000b0000000000000072696d5f64656661756c74010100000000d6e64c3f000000000b0000000000000072696d5f64656661756c740101000000006b974b3f000000000b0000000000000072696d5f64656661756c74010100000000082a4b3f000000000b0000000000000072696d5f64656661756c7403000000000000005a61707488502049b0e33f970768826f61e23f5c480f321c53e23fcb2b835c694ce13fdc2a6f6e2d90e13fcd90ca034d17e73f2a56d427234ce73f1e4565572bb3e73f2f568258a1a2e73f01000000010000000100000001000000056bfdef7c02e73fd30aa93508d8ea3f76840b7acb91eb3f0fc7c33eea0ded3f0500000000000000ac2d0dff58feef3f9e792a1ec9caef3f0d9a7e95d454ee3f5ece0d78280eed3f7f7fc352b5efee3f0000000000000000000300000052b85e3f52b81e3f0000803e0100000001000000000092ce6a3f4d29693fcabb423f22e43f3f0400000000000000010a3d20d21a7c7a40010a3d20d21a7c7a40010a3d20d21a7c7a40010a3d20d21a7c7a400044e3273e000000000000000000";

const CAR_STATE: &str = "0000000092fc7fbf0000000021aa273ca00f8e42bb3f3f3f00007843000000005c58b6be000000000000000000000000000000000000000017798e3e0000803f000000000000000090880045010000000000000001000000000011c58e43";

fn hex(text: &str) -> Vec<u8> {
    (0..text.len())
        .step_by(2)
        .map(|i| u8::from_str_radix(&text[i..i + 2], 16).unwrap())
        .collect()
}

fn words(words: &[u32]) -> Vec<u8> {
    words.iter().flat_map(|w| w.to_le_bytes()).collect()
}

fn string(text: &str) -> Vec<u8> {
    let mut out = (text.len() as u64).to_le_bytes().to_vec();
    out.extend_from_slice(text.as_bytes());
    out
}

fn joined(parts: &[Vec<u8>]) -> Vec<u8> {
    parts.concat()
}

/// A Reliable datagram; `chunk` is id, offset, total and count.
fn packet(
    payload: &[u8],
    seq: u32,
    resend: u8,
    ordered: Option<u32>,
    chunk: Option<(u32, u32, u32, u16)>,
) -> Vec<u8> {
    let mut out = vec![0u8];
    out.extend_from_slice(&(payload.len() as u64).to_le_bytes());
    out.extend_from_slice(payload);
    out.extend_from_slice(&seq.to_le_bytes());
    out.push(resend);
    out.extend_from_slice(&1_750_000_000u64.to_le_bytes());
    match ordered {
        Some(i) => {
            out.push(1);
            out.extend_from_slice(&i.to_le_bytes());
        }
        None => out.push(0),
    }
    match chunk {
        Some((id, offset, total, count)) => {
            out.push(1);
            out.extend_from_slice(&words(&[id, offset, total]));
            out.extend_from_slice(&count.to_le_bytes());
        }
        None => out.push(0),
    }
    out
}

fn unreliable(payload: &[u8]) -> Vec<u8> {
    let mut out = vec![1u8];
    out.extend_from_slice(payload);
    out
}

fn ack(seq: u32) -> Vec<u8> {
    let mut out = vec![2u8];
    out.extend_from_slice(&seq.to_le_bytes());
    out
}

/// A session as one side saw it; each side numbers its packets from 1, and acks
/// what it gets.
struct Session {
    log: Vec<(bool, Vec<u8>)>,
    seqs: [u32; 2],
    ordered: u32,
    chunk: u32,
}

impl Session {
    fn new() -> Session {
        Session {
            log: Vec::new(),
            seqs: [1, 1],
            ordered: 0,
            chunk: 1,
        }
    }

    fn raw(&mut self, sent: bool, bytes: Vec<u8>) {
        self.log.push((sent, bytes));
    }

    fn piece(
        &mut self,
        sent: bool,
        payload: &[u8],
        ordered: Option<u32>,
        chunk: Option<(u32, u32, u32, u16)>,
    ) -> u32 {
        let seq = self.seqs[sent as usize];
        self.seqs[sent as usize] += 1;
        self.raw(sent, packet(payload, seq, 0, ordered, chunk));
        self.raw(!sent, ack(seq));
        seq
    }

    fn reliable(&mut self, sent: bool, payload: &[u8]) -> u32 {
        self.piece(sent, payload, None, None)
    }

    fn ordered(&mut self, payload: &[u8]) {
        let index = self.ordered;
        self.ordered += 1;
        if payload.len() <= 450 {
            self.piece(true, payload, Some(index), None);
            return;
        }
        let id = self.chunk;
        self.chunk += 1;
        let total = payload.len() as u32;
        let count = payload.len().div_ceil(450) as u16;
        for (i, part) in payload.chunks(450).enumerate() {
            let header = (id, 450 * i as u32, total, count);
            self.piece(true, part, Some(index), Some(header));
        }
    }

    fn handshake(&mut self) {
        self.raw(false, vec![3, 1, 1, 0, 0]);
        self.raw(true, vec![3, 1, 1, 0, 0]);
        self.reliable(false, &hex(CLIENT_INFO));
        self.reliable(true, &hex(SERVER_INFO));
        let commit = joined(&[words(&[17, 0xffff_ffff, 1]), hex(GARAGE_STATE)[4..].to_vec()]);
        self.reliable(true, &commit);
        self.reliable(false, &hex(GARAGE_STATE));
    }

    fn pings(&mut self, count: u32) {
        for i in 0..count {
            let ours = 10.0f32 + i as f32;
            let theirs = 3.5f32 + i as f32;
            self.raw(true, unreliable(&words(&[21, ours.to_bits()])));
            self.raw(false, unreliable(&words(&[22, ours.to_bits()])));
            self.raw(false, unreliable(&words(&[21, theirs.to_bits()])));
            self.raw(true, unreliable(&words(&[22, theirs.to_bits()])));
        }
    }
}

fn grid_pose(x: u32) -> Vec<u32> {
    vec![
        0,
        0xbf7ffc91,
        0,
        0x3c27aa20,
        x,
        0.754f32.to_bits(),
        248.0f32.to_bits(),
    ]
}

/// `[10][u32 0][PlayerId][entity][generation][garage body][pose]`.
fn spawn_car(id: [u32; 2], entity: u32, pose: &[u32]) -> Vec<u8> {
    joined(&[
        words(&[10, 0, id[0], id[1], entity, 1]),
        hex(GARAGE_STATE)[4..].to_vec(),
        words(pose),
    ])
}

fn mirrored(log: Vec<(bool, Vec<u8>)>) -> Vec<(bool, Vec<u8>)> {
    log.into_iter().map(|(sent, raw)| (!sent, raw)).collect()
}

fn lobby_race() -> Vec<(bool, Vec<u8>)> {
    let mut s = Session::new();
    s.handshake();
    // The client's Ready goes out twice before its ack arrives.
    let ready = joined(&[words(&[6]), vec![1]]);
    let seq = s.seqs[0];
    s.raw(false, packet(&ready, seq, 0, None, None));
    s.raw(false, packet(&ready, seq, 1, None, None));
    s.raw(true, ack(seq));
    s.raw(true, ack(seq));
    s.seqs[0] += 1;
    s.ordered(&joined(&[words(&[7, 0xffff_ffff, 1]), vec![1]]));
    // The host's StartRace is sent again, too.
    let start = joined(&[
        words(&[1]),
        string("forest_long"),
        words(&[0, 1, 0, 0, 1]),
    ]);
    let seq = s.seqs[1];
    let index = s.ordered;
    s.ordered(&start);
    s.raw(true, packet(&start, seq, 1, Some(index), None));
    s.ordered(&spawn_car([0xffff_ffff, 1], 0x540, &grid_pose(0x428e0fa0)));
    s.ordered(&spawn_car([1, 1], 0xe4f, &grid_pose(0x428544d1)));
    for _ in 0..1100 {
        let state = joined(&[words(&[11]), hex(CAR_STATE), words(&[0xe4f, 1])]);
        s.raw(false, unreliable(&state));
        let broadcast = joined(&[words(&[12, 0xffff_ffff, 1, 0x540, 1]), hex(CAR_STATE)]);
        s.raw(true, unreliable(&broadcast));
    }
    s.log
}

fn second_join() -> Session {
    let mut s = Session::new();
    s.handshake();
    let info = joined(&[words(&[15]), string("second"), vec![0; 8]]);
    s.reliable(false, &info);
    let entry = |id: [u32; 2], name: &str| joined(&[words(&id), string(name), vec![0; 5]]);
    let described = joined(&[
        words(&[14]),
        2u64.to_le_bytes().to_vec(),
        entry([1, 1], "mja00"),
        entry([0xffff_ffff, 1], "mja00"),
        words(&[2, 1, 0xffff_ffff, 1]),
        string("forest_long"),
        words(&[1]),
        vec![0; 8],
    ]);
    s.reliable(true, &described);
    s.reliable(true, &joined(&[words(&[13, 2, 1]), string("second"), vec![0; 8]]));
    let mut garage = hex(GARAGE_STATE);
    garage[10] = 0x26;
    s.reliable(false, &garage);
    s.reliable(true, &joined(&[words(&[17, 2, 1]), garage[4..].to_vec()]));
    s
}

fn interior() -> GarageScene {
    let mut prefix = [0u8; 32];
    let mut scene = [0u8; 240];
    for (i, b) in prefix.iter_mut().enumerate() {
        *b = i as u8 + 1;
    }
    for (i, b) in scene.iter_mut().enumerate() {
        *b = 255 - i as u8;
    }
    GarageScene { prefix, scene }
}

fn garage_visit() -> Vec<(bool, Vec<u8>)> {
    let mut s = Session::new();
    s.handshake();
    s.reliable(false, &words(&[33, 0xffff_ffff, 1]));
    let response = joined(&[
        words(&[34]),
        interior().prefix.to_vec(),
        hex(GARAGE_STATE)[4..].to_vec(),
        interior().scene.to_vec(),
        words(&[0xffff_ffff, 1]),
        vec![0; 8],
    ]);
    s.ordered(&response);
    s.ordered(&words(&[35, 1, 1, 0xffff_ffff, 1]));
    s.ordered(&words(&[32, 1, 1, 2, 0xffff_ffff, 1]));
    let pose: Vec<u8> = (0..48).collect();
    s.raw(false, unreliable(&joined(&[words(&[29]), pose.clone()])));
    s.ordered(&joined(&[words(&[30, 1, 1]), pose]));
    s.reliable(false, &words(&[31, 0]));
    s.ordered(&words(&[32, 1, 1, 0]));
    s.reliable(false, &words(&[41]));
    s.ordered(&words(&[42, 1, 1]));
    s.log
}

/// `(sent_by_this_side, bytes)` for every datagram of a session.
fn fixture(name: &str) -> Vec<(bool, Vec<u8>)> {
    match name {
        "host_fd87.txt" | "client_fd87.txt" => {
            let mut s = Session::new();
            s.handshake();
            s.pings(12);
            if name == "host_fd87.txt" {
                s.log
            } else {
                mirrored(s.log)
            }
        }
        "lobby_race_host.txt" => lobby_race(),
        "lobby_race_client.txt" => mirrored(lobby_race()),
        "second_join_host.txt" => second_join().log,
        "leave_host.txt" => {
            let mut s = second_join();
            s.reliable(false, &words(&[23, 0]));
            // One to the remaining peer, one to the leaver.
            s.reliable(true, &words(&[24, 2, 1]));
            s.reliable(true, &words(&[24, 2, 1]));
            s.log
        }
        "grid_confirm_host.txt" => {
            let mut s = Session::new();
            s.reliable(false, &joined(&[words(&[6]), vec![1]]));
            s.ordered(&joined(&[words(&[7, 0xffff_ffff, 1]), vec![1]]));
            s.reliable(true, &words(&[2]));
            s.log
        }
        "finish_host.txt" => {
            let mut s = Session::new();
            let crossed = |time: f64| joined(&[words(&[0xe4f, 1]), time.to_le_bytes().to_vec()]);
            s.reliable(false, &joined(&[words(&[4]), crossed(9.224)]));
            let host = joined(&[words(&[0x540, 1]), 41.271f64.to_le_bytes().to_vec()]);
            s.reliable(true, &joined(&[words(&[5, 0xffff_ffff, 1]), host]));
            s.ordered(&joined(&[words(&[3]), vec![1]]));
            let body = hex(GARAGE_STATE)[4..].to_vec();
            s.ordered(&joined(&[words(&[17, 0xffff_ffff, 1]), body]));
            s.log
        }
        "garage_visit_host.txt" => garage_visit(),
        "race_settings_host.txt" => {
            let mut s = Session::new();
            s.ordered(&joined(&[words(&[18]), string("autumn_01"), words(&[1])]));
            s.ordered(&joined(&[words(&[18]), string("autumn_02"), words(&[2])]));
            s.ordered(&joined(&[
                words(&[1]),
                string("autumn_02"),
                words(&[0, 3, 1, 1, 2]),
            ]));
            s.log
        }
        _ => panic!("no session {name}"),
    }
}

fn reliable(raw: &[u8]) -> Option<Packet> {
    match parse(raw) {
        Ok(Frame::Reliable(p)) => Some(p),
        _ => None,
    }
}

/// Every datagram must parse, and re-encoding a parsed frame must reproduce the
/// original bytes exactly.
#[test]
fn captured_datagrams_round_trip() {
    for name in FIXTURES {
        let datagrams = fixture(name);
        assert!(!datagrams.is_empty(), "{name} fixture is empty");
        for (_, raw) in datagrams {
            let frame =
                parse(&raw).unwrap_or_else(|e| panic!("{name}: parse {raw:02x?}: {}", e.text()));
            let reencoded = encode(&frame);
            assert_eq!(
                reencoded, raw,
                "{name}: round trip mismatch\n  in : {raw:02x?}\n  out: {reencoded:02x?}"
            );
        }
    }
}

/// Every Reliable packet a side receives is answered with `Ack(seq)`, and
/// every Reliable packet a side sends is eventually acked by the peer. This
/// is the contract a server must honour or the client retransmits forever.
#[test]
fn every_reliable_packet_is_acked() {
    for name in FIXTURES {
        let mut sent_seqs = Vec::new();
        let mut received_seqs = Vec::new();
        let mut acks_sent = Vec::new();
        let mut acks_received = Vec::new();
        for (sent, raw) in fixture(name) {
            match parse(&raw).unwrap() {
                Frame::Reliable(p) if sent => sent_seqs.push(p.seq),
                Frame::Reliable(p) => received_seqs.push(p.seq),
                Frame::Ack(s) if sent => acks_sent.push(s),
                Frame::Ack(s) => acks_received.push(s),
                _ => {}
            }
        }
        assert!(!sent_seqs.is_empty(), "{name}: no reliable traffic");
        for s in &received_seqs {
            assert!(
                acks_sent.contains(s),
                "{name}: received seq {s} never acked"
            );
        }
        for s in &sent_seqs {
            assert!(
                acks_received.contains(s),
                "{name}: sent seq {s} never acked by peer"
            );
        }
    }
}

/// A retransmission is the same payload and seq with `resend` incremented.
/// The race fixture has both a host packet and a client Ready sent again, so
/// both directions are covered.
#[test]
fn retransmits_repeat_payload_with_resend_incremented() {
    let mut seen_resend = false;
    for name in ["lobby_race_host.txt", "lobby_race_client.txt"] {
        let packets: Vec<(bool, Packet)> = fixture(name)
            .iter()
            .filter_map(|(sent, raw)| reliable(raw).map(|p| (*sent, p)))
            .collect();
        for (sent, p) in packets.iter().filter(|(_, p)| p.resend > 0) {
            seen_resend = true;
            let original = packets
                .iter()
                .find(|(s, o)| s == sent && o.seq == p.seq && o.resend == 0)
                .unwrap_or_else(|| panic!("{name}: resend of seq {} without original", p.seq));
            assert_eq!(
                original.1.payload, p.payload,
                "{name}: resend changed payload"
            );
            assert_eq!(original.1.ordered_index, p.ordered_index);
            assert_eq!(original.1.chunk, p.chunk);
        }
    }
    assert!(seen_resend, "race fixtures should contain retransmissions");
}

/// A payload over `CHUNK_SIZE` arrives as consecutive packets sharing a chunk
/// id whose offsets tile `total_size` exactly. Reassembly depends on this.
#[test]
fn chunked_payload_tiles_total_size() {
    let chunks: Vec<Packet> = fixture("lobby_race_host.txt")
        .iter()
        .filter(|(sent, _)| *sent)
        .filter_map(|(_, raw)| reliable(raw))
        .filter(|p| p.chunk.is_some() && p.resend == 0)
        .collect();
    assert!(!chunks.is_empty(), "race start should chunk SpawnCar");

    let mut ids: Vec<u32> = chunks.iter().map(|p| p.chunk.unwrap().id).collect();
    ids.dedup();
    for id in ids {
        let pieces: Vec<&Packet> = chunks
            .iter()
            .filter(|p| p.chunk.unwrap().id == id)
            .collect();
        let total = pieces[0].chunk.unwrap().total_size as usize;
        assert_eq!(pieces.len(), pieces[0].chunk.unwrap().count as usize);
        let mut offset = 0usize;
        for p in &pieces {
            assert_eq!(
                p.chunk.unwrap().offset as usize,
                offset,
                "chunk {id} not contiguous"
            );
            assert!(p.payload.len() <= CHUNK_SIZE);
            offset += p.payload.len();
        }
        assert_eq!(offset, total, "chunk {id} pieces do not sum to total_size");
        assert_eq!(event_kind(&pieces[0].payload), Ok(Event::SpawnCar));
    }
}

/// Reassemble every chunked reliable payload the given side sent, in order.
fn reassembled(name: &str, sent: bool) -> Vec<Vec<u8>> {
    let pieces: Vec<Packet> = fixture(name)
        .iter()
        .filter(|(s, _)| *s == sent)
        .filter_map(|(_, raw)| reliable(raw))
        .filter(|p| p.chunk.is_some() && p.resend == 0)
        .collect();
    let mut ids: Vec<u32> = pieces.iter().map(|p| p.chunk.unwrap().id).collect();
    ids.dedup();
    ids.iter()
        .map(|id| {
            let mut parts: Vec<&Packet> = pieces
                .iter()
                .filter(|p| p.chunk.unwrap().id == *id)
                .collect();
            parts.sort_by_key(|p| p.chunk.unwrap().offset);
            parts
                .iter()
                .flat_map(|p| p.payload.iter().copied())
                .collect()
        })
        .collect()
}

/// The race start is fully synthesisable: StartRace is a fixed shape around
/// the map name, and each SpawnCar is that player's GarageState body wrapped
/// with its id, an entity id and a grid pose. Both are checked byte-exact.
#[test]
fn start_race_and_spawn_cars_match_capture() {
    let host = fixture("lobby_race_host.txt");
    let payloads = |sent: bool, e: Event| {
        host.iter()
            .filter(move |(s, _)| *s == sent)
            .filter_map(|(_, raw)| reliable(raw))
            .filter(move |p| event_kind(&p.payload) == Ok(e))
    };
    let start = payloads(true, Event::StartRace).next().expect("StartRace");
    assert_eq!(
        start.payload,
        encode_start_race("forest_long", 1, &RaceSettings::default())
    );
    assert_eq!(
        start.ordered_index,
        Some(1),
        "follows the host's ReadyBroadcast"
    );

    let spawns = reassembled("lobby_race_host.txt", true);
    assert_eq!(spawns.len(), 2);
    assert_eq!(spawns[0].len(), 472);

    // The host's garage arrives as a commit; a GarageState payload is the same
    // body behind a different discriminant and no owner.
    let commit = payloads(true, Event::GarageStateCommit)
        .next()
        .unwrap()
        .payload;
    let mut host_garage = Event::GarageState.to_u32().to_le_bytes().to_vec();
    host_garage.extend_from_slice(&commit[12..]);
    let client_garage = payloads(false, Event::GarageState).next().unwrap().payload;

    let rot = [
        0.0,
        f32::from_bits(0xbf7ffc91),
        0.0,
        f32::from_bits(0x3c27aa20),
    ];
    let pose = |x: u32| -> Pose {
        [
            rot[0],
            rot[1],
            rot[2],
            rot[3],
            f32::from_bits(x),
            0.754,
            248.0,
        ]
        .map(f32::to_bits)
    };
    assert_eq!(
        spawns[0],
        encode_spawn_car(PlayerId::host(), 0x540, &host_garage, &pose(0x428e0fa0))
    );
    let client = PlayerId {
        client_id: 1,
        player_index: 1,
    };
    assert_eq!(
        spawns[1],
        encode_spawn_car(client, 0xe4f, &client_garage, &pose(0x428544d1))
    );
}

/// The grid "Waiting for other players" gate opens only when the host itself
/// confirms: after the client's grid Ready the real host answered with its own
/// ReadyBroadcast on the ordered stream and a bodiless RaceGo on the unordered
/// one.
#[test]
fn host_grid_confirm_sends_ready_then_race_go() {
    let host = fixture("grid_confirm_host.txt");
    let client_confirm = host
        .iter()
        .filter(|(sent, _)| !sent)
        .filter_map(|(_, raw)| reliable(raw))
        .next()
        .expect("client grid Ready");
    assert_eq!(decode_ready(&client_confirm.payload), Ok(true));

    let sent: Vec<_> = host
        .iter()
        .filter(|(sent, _)| *sent)
        .filter_map(|(_, raw)| reliable(raw))
        .collect();
    assert_eq!(sent.len(), 2);
    assert_eq!(
        sent[0].payload,
        encode_ready_broadcast(PlayerId::host(), true)
    );
    assert!(sent[0].ordered_index.is_some());
    assert_eq!(sent[1].payload, encode_race_go());
    assert_eq!(sent[1].ordered_index, None);
}

/// Race end as a real host ran it: the client reports its crossing, the host
/// later reports its own to the lobby, then sends RaceEnd and re-commits its
/// garage. The client's crossing was not echoed back to it (no other clients to
/// tell).
#[test]
fn finish_crossings_and_race_end_match_capture() {
    let host = fixture("finish_host.txt");
    let client_finish = host
        .iter()
        .filter(|(sent, _)| !sent)
        .filter_map(|(_, raw)| reliable(raw))
        .find(|p| event_kind(&p.payload) == Ok(Event::CrossedFinish))
        .expect("client CrossedFinish");
    let finish = decode_crossed_finish(&client_finish.payload).unwrap();
    let time = f64::from_bits(finish.time_bits);
    assert_eq!((finish.entity, finish.generation), (0xe4f, 1));
    assert!((time - 9.224).abs() < 1e-3, "{}", time);
    // A relay of that crossing to a third player is the same triple behind
    // the owner's id; pin the shape the server will produce.
    let relayed = encode_car_crossed_finish(
        PlayerId {
            client_id: 2,
            player_index: 1,
        },
        &finish,
    );
    assert_eq!(&relayed[12..], &client_finish.payload[4..]);

    let sent: Vec<Packet> = host
        .iter()
        .filter(|(sent, _)| *sent)
        .filter_map(|(_, raw)| reliable(raw))
        .filter(|p| p.resend == 0)
        .collect();
    let kinds: Vec<Event> = sent
        .iter()
        .map(|p| event_kind(&p.payload).unwrap())
        .collect();
    assert_eq!(
        kinds,
        [
            Event::CarCrossedFinish,
            Event::RaceEnd,
            Event::GarageStateCommit
        ]
    );
    let (id, host_finish) = decode_car_crossed_finish(&sent[0].payload).unwrap();
    let host_time = f64::from_bits(host_finish.time_bits);
    assert_eq!(id, PlayerId::host());
    assert_eq!(host_finish.entity, 0x540);
    assert!((host_time - 41.271).abs() < 1e-3, "{}", host_time);
    assert_eq!(
        sent[0].payload,
        encode_car_crossed_finish(PlayerId::host(), &host_finish)
    );
    assert!(sent[0].ordered_index.is_none());
    assert_eq!(sent[1].payload, encode_race_end());
    assert!(sent[1].ordered_index.is_some());
    assert!(sent[2].ordered_index.is_some());
}

/// During the race the client reports its car under the entity id its
/// SpawnCar carried, and the host's broadcasts wrap the same state shape with
/// the owner in front.
#[test]
fn car_state_carries_the_spawned_entity() {
    let host = fixture("lobby_race_host.txt");
    let mut states = 0;
    let mut broadcasts = 0;
    for (sent, raw) in &host {
        let Frame::Unreliable(payload) = parse(raw).unwrap() else {
            continue;
        };
        match event_kind(&payload) {
            Ok(Event::CarState) => {
                assert!(!sent);
                let cs = CarState::decode(&payload).unwrap();
                assert_eq!((cs.entity, cs.generation, cs.state.len()), (0xe4f, 1, 94));
                states += 1;
            }
            Ok(Event::CarStateBroadcast) => {
                assert!(sent);
                let (id, cs) = CarState::decode_broadcast(&payload).unwrap();
                assert_eq!(
                    (id, cs.entity, cs.generation, cs.state.len()),
                    (PlayerId::host(), 0x540, 1, 94)
                );
                assert_eq!(cs.encode_broadcast(id), payload);
                broadcasts += 1;
            }
            _ => {}
        }
    }
    assert!(
        states > 1000 && broadcasts > 1000,
        "{states} states, {broadcasts} broadcasts"
    );
}

/// Unreliable frames carry bare events. In the lobby that is the 1 Hz
/// ping/pong pair; each Pong echoes the exact clock of the peer's latest Ping,
/// tracked per direction because the fixture interleaves both streams.
#[test]
fn pongs_echo_the_peers_ping() {
    let mut last_ping_from_peer: Option<f32> = None;
    let mut last_ping_from_us: Option<f32> = None;
    let mut echoes = 0;
    let clock = |payload: &[u8]| f32::from_bits(clock_of(payload).unwrap());
    for (sent, raw) in fixture("host_fd87.txt") {
        let Frame::Unreliable(payload) = parse(&raw).unwrap() else {
            continue;
        };
        match event_kind(&payload) {
            Ok(Event::Ping) if sent => last_ping_from_us = Some(clock(&payload)),
            Ok(Event::Ping) => last_ping_from_peer = Some(clock(&payload)),
            Ok(Event::Pong) => {
                let expected = if sent {
                    last_ping_from_peer
                } else {
                    last_ping_from_us
                };
                assert_eq!(Some(clock(&payload)), expected, "pong did not echo");
                echoes += 1;
            }
            _ => {}
        }
    }
    assert!(echoes > 10, "expected a steady pong stream, saw {echoes}");
}

/// During a race the Unreliable channel carries car state at ~20 Hz: the
/// client sends `CarState`, the host sends `CarStateBroadcast`. A server that
/// dropped Unreliable frames as noise would freeze every other car.
#[test]
fn race_streams_car_state_unreliably() {
    let mut sent_state = 0;
    let mut got_broadcast = 0;
    for (sent, raw) in fixture("lobby_race_client.txt") {
        let Frame::Unreliable(payload) = parse(&raw).unwrap() else {
            continue;
        };
        match event_kind(&payload) {
            Ok(Event::CarState) if sent => sent_state += 1,
            Ok(Event::CarStateBroadcast) if !sent => got_broadcast += 1,
            _ => {}
        }
    }
    assert!(sent_state > 100, "client sent {sent_state} CarState frames");
    assert!(
        got_broadcast > 100,
        "client got {got_broadcast} CarStateBroadcast frames"
    );
}

/// The joining client's identity message must decode with the player name the
/// game actually sent, and re-encode to the original bytes.
#[test]
fn client_info_round_trips() {
    let payload = fixture("host_fd87.txt")
        .iter()
        .filter_map(|(_, raw)| reliable(raw))
        .map(|p| p.payload)
        .find(|p| event_kind(p) == Ok(Event::ClientInfo))
        .expect("fixture contains ClientInfo");
    let info = ClientInfo::decode(&payload).unwrap();
    assert_eq!(info.name, "mja00");
    assert_eq!(info.encode(), payload);
}

/// ServerInfo is the largest thing a headless server has to synthesise, so
/// its layout has to round-trip against the real capture and decode to the
/// lobby a real host advertised.
#[test]
fn server_info_round_trips() {
    let payload = fixture("host_fd87.txt")
        .iter()
        .filter_map(|(_, raw)| reliable(raw))
        .map(|p| p.payload)
        .find(|p| event_kind(p) == Ok(Event::ServerInfo))
        .expect("fixture contains ServerInfo");
    let info = ServerInfo::decode(&payload).unwrap();
    assert_eq!(info.players.len(), 1);
    assert_eq!(info.players[0].name, "mja00");
    assert_eq!(info.players[0].id, PlayerId::host());
    assert_eq!(
        info.applicant,
        PlayerId {
            client_id: 1,
            player_index: 1
        }
    );
    assert_eq!(info.host, PlayerId::host());
    assert_eq!(info.map, "forest_long");
    assert!(info.enabled_mods.is_empty());
    assert_eq!(info.encode(), payload);
}

/// A second joiner is where a single-entry list can hide a wrong layout: the
/// real host lists the first client, then itself, and assigns the applicant
/// id 2. Existing members learn of the newcomer through `PlayerJoined` and
/// then a `GarageStateCommit` that is the newcomer's `GarageState` re-tagged.
#[test]
fn second_join_lists_clients_before_host_and_announces_the_newcomer() {
    let host = fixture("second_join_host.txt");
    let payloads: Vec<(bool, Vec<u8>)> = host
        .iter()
        .filter_map(|(sent, raw)| reliable(raw).map(|p| (*sent, p.payload)))
        .collect();
    let find = |sent: bool, e: Event| {
        payloads
            .iter()
            .filter(move |(s, p)| *s == sent && event_kind(p) == Ok(e))
            .map(|(_, p)| p.clone())
    };

    let info = find(true, Event::ServerInfo)
        .find(|p| ServerInfo::decode(p).unwrap().players.len() == 2)
        .expect("second joiner's ServerInfo");
    let info = ServerInfo::decode(&info).unwrap();
    assert_eq!(
        info.players[0].id,
        PlayerId {
            client_id: 1,
            player_index: 1
        }
    );
    assert_eq!(info.players[1].id, PlayerId::host());
    assert_eq!(
        info.applicant,
        PlayerId {
            client_id: 2,
            player_index: 1
        }
    );
    assert_eq!(info.host, PlayerId::host());

    let joined_bytes = find(true, Event::PlayerJoined)
        .next()
        .expect("PlayerJoined");
    let (id, joined) = ClientInfo::decode_joined(&joined_bytes).unwrap();
    assert_eq!(
        id,
        PlayerId {
            client_id: 2,
            player_index: 1
        }
    );
    assert_eq!(joined.name, "second");
    assert_eq!(joined.encode_joined(id), joined_bytes);

    let garages: Vec<Vec<u8>> = find(false, Event::GarageState).collect();
    let commits: Vec<Vec<u8>> = find(true, Event::GarageStateCommit).collect();
    let second_garage = garages.last().expect("second client's GarageState");
    let expected = encode_garage_commit(id, second_garage);
    assert!(
        commits.contains(&expected),
        "commit for client 2 is its garage re-tagged"
    );
}

/// Leaving is client-initiated: a `Disconnect` from the leaver, then the host
/// tells everyone (the leaver included) which player slot went away.
#[test]
fn disconnect_is_answered_with_player_left() {
    let host = fixture("leave_host.txt");
    let disconnect = host
        .iter()
        .filter(|(sent, _)| !sent)
        .filter_map(|(_, raw)| reliable(raw))
        .find(|p| event_kind(&p.payload) == Ok(Event::Disconnect))
        .expect("client sent Disconnect");
    assert_eq!(disconnect.payload, [23, 0, 0, 0, 0, 0, 0, 0]);

    let left: Vec<Packet> = host
        .iter()
        .filter(|(sent, _)| *sent)
        .filter_map(|(_, raw)| reliable(raw))
        .filter(|p| event_kind(&p.payload) == Ok(Event::PlayerLeft))
        .collect();
    let id = PlayerId {
        client_id: 2,
        player_index: 1,
    };
    assert!(left
        .iter()
        .all(|p| decode_player_left(&p.payload) == Ok(id)));
    assert_eq!(left[0].payload, encode_player_left(id));
    assert!(left[0].ordered_index.is_none());
    let distinct_seqs: std::collections::HashSet<u32> = left.iter().map(|p| p.seq).collect();
    assert_eq!(
        distinct_seqs.len(),
        2,
        "one PlayerLeft stream per remaining peer and the leaver"
    );
}

/// Ready is the first lobby interaction after the handshake. The client's
/// toggle and the host's broadcast must both decode to the bytes captured
/// when both players ticked the box.
#[test]
fn ready_toggle_and_broadcast_match_capture() {
    let host = fixture("lobby_race_host.txt");
    let ready = host
        .iter()
        .filter(|(sent, _)| !sent)
        .filter_map(|(_, raw)| reliable(raw))
        .find(|p| event_kind(&p.payload) == Ok(Event::Ready))
        .expect("client toggled Ready");
    assert_eq!(decode_ready(&ready.payload), Ok(true));

    let broadcast = host
        .iter()
        .filter(|(sent, _)| *sent)
        .filter_map(|(_, raw)| reliable(raw))
        .find(|p| event_kind(&p.payload) == Ok(Event::ReadyBroadcast))
        .expect("host broadcast its own Ready");
    assert_eq!(
        broadcast.payload,
        encode_ready_broadcast(PlayerId::host(), true)
    );
    assert_eq!(
        broadcast.ordered_index,
        Some(0),
        "first ordered event from the host"
    );
}

/// A host that picked `autumn_02 | Reverse` with 3 laps, night and rain
/// announced the track twice in the lobby and then started the race; each
/// of those payloads must be reproducible from the chosen settings.
#[test]
fn map_changes_and_race_settings_match_capture() {
    let host = fixture("race_settings_host.txt");
    let mut sent = host
        .iter()
        .filter(|(s, _)| *s)
        .filter_map(|(_, raw)| reliable(raw))
        .filter(|p| {
            matches!(
                event_kind(&p.payload),
                Ok(Event::LobbyChangeMap | Event::StartRace)
            )
        });
    let first = sent.next().expect("first LobbyChangeMap");
    assert_eq!(first.payload, encode_lobby_change_map("autumn_01", 1));
    assert_eq!(first.ordered_index, Some(0), "map changes are ordered");
    let second = sent.next().expect("second LobbyChangeMap");
    assert_eq!(second.payload, encode_lobby_change_map("autumn_02", 2));
    let start = sent.next().expect("StartRace");
    let settings = RaceSettings {
        laps: 3,
        night: true,
        rain: true,
    };
    assert_eq!(
        start.payload,
        encode_start_race("autumn_02", 2, &settings),
        "variant travels in the last word, after laps/night/rain"
    );
    assert!(sent.next().is_none());
}

/// A garage visit is the one flow where a client's request is answered with
/// a chunked payload. The host's answer must be rebuilt byte for byte from
/// the garage it committed at join time, and the three broadcasts that tell
/// the other client about the visit must match.
#[test]
fn garage_visit_matches_capture() {
    let host = fixture("garage_visit_host.txt");
    let sent: Vec<Packet> = host
        .iter()
        .filter(|(sent, _)| *sent)
        .filter_map(|(_, raw)| reliable(raw))
        .collect();
    let received: Vec<Packet> = host
        .iter()
        .filter(|(sent, _)| !sent)
        .filter_map(|(_, raw)| reliable(raw))
        .collect();
    let find = |packets: &[Packet], event: Event| -> Packet {
        packets
            .iter()
            .find(|p| event_kind(&p.payload) == Ok(event))
            .unwrap_or_else(|| panic!("no {event:?}"))
            .clone()
    };

    let request = find(&received, Event::RequestVisitGarage);
    assert_eq!(decode_visit_request(&request.payload), Ok(PlayerId::host()));

    // The host's garage arrived as a GarageStateCommit; turn it back into
    // the GarageState shape the server keeps.
    let commit = find(&sent, Event::GarageStateCommit);
    let mut garage_state = Event::GarageState.to_u32().to_le_bytes().to_vec();
    garage_state.extend_from_slice(&commit.payload[12..]);
    assert_eq!(
        encode_garage_commit(PlayerId::host(), &garage_state),
        commit.payload
    );

    let first = find(&sent, Event::VisitGarageResponse);
    let chunk = first.chunk.expect("response is chunked");
    let mut response = vec![0u8; chunk.total_size as usize];
    let mut pieces = 0;
    for p in sent
        .iter()
        .filter(|p| p.chunk.map(|c| c.id) == Some(chunk.id))
    {
        let at = p.chunk.unwrap().offset as usize;
        response[at..at + p.payload.len()].copy_from_slice(&p.payload);
        pieces += 1;
    }
    assert_eq!(pieces, chunk.count);
    assert_eq!(response.len(), 712);
    assert_eq!(
        encode_visit_garage_response(PlayerId::host(), &garage_state, &interior()),
        response
    );

    let visitor = PlayerId {
        client_id: 1,
        player_index: 1,
    };
    assert_eq!(
        find(&sent, Event::GarageVisitBroadcast).payload,
        encode_garage_visit_broadcast(visitor, PlayerId::host())
    );
    assert_eq!(
        find(&sent, Event::UpdateLocationBroadcast).payload,
        encode_location_in_garage(visitor, PlayerId::host())
    );

    // Sender-tagged rewraps: avatar state (Unreliable in, reliable out),
    // location and stop-visit.
    let avatar = host
        .iter()
        .filter(|(sent, _)| !sent)
        .find_map(|(_, raw)| match parse(raw) {
            Ok(Frame::Unreliable(p)) if event_kind(&p) == Ok(Event::UpdateAvatarState) => Some(p),
            _ => None,
        })
        .expect("client sent avatar state");
    let relayed = find(&sent, Event::UpdateAvatarStateBroadcast).payload;
    assert_eq!(
        relayed[..12],
        encode_with_sender(Event::UpdateAvatarStateBroadcast, visitor, &avatar)[..12]
    );
    assert_eq!(relayed.len(), avatar.len() + 8);
    let location = find(&received, Event::UpdateLocation);
    let stop = find(&received, Event::StopGarageVisit);
    // The last location broadcast is the one echoing the client's own
    // UpdateLocation; the earlier one was host-generated on entering.
    let back = sent
        .iter()
        .rfind(|p| event_kind(&p.payload) == Ok(Event::UpdateLocationBroadcast))
        .unwrap();
    assert_eq!(
        back.payload,
        encode_with_sender(Event::UpdateLocationBroadcast, visitor, &location.payload)
    );
    assert_eq!(
        find(&sent, Event::StopGarageVisitBroadcast).payload,
        encode_with_sender(Event::StopGarageVisitBroadcast, visitor, &stop.payload)
    );
}

/// Greeting ids drive the first handshake step; echo it wrong and the client
/// never proceeds to identify itself.
#[test]
fn greeting_is_echoed_verbatim() {
    let greetings: Vec<u32> = fixture("host_fd87.txt")
        .iter()
        .filter_map(|(_, raw)| match parse(raw) {
            Ok(Frame::Greeting(id)) => Some(id),
            _ => None,
        })
        .collect();
    assert_eq!(greetings, vec![GREETING_ID, GREETING_ID]);
}

/// Malformed input must fail loudly rather than silently producing a frame
/// that would be applied to game state.
#[test]
fn malformed_input_is_rejected() {
    assert!(parse(&[]).is_err());
    assert!(parse(&[9, 0, 0, 0, 0]).is_err(), "unknown kind");
    assert!(parse(&[2, 1]).is_err(), "truncated ack");
    assert!(
        parse(&[0, 0xff, 0xff, 0xff, 0xff, 0, 0, 0, 0]).is_err(),
        "absurd length"
    );
    assert!(parse(&[0, 0, 0, 0, 0, 0, 0, 0, 0, 1, 0, 0, 0, 0, 0, 0, 0, 0, 0, 0, 0, 0, 7]).is_err());
}

/// The client -> broadcast routing table. The broadcast re-tags the body with
/// the sender's `PlayerId` and nothing else; a host relays no other client
/// event.
#[test]
fn broadcast_twins_insert_the_sender() {
    assert_eq!(broadcast_twin(6), Some(7)); // Ready
    assert_eq!(broadcast_twin(11), Some(12)); // SyncCarState
    assert_eq!(broadcast_twin(16), Some(17)); // CarDeriative
    assert_eq!(broadcast_twin(29), Some(30)); // UpdateAvatarState
    assert_eq!(broadcast_twin(31), Some(32)); // UpdateLocation
    assert_eq!(broadcast_twin(39), Some(40)); // CarEvent
    assert_eq!(broadcast_twin(41), Some(42)); // StopGarageVisit
    assert_eq!(broadcast_twin(43), Some(46)); // PushCartStarted
    assert_eq!(broadcast_twin(44), Some(47)); // PushCartMoved
    assert_eq!(broadcast_twin(45), Some(48)); // PushCartEnd
    // Variant 0 (a String) maps to itself *without* the PlayerId, so a host
    // relays it unchanged rather than re-tagging it.
    assert_eq!(broadcast_twin(0), None);
    assert_eq!(
        broadcast_twin(4),
        None,
        "CrossedFinish has no broadcast twin"
    );

    let sender = PlayerId {
        client_id: 2,
        player_index: 1,
    };
    // PushCartStarted(43) carries one 8-byte field after the discriminant.
    let mut payload = 43u32.to_le_bytes().to_vec();
    payload.extend_from_slice(&[1u8; 8]);
    let out = encode_with_sender_disc(46, sender, &payload);
    assert_eq!(&out[..4], &46u32.to_le_bytes());
    assert_eq!(&out[4..8], &sender.client_id.to_le_bytes());
    assert_eq!(&out[12..20], &[1u8; 8]);
    assert_eq!(out.len(), 4 + 8 + 8);
}

/// A host relays exactly one event verbatim (variant 0, a `String`); every
/// other non-twin event it consumes, so the server must not forward it.
#[test]
fn only_the_string_variant_is_relayed_verbatim() {
    assert!(broadcast_verbatim(0));
    for disc in [4, 6, 11, 19, 36, 37, 39] {
        assert!(!broadcast_verbatim(disc), "{disc} is not relayed verbatim");
    }
}

/// `Disconnect` carries a `DisconnectReason` `u32` after the discriminant; the
/// capture has only `0` (a clean quit).
#[test]
fn disconnect_carries_a_reason() {
    let mut found = 0;
    for (_sent, raw) in fixture("leave_host.txt") {
        let Some(p) = reliable(&raw) else { continue };
        if event_kind(&p.payload) == Ok(Event::Disconnect) {
            assert_eq!(decode_disconnect(&p.payload).unwrap(), 0);
            found += 1;
        }
    }
    assert!(found > 0, "no Disconnect frame in leave_host.txt");
}
