//! The seam between beatermp's frames and Steam's messages.

use beatermp::translate::{client_event_is_unreliable, Peer, ToSteam};
use beatermp::{encode, encode_clock, parse, Chunk, Event, Frame, Packet, CHUNK_SIZE};

fn reliable(seq: u32, payload: Vec<u8>, chunk: Option<Chunk>) -> Vec<u8> {
    encode(&Frame::Reliable(Packet {
        payload,
        seq,
        resend: 0,
        sent_at: 0,
        ordered_index: None,
        chunk,
    }))
}

#[test]
fn client_ping_becomes_an_unreliable_frame() {
    let mut p = Peer::new();
    let ping = encode_clock(Event::Ping, 1.0f32.to_bits());
    let out = p.from_steam(&ping, 0);
    assert_eq!(out[0], 1); // kind 1
    assert_eq!(&out[1..], &ping[..]);
}

#[test]
fn client_action_becomes_a_numbered_reliable_frame() {
    let mut p = Peer::new();
    let ready = {
        let mut v = Event::Ready.to_u32().to_le_bytes().to_vec();
        v.push(1);
        v
    };
    let first = p.from_steam(&ready, 0);
    let second = p.from_steam(&ready, 0);
    let seq_of = |bytes: &[u8]| match parse(bytes).unwrap() {
        Frame::Reliable(p) => p.seq,
        other => panic!("expected a reliable frame, got {other:?}"),
    };
    assert_eq!(first[0], 0); // kind 0
                             // seq counts from 1 and increments per frame.
    assert_eq!(seq_of(&first), 1);
    assert_eq!(seq_of(&second), 2);
}

#[test]
fn acks_are_swallowed() {
    let mut p = Peer::new();
    assert_eq!(p.from_beatermp(&encode(&Frame::Ack(7))), (None, vec![]));
}

#[test]
fn reliable_event_is_acked_and_forwarded() {
    let mut p = Peer::new();
    let event = vec![2u8, 0, 0, 0]; // RaceGo, bodyless
    let (ack, msgs) = p.from_beatermp(&reliable(5, event.clone(), None));
    assert_eq!(ack, Some(encode(&Frame::Ack(5))));
    assert_eq!(msgs, vec![ToSteam::Reliable(event)]);
}

#[test]
fn unreliable_event_is_forwarded_unflagged() {
    let mut p = Peer::new();
    let event = vec![21u8, 0, 0, 0, 0, 0, 0, 0]; // Ping
    let (ack, msgs) = p.from_beatermp(&encode(&Frame::Unreliable(event.clone())));
    assert_eq!(ack, None);
    assert_eq!(msgs, vec![ToSteam::Unreliable(event)]);
}

#[test]
fn chunked_event_is_reassembled_into_one_message() {
    let mut p = Peer::new();
    let payload: Vec<u8> = (0..(CHUNK_SIZE + 22)).map(|i| i as u8).collect();
    let count = payload.len().div_ceil(CHUNK_SIZE) as u16;
    let first = payload[..CHUNK_SIZE].to_vec();
    let second = payload[CHUNK_SIZE..].to_vec();

    let (ack1, msgs1) = p.from_beatermp(&reliable(
        1,
        first,
        Some(Chunk {
            id: 9,
            offset: 0,
            total_size: payload.len() as u32,
            count,
        }),
    ));
    assert_eq!(ack1, Some(encode(&Frame::Ack(1))));
    assert!(msgs1.is_empty(), "incomplete chunk must not reach Steam");

    let (ack2, msgs2) = p.from_beatermp(&reliable(
        2,
        second,
        Some(Chunk {
            id: 9,
            offset: CHUNK_SIZE as u32,
            total_size: payload.len() as u32,
            count,
        }),
    ));
    assert_eq!(ack2, Some(encode(&Frame::Ack(2))));
    assert_eq!(msgs2, vec![ToSteam::Reliable(payload)]);
}

#[test]
fn retransmit_is_acked_once_but_not_delivered_twice() {
    let mut p = Peer::new();
    let event = vec![6u8, 0, 0, 0, 1]; // Ready(true)
    let (_, first) = p.from_beatermp(&reliable(3, event.clone(), None));
    let (ack, second) = p.from_beatermp(&reliable(3, event, None));
    assert_eq!(first.len(), 1);
    assert_eq!(ack, Some(encode(&Frame::Ack(3))));
    assert!(second.is_empty());
}

#[test]
fn pieces_may_arrive_backwards() {
    let mut p = Peer::new();
    let payload: Vec<u8> = (0..1000u32).map(|i| (i % 251) as u8).collect();
    let mut out = Vec::new();
    for i in [2usize, 0, 1] {
        let end = (450 * (i + 1)).min(payload.len());
        let chunk = Chunk {
            id: 4,
            offset: 450 * i as u32,
            total_size: 1000,
            count: 3,
        };
        let piece = reliable(20 + i as u32, payload[450 * i..end].to_vec(), Some(chunk));
        out.push(p.from_beatermp(&piece).1);
    }
    assert_eq!(out[0], vec![]);
    assert_eq!(out[1], vec![]);
    assert_eq!(out[2], vec![ToSteam::Reliable(payload)]);
}

#[test]
fn piece_past_the_end_is_acked_and_dropped() {
    let mut p = Peer::new();
    let chunk = Chunk {
        id: 1,
        offset: 8,
        total_size: 10,
        count: 2,
    };
    let (ack, msgs) = p.from_beatermp(&reliable(1, vec![1, 2, 3], Some(chunk)));
    assert_eq!(ack, Some(encode(&Frame::Ack(1))));
    assert!(msgs.is_empty());
}

#[test]
fn noise_is_neither_acked_nor_forwarded() {
    let mut p = Peer::new();
    assert_eq!(p.from_beatermp(&[9, 9, 9]), (None, vec![]));
    assert_eq!(p.from_beatermp(&[3, 1, 1, 0, 0]), (None, vec![]));
}

#[test]
fn streams_travel_unreliably_and_everything_else_reliably() {
    for event in [11u32, 21, 22, 29] {
        assert!(client_event_is_unreliable(&event.to_le_bytes()), "{event}");
    }
    for event in [0u32, 6, 12, 15, 16, 23, 30, 31, 33, 41, 99] {
        assert!(!client_event_is_unreliable(&event.to_le_bytes()), "{event}");
    }
    assert!(!client_event_is_unreliable(&[21, 0]));
}

#[test]
fn payload_may_be_cut_anywhere() {
    let payload: Vec<u8> = (0..23).collect();
    let chunk = |offset: u32| {
        Some(Chunk {
            id: 9,
            offset,
            total_size: 23,
            count: 4,
        })
    };
    // Out of order, in pieces of unequal size.
    let cuts = [(7usize, 8usize), (0, 7), (22, 23), (8, 22)];
    let mut peer = Peer::new();
    for (k, (from, to)) in cuts.iter().enumerate() {
        let seq = 100 - k as u32;
        let piece = reliable(seq, payload[*from..*to].to_vec(), chunk(*from as u32));
        let (ack, out) = peer.from_beatermp(&piece);
        assert_eq!(ack, Some(encode(&Frame::Ack(seq))));
        if k + 1 < cuts.len() {
            assert!(out.is_empty());
        } else {
            assert_eq!(out, [ToSteam::Reliable(payload.clone())]);
        }
    }
    // A single piece is the whole payload.
    let whole = reliable(200, payload.clone(), chunk(0));
    assert_eq!(peer.from_beatermp(&whole).1, [ToSteam::Reliable(payload)]);
}
