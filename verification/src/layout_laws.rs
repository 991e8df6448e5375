//! What stands where in a datagram and in an event, byte for byte.

use vstd::prelude::*;
use vstd::utf8;

use crate::bytes;
use crate::error::Error;
use crate::event;
use crate::event::Event;
use crate::frame;
use crate::frame::{FrameView, Kind, PacketView};
use crate::le;
use crate::messages;
use crate::messages::{CarStateView, Finish, RaceSettings};
use crate::player;
use crate::player::{ClientInfoView, PlayerId, PlayerInfoView, ServerInfoView};

verus! {

broadcast use crate::le::group_widths;

// ---------------------------------------------------------------------------
// Fields
// ---------------------------------------------------------------------------

/// `x` in `n` bytes, the lowest first.
pub open spec fn low_first(x: int, n: nat) -> Seq<u8>
    decreases n,
{
    if n == 0 {
        Seq::empty()
    } else {
        seq![(x % 256) as u8] + low_first(x / 256, (n - 1) as nat)
    }
}

/// Four bytes, the lowest first.
pub open spec fn word(x: u32) -> Seq<u8> {
    low_first(x as int, 4)
}

/// Eight bytes, the lowest first.
pub open spec fn long(x: u64) -> Seq<u8> {
    low_first(x as int, 8)
}

/// A text: the length of its UTF-8 form in eight bytes, then that form.
pub open spec fn named(s: Seq<char>) -> Seq<u8> {
    long(utf8::encode_utf8(s).len() as u64) + utf8::encode_utf8(s)
}

/// A player: the client's number, then the player's.
pub open spec fn player(id: PlayerId) -> Seq<u8> {
    word(id.client_id) + word(id.player_index)
}

/// Parts one behind the other.
pub open spec fn laid_out(parts: Seq<Seq<u8>>) -> Seq<u8>
    decreases parts.len(),
{
    if parts.len() == 0 {
        Seq::empty()
    } else {
        parts[0] + laid_out(parts.skip(1))
    }
}

proof fn lemma_laid_out(parts: Seq<Seq<u8>>, x: Seq<u8>)
    ensures
        laid_out(parts.push(x)) == laid_out(parts) + x,
    decreases parts.len(),
{
    if parts.len() == 0 {
        assert(parts.push(x).skip(1) =~= Seq::empty());
        assert(laid_out(parts.push(x).skip(1)).len() == 0);
        assert(laid_out(parts.push(x)) =~= x);
        assert(laid_out(parts) + x =~= x);
    } else {
        assert(parts.push(x).skip(1) =~= parts.skip(1).push(x));
        lemma_laid_out(parts.skip(1), x);
        assert(laid_out(parts.push(x)) =~= laid_out(parts) + x);
    }
}

/// Integers are little-endian, as wide as their type.
pub proof fn law_integers_are_little_endian(a: u16, b: u32, c: u64)
    ensures
        le::u16_bytes(a) == low_first(a as int, 2),
        le::u32_bytes(b) == low_first(b as int, 4),
        le::u64_bytes(c) == low_first(c as int, 8),
{
    reveal(le::u16_bytes);
    reveal_with_fuel(low_first, 9);
    lemma_word(b);
    let x = c as int;
    assert(low_first(x, 2).len() == 2);
    assert(le::u16_bytes(a) =~= low_first(a as int, 2));
    let lo = (c % 0x1_0000_0000) as u32;
    let hi = (c / 0x1_0000_0000) as u32;
    reveal(le::u64_bytes);
    lemma_word(lo);
    lemma_word(hi);
    reveal(le::u32_bytes);
    assert(c as int == lo + 0x1_0000_0000 * hi);
    lemma_join(lo as int, hi as int);
    assert(le::u64_bytes(c) =~= low_first(x, 8));
}

proof fn lemma_word(b: u32)
    ensures
        le::u32_bytes(b) == low_first(b as int, 4),
{
    reveal(le::u32_bytes);
    reveal_with_fuel(low_first, 5);
    let x = b as int;
    assert(x / 256 / 256 == x / 65536);
    assert(x / 256 / 256 / 256 == x / 16777216);
    assert(le::u32_bytes(b) =~= low_first(x, 4));
}

proof fn lemma_join(lo: int, hi: int)
    requires
        0 <= lo < 0x1_0000_0000,
        0 <= hi < 0x1_0000_0000,
    ensures
        low_first(lo + 0x1_0000_0000 * hi, 8) == low_first(lo, 4) + low_first(hi, 4),
{
    let x = lo + 0x1_0000_0000 * hi;
    let x1 = lo / 256 + 0x100_0000 * hi;
    let x2 = lo / 256 / 256 + 0x1_0000 * hi;
    let x3 = lo / 256 / 256 / 256 + 0x100 * hi;
    assert(x / 256 == x1 && x % 256 == lo % 256);
    assert(x1 / 256 == x2 && x1 % 256 == lo / 256 % 256);
    assert(x2 / 256 == x3 && x2 % 256 == lo / 256 / 256 % 256);
    assert(x3 / 256 == hi && x3 % 256 == lo / 256 / 256 / 256 % 256);
    reveal_with_fuel(low_first, 5);
    assert(low_first(x, 8) == seq![(x % 256) as u8] + low_first(x1, 7));
    assert(low_first(x1, 7) == seq![(x1 % 256) as u8] + low_first(x2, 6));
    assert(low_first(x2, 6) == seq![(x2 % 256) as u8] + low_first(x3, 5));
    assert(low_first(x3, 5) == seq![(x3 % 256) as u8] + low_first(hi, 4));
    assert(low_first(x, 8) =~= low_first(lo, 4) + low_first(hi, 4));
}

proof fn lemma_long(x: u64)
    ensures
        le::u64_bytes(x) == long(x),
{
    law_integers_are_little_endian(0, 0, x);
}

proof fn lemma_player(id: PlayerId)
    ensures
        player::id_bytes(id) == player(id),
{
    lemma_word(id.client_id);
    lemma_word(id.player_index);
}

proof fn lemma_named(s: Seq<char>)
    ensures
        bytes::string_bytes(s) == named(s),
{
    lemma_long(utf8::encode_utf8(s).len() as u64);
}

/// A field is read from the bytes that it takes and from no others; where there
/// are too few the error says how many it needs, from where, and how many there
/// are.
pub proof fn law_fields_are_read_where_they_stand(b: Seq<u8>, at: int)
    requires
        0 <= at <= b.len() <= usize::MAX,
    ensures
        match bytes::read_u8(b, at) {
            Ok((x, p)) => at + 1 <= b.len() && p == at + 1 && b[at] == x,
            Err(e) => at + 1 > b.len() && e == (Error::Truncated {
                wanted: 1,
                at: at as usize,
                len: b.len() as usize,
            }),
        },
        match bytes::read_u16(b, at) {
            Ok((x, p)) => at + 2 <= b.len() && p == at + 2 && b.subrange(at, p) == low_first(
                x as int,
                2,
            ),
            Err(e) => at + 2 > b.len() && e == (Error::Truncated {
                wanted: 2,
                at: at as usize,
                len: b.len() as usize,
            }),
        },
        match bytes::read_u32(b, at) {
            Ok((x, p)) => at + 4 <= b.len() && p == at + 4 && b.subrange(at, p) == word(x),
            Err(e) => at + 4 > b.len() && e == (Error::Truncated {
                wanted: 4,
                at: at as usize,
                len: b.len() as usize,
            }),
        },
        match bytes::read_u64(b, at) {
            Ok((x, p)) => at + 8 <= b.len() && p == at + 8 && b.subrange(at, p) == long(x),
            Err(e) => at + 8 > b.len() && e == (Error::Truncated {
                wanted: 8,
                at: at as usize,
                len: b.len() as usize,
            }),
        },
        match bytes::read_option_tag(b, at) {
            Ok((x, p)) => at + 1 <= b.len() && p == at + 1 && b[at] == (if x {
                1u8
            } else {
                0u8
            }),
            Err(e) => if at == b.len() {
                e == (Error::Truncated { wanted: 1, at: at as usize, len: b.len() as usize })
            } else {
                b[at] > 1 && e == (Error::BadOptionTag { at: at as usize, value: b[at] })
            },
        },
{
    bytes::lemma_read_u16_holds(b, at);
    bytes::lemma_read_u32_holds(b, at);
    bytes::lemma_read_u64_holds(b, at);
    if let Ok((x, _)) = bytes::read_u16(b, at) {
        law_integers_are_little_endian(x, 0, 0);
    }
    if let Ok((x, _)) = bytes::read_u32(b, at) {
        lemma_word(x);
    }
    if let Ok((x, _)) = bytes::read_u64(b, at) {
        lemma_long(x);
    }
}

/// A byte sequence and a text are read by the length in front of them; a length
/// beyond the end, and bytes that are no UTF-8, are refused where they start.
pub proof fn law_lengths_are_believed_up_to_the_end(
    front: Seq<u8>,
    n: u64,
    rest: Seq<u8>,
    field: &'static str,
)
    requires
        front.len() + 8 + rest.len() <= usize::MAX,
    ensures
        ({
            let b = front + long(n) + rest;
            let at = front.len() as int;
            &&& n <= rest.len() ==> bytes::read_blob(b, at, field) == Ok::<
                (Seq<u8>, int),
                Error,
            >((rest.take(n as int), at + 8 + n))
            &&& n > rest.len() ==> bytes::read_blob(b, at, field) == Err::<(Seq<u8>, int), Error>(
                Error::ImplausibleLength { field, value: n, at: at as usize },
            ) && bytes::read_string(b, at) == Err::<(Seq<char>, int), Error>(
                Error::ImplausibleLength { field: "string", value: n, at: at as usize },
            )
            &&& n <= rest.len() && !utf8::valid_utf8(rest.take(n as int)) ==> bytes::read_string(
                b,
                at,
            ) == Err::<(Seq<char>, int), Error>(Error::InvalidUtf8 { at: at as usize })
            &&& n <= rest.len() && utf8::valid_utf8(rest.take(n as int)) ==> (
            bytes::read_string(b, at) matches Ok((s, p)) && p == at + 8 + n && utf8::encode_utf8(s)
                == rest.take(n as int))
        }),
{
    let b = front + long(n) + rest;
    let at = front.len() as int;
    lemma_long(n);
    assert(b.subrange(at, at + 8) =~= le::u64_bytes(n));
    bytes::lemma_read_back_u64(b, at, n);
    if n <= rest.len() {
        assert(b.subrange(at + 8, at + 8 + n) =~= rest.take(n as int));
        if utf8::valid_utf8(rest.take(n as int)) {
            utf8::decode_utf8_encode_utf8(rest.take(n as int));
        }
    }
    reveal(bytes::read_string);
}

// ---------------------------------------------------------------------------
// Datagrams
// ---------------------------------------------------------------------------

/// A datagram starts with its kind, 0 to 3. A reliable one carries its payload
/// behind the payload's length, then its number, how often it was sent, when, its
/// place in the ordered stream and its chunk, each of the two behind a byte that
/// says whether it is there.
pub proof fn law_datagram_layout(f: FrameView)
    ensures
        match f {
            FrameView::Reliable(p) => frame::frame_bytes(f) == seq![0u8] + long(
                p.payload.len() as u64,
            ) + p.payload + word(p.seq) + seq![p.resend] + long(p.sent_at) + (
            match p.ordered_index {
                Some(i) => seq![1u8] + word(i),
                None => seq![0u8],
            }) + (match p.chunk {
                Some(c) => seq![1u8] + word(c.id) + word(c.offset) + word(c.total_size)
                    + low_first(c.count as int, 2),
                None => seq![0u8],
            }),
            FrameView::Unreliable(payload) => frame::frame_bytes(f) == seq![1u8] + payload,
            FrameView::Ack(n) => frame::frame_bytes(f) == seq![2u8] + word(n),
            FrameView::Greeting(n) => frame::frame_bytes(f) == seq![3u8] + word(n),
        },
{
    match f {
        FrameView::Reliable(p) => {
            lemma_long(p.payload.len() as u64);
            lemma_word(p.seq);
            lemma_long(p.sent_at);
            if let Some(i) = p.ordered_index {
                lemma_word(i);
            }
            if let Some(c) = p.chunk {
                lemma_word(c.id);
                lemma_word(c.offset);
                lemma_word(c.total_size);
                law_integers_are_little_endian(c.count, 0, 0);
            }
            lemma_packet_layout(p);
        },
        FrameView::Unreliable(payload) => {},
        FrameView::Ack(n) => {
            lemma_word(n);
        },
        FrameView::Greeting(n) => {
            lemma_word(n);
        },
    }
}

proof fn lemma_packet_layout(p: PacketView)
    ensures
        seq![0u8] + frame::packet_bytes(p) == seq![0u8] + le::u64_bytes(p.payload.len() as u64)
            + p.payload + le::u32_bytes(p.seq) + seq![p.resend] + le::u64_bytes(p.sent_at)
            + frame::ordered_bytes(p.ordered_index) + frame::chunk_bytes(p.chunk),
{
    assert(seq![0u8] + frame::packet_bytes(p) =~= seq![0u8] + le::u64_bytes(
        p.payload.len() as u64,
    ) + p.payload + le::u32_bytes(p.seq) + seq![p.resend] + le::u64_bytes(p.sent_at)
        + frame::ordered_bytes(p.ordered_index) + frame::chunk_bytes(p.chunk));
}

/// Only the first byte tells game traffic apart: 0 to 3 are kinds of datagrams,
/// anything else is refused.
pub proof fn law_first_byte_is_the_kind(b: Seq<u8>)
    requires
        b.len() > 0,
    ensures
        Kind::of_tag(b[0]) is Some <==> b[0] < 4,
        b[0] >= 4 ==> frame::parsed(b) == Err::<FrameView, Error>(Error::UnknownKind(b[0])),
        b[0] == 1 ==> frame::parsed(b) == Ok::<FrameView, Error>(FrameView::Unreliable(b.skip(1))),
        frame::parsed(b) matches Ok(f) ==> (f is Reliable <==> b[0] == 0) && (f is Unreliable
            <==> b[0] == 1) && (f is Ack <==> b[0] == 2) && (f is Greeting <==> b[0] == 3),
{
    assert(b.subrange(0, 1)[0] == b[0]);
    assert(b.subrange(1, b.len() as int) =~= b.skip(1));
}

// ---------------------------------------------------------------------------
// Events
// ---------------------------------------------------------------------------

/// The lobby's short events: a number that tells them apart, then who it is
/// about.
pub proof fn law_lobby_event_layout(
    id: PlayerId,
    other: PlayerId,
    ready: bool,
    line: Seq<char>,
    clock: u32,
)
    ensures
        messages::chat_bytes(line) == word(0) + named(line),
        messages::ready_broadcast_bytes(id, ready) == word(7) + player(id) + seq![
            if ready {
                1u8
            } else {
                0u8
            },
        ],
        messages::player_left_bytes(id) == word(24) + player(id),
        messages::garage_visit_bytes(id, other) == word(35) + player(id) + player(other),
        messages::location_in_garage_bytes(id, other) == word(32) + player(id) + word(2) + player(
            other,
        ),
        messages::clock_bytes(Event::Ping, clock) == word(21) + word(clock),
        messages::clock_bytes(Event::Pong, clock) == word(22) + word(clock),
{
    lemma_word(0);
    lemma_word(2);
    lemma_word(7);
    lemma_word(21);
    lemma_word(22);
    lemma_word(24);
    lemma_word(32);
    lemma_word(35);
    lemma_word(clock);
    lemma_named(line);
    lemma_player(id);
    lemma_player(other);
    assert(messages::ready_broadcast_bytes(id, ready) =~= word(7) + player(id) + seq![
        if ready {
            1u8
        } else {
            0u8
        },
    ]);
    assert(messages::garage_visit_bytes(id, other) =~= word(35) + player(id) + player(other));
    assert(messages::location_in_garage_bytes(id, other) =~= word(32) + player(id) + word(2)
        + player(other));
}

/// Events that hand a garage on: what the owner sent, without its number, behind
/// the owner, around the car, or in front of where the car starts.
pub proof fn law_garage_event_layout(
    id: PlayerId,
    garage: Seq<u8>,
    prefix: Seq<u8>,
    scene: Seq<u8>,
    entity: u32,
    pose: Seq<u32>,
    disc: u32,
)
    requires
        garage.len() >= 4,
        pose.len() == 7,
    ensures
        messages::garage_commit_bytes(id, garage) == word(17) + player(id) + garage.skip(4),
        messages::visit_garage_response_bytes(id, garage, prefix, scene) == word(34) + prefix
            + garage.skip(4) + scene + player(id) + long(0),
        messages::spawn_car_bytes(id, entity, garage, pose) == word(10) + word(0) + player(id)
            + word(entity) + word(1) + garage.skip(4) + word(pose[0]) + word(pose[1]) + word(
            pose[2],
        ) + word(pose[3]) + word(pose[4]) + word(pose[5]) + word(pose[6]),
        messages::with_sender_bytes(disc, id, garage) == word(disc) + player(id) + garage.skip(4),
{
    lemma_word(0);
    lemma_word(1);
    lemma_word(10);
    lemma_word(17);
    lemma_word(34);
    lemma_word(disc);
    lemma_word(entity);
    lemma_long(0);
    lemma_player(id);
    lemma_pose_layout(pose);
    assert(messages::garage_commit_bytes(id, garage) =~= word(17) + player(id) + garage.skip(4));
    assert(messages::visit_garage_response_bytes(id, garage, prefix, scene) =~= word(34) + prefix
        + garage.skip(4) + scene + player(id) + long(0));
    let front = word(10) + word(0) + player(id) + word(entity) + word(1) + garage.skip(4);
    assert(messages::spawn_car_bytes(id, entity, garage, pose) =~= front + messages::pose_bytes(
        pose,
    ));
    assert(front + messages::pose_bytes(pose) =~= front + word(pose[0]) + word(pose[1]) + word(
        pose[2],
    ) + word(pose[3]) + word(pose[4]) + word(pose[5]) + word(pose[6]));
}

proof fn lemma_pose_layout(pose: Seq<u32>)
    requires
        pose.len() == 7,
    ensures
        messages::pose_bytes(pose) == word(pose[0]) + word(pose[1]) + word(pose[2]) + word(pose[3])
            + word(pose[4]) + word(pose[5]) + word(pose[6]),
{
    lemma_word(pose[0]);
    lemma_word(pose[1]);
    lemma_word(pose[2]);
    lemma_word(pose[3]);
    lemma_word(pose[4]);
    lemma_word(pose[5]);
    lemma_word(pose[6]);
    let p6 = pose.drop_last();
    let p5 = p6.drop_last();
    let p4 = p5.drop_last();
    let p3 = p4.drop_last();
    let p2 = p3.drop_last();
    let p1 = p2.drop_last();
    assert(p1.drop_last() =~= Seq::empty());
    assert(messages::pose_bytes(p1.drop_last()) =~= Seq::empty());
    assert(messages::pose_bytes(p1) =~= word(pose[0]));
    assert(messages::pose_bytes(p2) == messages::pose_bytes(p1) + word(pose[1]));
    assert(messages::pose_bytes(p3) == messages::pose_bytes(p2) + word(pose[2]));
    assert(messages::pose_bytes(p4) == messages::pose_bytes(p3) + word(pose[3]));
    assert(messages::pose_bytes(p5) == messages::pose_bytes(p4) + word(pose[4]));
    assert(messages::pose_bytes(p6) == messages::pose_bytes(p5) + word(pose[5]));
}

/// The events of a race: where it runs and how, who finished and when, and where
/// a car is.
pub proof fn law_race_event_layout(
    map: Seq<char>,
    variant: u32,
    s: RaceSettings,
    id: PlayerId,
    f: Finish,
    car: CarStateView,
)
    ensures
        messages::start_race_bytes(map, variant, s) == word(1) + named(map) + word(0) + word(s.laps)
            + word(
            if s.night {
                1
            } else {
                0
            },
        ) + word(
            if s.rain {
                1
            } else {
                0
            },
        ) + word(variant),
        messages::lobby_change_map_bytes(map, variant) == word(18) + named(map) + word(variant),
        messages::tagged(Event::RaceGo, Seq::empty()) == word(2),
        messages::tagged(Event::RaceEnd, seq![1u8]) == word(3) + seq![1u8],
        messages::car_crossed_finish_bytes(id, f) == word(5) + player(id) + word(f.entity) + word(
            f.generation,
        ) + long(f.time_bits),
        messages::car_broadcast_bytes(id, car) == word(12) + player(id) + word(car.entity) + word(
            car.generation,
        ) + car.state,
{
    lemma_word(0);
    lemma_word(1);
    lemma_word(2);
    lemma_word(3);
    lemma_word(5);
    lemma_word(12);
    lemma_word(18);
    lemma_word(s.laps);
    lemma_word(variant);
    lemma_named(map);
    lemma_player(id);
    lemma_word(f.entity);
    lemma_word(f.generation);
    lemma_long(f.time_bits);
    lemma_word(car.entity);
    lemma_word(car.generation);
    let night: u32 = if s.night {
        1
    } else {
        0
    };
    let rain: u32 = if s.rain {
        1
    } else {
        0
    };
    assert(messages::start_race_bytes(map, variant, s) =~= word(1) + named(map) + word(0) + word(
        s.laps,
    ) + word(night) + word(rain) + word(variant));
    assert(messages::lobby_change_map_bytes(map, variant) =~= word(18) + named(map) + word(
        variant,
    ));
    assert(messages::tagged(Event::RaceGo, Seq::empty()) =~= word(2));
    assert(messages::car_crossed_finish_bytes(id, f) =~= word(5) + player(id) + word(f.entity)
        + word(f.generation) + long(f.time_bits));
    assert(messages::car_broadcast_bytes(id, car) =~= word(12) + player(id) + word(car.entity)
        + word(car.generation) + car.state);
}

/// A lobby entry: who, their name, their avatar.
pub open spec fn entry(p: PlayerInfoView) -> Seq<u8> {
    player(p.id) + named(p.name) + p.avatar
}

proof fn lemma_entries(ps: Seq<PlayerInfoView>)
    ensures
        player::players_bytes(ps) == laid_out(ps.map_values(|p: PlayerInfoView| entry(p))),
    decreases ps.len(),
{
    let f = |p: PlayerInfoView| entry(p);
    if ps.len() == 0 {
        assert(ps.map_values(f) =~= Seq::empty());
    } else {
        let p = ps.last();
        lemma_entries(ps.drop_last());
        lemma_player(p.id);
        lemma_named(p.name);
        assert(ps.map_values(f) =~= ps.drop_last().map_values(f).push(entry(p)));
        lemma_laid_out(ps.drop_last().map_values(f), entry(p));
    }
}

proof fn lemma_names(ss: Seq<Seq<char>>)
    ensures
        player::strings_bytes(ss) == laid_out(ss.map_values(|s: Seq<char>| named(s))),
    decreases ss.len(),
{
    let f = |s: Seq<char>| named(s);
    if ss.len() == 0 {
        assert(ss.map_values(f) =~= Seq::empty());
    } else {
        lemma_names(ss.drop_last());
        lemma_named(ss.last());
        assert(ss.map_values(f) =~= ss.drop_last().map_values(f).push(named(ss.last())));
        lemma_laid_out(ss.drop_last().map_values(f), named(ss.last()));
    }
}

/// Who someone is: their name and how many mods they run, behind who they are in
/// the lobby where that is announced. The lobby: its players in order, whom it is
/// told to, who hosts, the track and its variant, and the mods.
pub proof fn law_identity_layout(id: PlayerId, i: ClientInfoView, s: ServerInfoView)
    ensures
        player::client_info_bytes(i) == word(15) + named(i.name) + long(i.trailing),
        player::joined_bytes(id, i) == word(13) + player(id) + named(i.name) + long(i.trailing),
        player::server_info_bytes(s) == word(14) + long(s.players.len() as u64) + laid_out(
            s.players.map_values(|p: PlayerInfoView| entry(p)),
        ) + player(s.applicant) + player(s.host) + named(s.map) + word(s.variant) + long(
            s.enabled_mods.len() as u64,
        ) + laid_out(s.enabled_mods.map_values(|m: Seq<char>| named(m))),
{
    lemma_word(13);
    lemma_word(14);
    lemma_word(15);
    lemma_named(i.name);
    lemma_long(i.trailing);
    lemma_player(id);
    lemma_long(s.players.len() as u64);
    lemma_entries(s.players);
    lemma_player(s.applicant);
    lemma_player(s.host);
    lemma_named(s.map);
    lemma_word(s.variant);
    lemma_long(s.enabled_mods.len() as u64);
    lemma_names(s.enabled_mods);
    assert(player::client_info_bytes(i) =~= word(15) + named(i.name) + long(i.trailing));
    assert(player::joined_bytes(id, i) =~= word(13) + player(id) + named(i.name) + long(
        i.trailing,
    ));
    assert(player::server_info_bytes(s) =~= word(14) + long(s.players.len() as u64) + laid_out(
        s.players.map_values(|p: PlayerInfoView| entry(p)),
    ) + player(s.applicant) + player(s.host) + named(s.map) + word(s.variant) + long(
        s.enabled_mods.len() as u64,
    ) + laid_out(s.enabled_mods.map_values(|m: Seq<char>| named(m))));
}

// ---------------------------------------------------------------------------
// What is read of an event
// ---------------------------------------------------------------------------

/// The number in front decides what an event is: another number, or too few
/// bytes for one, is refused with what was there.
pub proof fn law_events_are_told_apart_by_number(
    e: Event,
    n: u32,
    body: Seq<u8>,
    what: &'static str,
)
    requires
        body.len() + 4 <= usize::MAX,
    ensures
        event::read_event(word(n) + body, e, what) == if n == e.disc() {
            Ok::<((), int), Error>(((), 4))
        } else {
            Err(Error::UnknownDiscriminant { what, value: n })
        },
        body.len() < 4 ==> event::read_event(body, e, what) == Err::<((), int), Error>(
            Error::Truncated { wanted: 4, at: 0, len: body.len() as usize },
        ),
{
    let b = word(n) + body;
    lemma_word(n);
    assert(b.subrange(0, 4) =~= le::u32_bytes(n));
    bytes::lemma_read_back_u32(b, 0, n);
}

/// What clients report is read from behind the number: whether they are ready, by
/// any byte but zero; when they finished and with which car; why they leave, and
/// whose garage they ask for. What follows does not matter.
pub proof fn law_reports_are_read_from_behind_the_number(
    flag: u8,
    f: Finish,
    id: PlayerId,
    reason: u32,
    rest: Seq<u8>,
)
    ensures
        bytes::value_of(messages::read_ready(word(6) + seq![flag] + rest)) == Ok::<bool, Error>(
            flag != 0,
        ),
        bytes::value_of(
            messages::read_crossed_finish(
                word(4) + word(f.entity) + word(f.generation) + long(f.time_bits) + rest,
            ),
        ) == Ok::<Finish, Error>(f),
        bytes::value_of(messages::read_disconnect(word(23) + word(reason) + rest)) == Ok::<
            u32,
            Error,
        >(reason),
        bytes::value_of(
            messages::read_id_event(
                word(33) + player(id) + rest,
                Event::RequestVisitGarage,
                "RequestVisitGarage",
            ),
        ) == Ok::<PlayerId, Error>(id),
        bytes::value_of(
            messages::read_id_event(word(24) + player(id) + rest, Event::PlayerLeft, "PlayerLeft"),
        ) == Ok::<PlayerId, Error>(id),
{
    lemma_word(4);
    lemma_word(6);
    lemma_word(23);
    lemma_word(24);
    lemma_word(33);
    lemma_word(f.entity);
    lemma_word(f.generation);
    lemma_long(f.time_bits);
    lemma_word(reason);
    lemma_word(id.client_id);
    lemma_word(id.player_index);

    let a = word(6) + seq![flag] + rest;
    assert(a.subrange(0, 4) =~= le::u32_bytes(6));
    assert(a.subrange(4, 5) =~= seq![flag]);
    bytes::lemma_read_back_u32(a, 0, 6);
    bytes::lemma_read_back_u8(a, 4, flag);

    let b = word(4) + word(f.entity) + word(f.generation) + long(f.time_bits) + rest;
    assert(b.subrange(0, 4) =~= le::u32_bytes(4));
    assert(b.subrange(4, 8) =~= le::u32_bytes(f.entity));
    assert(b.subrange(8, 12) =~= le::u32_bytes(f.generation));
    assert(b.subrange(12, 20) =~= le::u64_bytes(f.time_bits));
    bytes::lemma_read_back_u32(b, 0, 4);
    bytes::lemma_read_back_u32(b, 4, f.entity);
    bytes::lemma_read_back_u32(b, 8, f.generation);
    bytes::lemma_read_back_u64(b, 12, f.time_bits);

    let c = word(23) + word(reason) + rest;
    assert(c.subrange(0, 4) =~= le::u32_bytes(23));
    assert(c.subrange(4, 8) =~= le::u32_bytes(reason));
    bytes::lemma_read_back_u32(c, 0, 23);
    bytes::lemma_read_back_u32(c, 4, reason);

    lemma_read_player(33, id, rest);
    lemma_read_player(24, id, rest);
}

proof fn lemma_read_player(n: u32, id: PlayerId, rest: Seq<u8>)
    ensures
        bytes::read_u32(word(n) + player(id) + rest, 0) == Ok::<(u32, int), Error>((n, 4)),
        player::read_player_id(word(n) + player(id) + rest, 4) == Ok::<(PlayerId, int), Error>(
            (id, 12),
        ),
{
    let b = word(n) + player(id) + rest;
    lemma_word(n);
    lemma_word(id.client_id);
    lemma_word(id.player_index);
    assert(b.subrange(0, 4) =~= le::u32_bytes(n));
    assert(b.subrange(4, 8) =~= le::u32_bytes(id.client_id));
    assert(b.subrange(8, 12) =~= le::u32_bytes(id.player_index));
    bytes::lemma_read_back_u32(b, 0, n);
    bytes::lemma_read_back_u32(b, 4, id.client_id);
    bytes::lemma_read_back_u32(b, 8, id.player_index);
}

/// A car state is everything between its number and the eight bytes at its end,
/// which name the car; with fewer behind the number it is refused.
pub proof fn law_car_is_named_at_the_end(state: Seq<u8>, entity: u32, generation: u32)
    ensures
        bytes::value_of(messages::read_car_state(word(11) + state + word(entity) + word(generation)))
            == Ok::<CarStateView, Error>(CarStateView { state, entity, generation }),
        state.len() < 8 ==> bytes::value_of(messages::read_car_state(word(11) + state)) == Err::<
            CarStateView,
            Error,
        >(Error::Truncated { wanted: 8, at: 4, len: (4 + state.len()) as usize }),
{
    lemma_word(11);
    lemma_word(entity);
    lemma_word(generation);
    messages::law_car_state_round_trips(CarStateView { state, entity, generation });
    let b = word(11) + state + word(entity) + word(generation);
    assert(b =~= messages::car_state_bytes(CarStateView { state, entity, generation }));
    let c = word(11) + state;
    assert(c.subrange(0, 4) =~= le::u32_bytes(11));
    bytes::lemma_read_back_u32(c, 0, 11);
}

/// A lobby description may list up to 64 players and 1024 mods, and no more.
pub proof fn law_lobby_lists_are_bounded(n: u64, s: ServerInfoView, front: Seq<u8>, rest: Seq<u8>)
    requires
        front.len() + 8 + rest.len() <= usize::MAX,
    ensures
        n > 64 ==> bytes::value_of(player::read_server_info(word(14) + long(n) + rest)) == Err::<
            ServerInfoView,
            Error,
        >(Error::ImplausibleLength { field: "players", value: n, at: 4 }),
        n > 1024 ==> player::read_mod_list(front + long(n) + rest, front.len() as int) == Err::<
            (Seq<Seq<char>>, int),
            Error,
        >(Error::ImplausibleLength { field: "enabled_mods", value: n, at: front.len() as usize }),
        s.players.len() <= 64 && s.enabled_mods.len() <= 1024 && player::fits(s.map) && (forall|
            i: int,
        |
            0 <= i < s.players.len() ==> player::fits(#[trigger] s.players[i].name)
                && s.players[i].avatar.len() == 5) && (forall|i: int|
            0 <= i < s.enabled_mods.len() ==> player::fits(#[trigger] s.enabled_mods[i]))
            ==> bytes::value_of(player::read_server_info(player::server_info_bytes(s))) == Ok::<
            ServerInfoView,
            Error,
        >(s),
{
    lemma_word(14);
    lemma_long(n);
    let b = word(14) + long(n) + rest;
    assert(b.subrange(0, 4) =~= le::u32_bytes(14));
    assert(b.subrange(4, 12) =~= le::u64_bytes(n));
    bytes::lemma_read_back_u32(b, 0, 14);
    bytes::lemma_read_back_u64(b, 4, n);
    let c = front + long(n) + rest;
    let at = front.len() as int;
    assert(c.subrange(at, at + 8) =~= le::u64_bytes(n));
    bytes::lemma_read_back_u64(c, at, n);
    if s.players.len() <= 64 && s.enabled_mods.len() <= 1024 && player::fits(s.map) && (forall|
        i: int,
    |
        0 <= i < s.players.len() ==> player::fits(#[trigger] s.players[i].name)
            && s.players[i].avatar.len() == 5) && (forall|i: int|
        0 <= i < s.enabled_mods.len() ==> player::fits(#[trigger] s.enabled_mods[i])) {
        player::law_server_info_round_trips(s);
    }
}

/// The events that are passed on, and as what: everything a client says of
/// itself, with the sender put in front, under the number next to its own or, for
/// the last three, three further.
pub proof fn law_relayed_events(n: u32)
    ensures
        messages::twin_of(n) == if n == 6 || n == 8 || n == 11 || n == 16 || n == 19 || n == 25 || n
            == 27 || n == 29 || n == 31 || n == 39 || n == 41 {
            Some((n + 1) as u32)
        } else if n == 43 || n == 44 || n == 45 {
            Some((n + 3) as u32)
        } else {
            None::<u32>
        },
{
}

/// The numbers of the events whose role is known.
pub proof fn law_event_numbers(n: u32)
    ensures
        Event::of_disc(n) is Some <==> n <= 7 || 10 <= n <= 18 || 21 <= n <= 24 || 29 <= n <= 35
            || n == 41 || n == 42,
        Event::of_disc(n) is None ==> event::event_of(word(n)) == Err::<Event, Error>(
            Error::UnknownDiscriminant { what: "event", value: n },
        ),
        Event::StartRace.disc() + 1 == Event::RaceGo.disc(),
        Event::RaceGo.disc() + 1 == Event::RaceEnd.disc(),
        Event::CrossedFinish.disc() + 1 == Event::CarCrossedFinish.disc(),
        Event::Ready.disc() + 1 == Event::ReadyBroadcast.disc(),
        Event::CarState.disc() + 1 == Event::CarStateBroadcast.disc(),
        Event::GarageState.disc() + 1 == Event::GarageStateCommit.disc(),
        Event::UpdateAvatarState.disc() + 1 == Event::UpdateAvatarStateBroadcast.disc(),
        Event::UpdateLocation.disc() + 1 == Event::UpdateLocationBroadcast.disc(),
        Event::StopGarageVisit.disc() + 1 == Event::StopGarageVisitBroadcast.disc(),
{
    lemma_word(n);
    assert(word(n).subrange(0, 4) =~= le::u32_bytes(n));
    bytes::lemma_read_back_u32(word(n), 0, n);
}

} // verus!
