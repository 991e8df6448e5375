//! Event payloads a host and its clients exchange in the lobby and in a race.
//!
//! Floating-point fields travel as their IEEE 754 bits.

use vstd::prelude::*;
use vstd::utf8;

use crate::bytes;
use crate::bytes::{put_bool, put_bytes, put_string, put_u32, put_u64, Cursor};
use crate::error::Error;
use crate::event;
use crate::event::{expect_event, Event};
use crate::le;
use crate::player;
use crate::player::PlayerId;

verus! {

broadcast use crate::le::group_widths;

/// The payload of an event: its discriminant, then `body`.
pub open spec fn tagged(e: Event, body: Seq<u8>) -> Seq<u8> {
    le::u32_bytes(e.disc()) + body
}

/// A payload without its discriminant; empty where it is shorter than that.
pub open spec fn body_of(payload: Seq<u8>) -> Seq<u8> {
    if payload.len() >= 4 {
        payload.skip(4)
    } else {
        Seq::empty()
    }
}

fn tag(e: Event) -> (out: Vec<u8>)
    ensures
        out@ == le::u32_bytes(e.disc()),
{
    let mut out: Vec<u8> = Vec::new();
    put_u32(&mut out, e.to_u32());
    assert(out@ =~= le::u32_bytes(e.disc()));
    out
}

fn body(payload: &[u8]) -> (r: &[u8])
    ensures
        r@ == body_of(payload@),
{
    if payload.len() >= 4 {
        let r = vstd::slice::slice_subrange(payload, 4, payload.len());
        assert(r@ =~= payload@.skip(4));
        r
    } else {
        let r = vstd::slice::slice_subrange(payload, 0, 0);
        assert(r@ =~= Seq::empty());
        r
    }
}

// ---------------------------------------------------------------------------
// Clocks
// ---------------------------------------------------------------------------

/// A Ping or Pong payload; `clock` is the bits of the sender's `f32` clock.
pub open spec fn clock_bytes(e: Event, clock: u32) -> Seq<u8> {
    tagged(e, le::u32_bytes(clock))
}

/// The clock behind a discriminant, whatever the event.
pub open spec fn read_clock(b: Seq<u8>) -> Result<(u32, int), Error> {
    match bytes::read_u32(b, 0) {
        Err(e) => Err(e),
        Ok((_, p)) => bytes::read_u32(b, p),
    }
}

/// Decode the clock carried by a Ping or Pong, as the bits of an `f32`.
pub fn clock_of(payload: &[u8]) -> (r: Result<u32, Error>)
    ensures
        r == bytes::value_of(read_clock(payload@)),
{
    let mut c = Cursor::new(payload);
    c.u32()?;
    c.u32()
}

/// Encode a Ping or Pong carrying `clock`, the bits of an `f32`.
pub fn encode_clock(event: Event, clock: u32) -> (out: Vec<u8>)
    ensures
        out@ == clock_bytes(event, clock),
{
    let mut out = tag(event);
    put_u32(&mut out, clock);
    out
}

// ---------------------------------------------------------------------------
// Chat
// ---------------------------------------------------------------------------

/// A chat line payload.
pub open spec fn chat_bytes(line: Seq<char>) -> Seq<u8> {
    tagged(Event::Chat, bytes::string_bytes(line))
}

pub open spec fn read_chat(b: Seq<u8>) -> Result<(Seq<char>, int), Error> {
    match event::read_event(b, Event::Chat, "Chat") {
        Err(e) => Err(e),
        Ok((_, p)) => bytes::read_string(b, p),
    }
}

/// Decode an [`Event::Chat`] line.
pub fn decode_chat(payload: &[u8]) -> (r: Result<String, Error>)
    ensures
        bytes::view_of(r) == bytes::value_of(read_chat(payload@)),
{
    let mut c = expect_event(payload, Event::Chat, "Chat")?;
    c.string()
}

/// Encode an [`Event::Chat`] line.
pub fn encode_chat(line: &str) -> (out: Vec<u8>)
    ensures
        out@ == chat_bytes(line@),
{
    let mut out = tag(Event::Chat);
    put_string(&mut out, line);
    out
}

// ---------------------------------------------------------------------------
// Ready, leaving, garages
// ---------------------------------------------------------------------------

pub open spec fn read_ready(b: Seq<u8>) -> Result<(bool, int), Error> {
    match event::read_event(b, Event::Ready, "Ready") {
        Err(e) => Err(e),
        Ok((_, p)) => match bytes::read_u8(b, p) {
            Err(e) => Err(e),
            Ok((v, p)) => Ok((v != 0, p)),
        },
    }
}

/// Decode a client's [`Event::Ready`] toggle.
pub fn decode_ready(payload: &[u8]) -> (r: Result<bool, Error>)
    ensures
        r == bytes::value_of(read_ready(payload@)),
{
    let mut c = expect_event(payload, Event::Ready, "Ready")?;
    let v = c.u8()?;
    Ok(v != 0)
}

pub open spec fn ready_broadcast_bytes(id: PlayerId, ready: bool) -> Seq<u8> {
    tagged(Event::ReadyBroadcast, player::id_bytes(id) + bytes::bool_bytes(ready))
}

/// Encode a [`Event::ReadyBroadcast`] for the given player.
pub fn encode_ready_broadcast(id: PlayerId, ready: bool) -> (out: Vec<u8>)
    ensures
        out@ == ready_broadcast_bytes(id, ready),
{
    let mut out = tag(Event::ReadyBroadcast);
    id.write(&mut out);
    put_bool(&mut out, ready);
    assert(out@ =~= ready_broadcast_bytes(id, ready));
    out
}

/// A `GarageStateCommit`: the body of a `GarageState` behind its owner.
pub open spec fn garage_commit_bytes(id: PlayerId, garage_state: Seq<u8>) -> Seq<u8> {
    tagged(Event::GarageStateCommit, player::id_bytes(id) + body_of(garage_state))
}

/// Build a [`Event::GarageStateCommit`] announcing `id`'s garage.
///
/// A commit is the player's `GarageState` body re-tagged with who owns it. The
/// host commits its own garage during the handshake, and a joining client stalls
/// at "Connecting" until it holds a commit for every player listed in
/// `ServerInfo`.
pub fn encode_garage_commit(id: PlayerId, garage_state: &[u8]) -> (out: Vec<u8>)
    ensures
        out@ == garage_commit_bytes(id, garage_state@),
{
    let mut out = tag(Event::GarageStateCommit);
    id.write(&mut out);
    put_bytes(&mut out, body(garage_state));
    assert(out@ =~= garage_commit_bytes(id, garage_state@));
    out
}

pub open spec fn player_left_bytes(id: PlayerId) -> Seq<u8> {
    tagged(Event::PlayerLeft, player::id_bytes(id))
}

/// Encode an [`Event::PlayerLeft`] broadcast for `id`.
pub fn encode_player_left(id: PlayerId) -> (out: Vec<u8>)
    ensures
        out@ == player_left_bytes(id),
{
    let mut out = tag(Event::PlayerLeft);
    id.write(&mut out);
    out
}

/// The player id that makes up the body of an event of kind `want`.
pub open spec fn read_id_event(b: Seq<u8>, want: Event, what: &'static str) -> Result<
    (PlayerId, int),
    Error,
> {
    match event::read_event(b, want, what) {
        Err(e) => Err(e),
        Ok((_, p)) => player::read_player_id(b, p),
    }
}

/// Decode an [`Event::PlayerLeft`] broadcast.
pub fn decode_player_left(payload: &[u8]) -> (r: Result<PlayerId, Error>)
    ensures
        r == bytes::value_of(read_id_event(payload@, Event::PlayerLeft, "PlayerLeft")),
{
    let mut c = expect_event(payload, Event::PlayerLeft, "PlayerLeft")?;
    PlayerId::read(&mut c)
}

pub open spec fn read_disconnect(b: Seq<u8>) -> Result<(u32, int), Error> {
    match event::read_event(b, Event::Disconnect, "Disconnect") {
        Err(e) => Err(e),
        Ok((_, p)) => bytes::read_u32(b, p),
    }
}

/// Decode the reason a client's [`Event::Disconnect`] gives: 0 none, 1 kick,
/// 2 timed out, 3 host left, 4 ban, 5 player limit.
pub fn decode_disconnect(payload: &[u8]) -> (r: Result<u32, Error>)
    ensures
        r == bytes::value_of(read_disconnect(payload@)),
{
    let mut c = expect_event(payload, Event::Disconnect, "Disconnect")?;
    c.u32()
}

// ---------------------------------------------------------------------------
// Garage visits
// ---------------------------------------------------------------------------

/// Decode an [`Event::RequestVisitGarage`] into the owner of the garage.
pub fn decode_visit_request(payload: &[u8]) -> (r: Result<PlayerId, Error>)
    ensures
        r == bytes::value_of(
            read_id_event(payload@, Event::RequestVisitGarage, "RequestVisitGarage"),
        ),
{
    let mut c = expect_event(payload, Event::RequestVisitGarage, "RequestVisitGarage")?;
    PlayerId::read(&mut c)
}

pub open spec fn garage_visit_bytes(visitor: PlayerId, owner: PlayerId) -> Seq<u8> {
    tagged(Event::GarageVisitBroadcast, player::id_bytes(visitor) + player::id_bytes(owner))
}

/// Encode an [`Event::GarageVisitBroadcast`]: `visitor` entered `owner`'s garage.
pub fn encode_garage_visit_broadcast(visitor: PlayerId, owner: PlayerId) -> (out: Vec<u8>)
    ensures
        out@ == garage_visit_bytes(visitor, owner),
{
    let mut out = tag(Event::GarageVisitBroadcast);
    visitor.write(&mut out);
    owner.write(&mut out);
    assert(out@ =~= garage_visit_bytes(visitor, owner));
    out
}

/// Location tag of a player in a garage; the owner's id follows it.
pub const LOCATION_GARAGE: u32 = 2;

pub open spec fn location_in_garage_bytes(visitor: PlayerId, owner: PlayerId) -> Seq<u8> {
    tagged(
        Event::UpdateLocationBroadcast,
        player::id_bytes(visitor) + le::u32_bytes(LOCATION_GARAGE) + player::id_bytes(owner),
    )
}

/// Encode the [`Event::UpdateLocationBroadcast`] that places `visitor` in
/// `owner`'s garage.
pub fn encode_location_in_garage(visitor: PlayerId, owner: PlayerId) -> (out: Vec<u8>)
    ensures
        out@ == location_in_garage_bytes(visitor, owner),
{
    let mut out = tag(Event::UpdateLocationBroadcast);
    visitor.write(&mut out);
    put_u32(&mut out, LOCATION_GARAGE);
    owner.write(&mut out);
    assert(out@ =~= location_in_garage_bytes(visitor, owner));
    out
}

/// The captured parts of a stock garage interior: what precedes and what
/// follows the car in a [`Event::VisitGarageResponse`].
#[derive(Debug, Clone, PartialEq, Eq)]
pub struct GarageScene {
    pub prefix: [u8; 32],
    pub scene: [u8; 240],
}

pub open spec fn visit_garage_response_bytes(
    owner: PlayerId,
    garage_state: Seq<u8>,
    prefix: Seq<u8>,
    scene: Seq<u8>,
) -> Seq<u8> {
    tagged(
        Event::VisitGarageResponse,
        prefix + body_of(garage_state) + scene + player::id_bytes(owner) + le::u64_bytes(0),
    )
}

/// Encode an [`Event::VisitGarageResponse`]: `owner`'s garage as a visitor sees
/// it. It does not name the visitor.
pub fn encode_visit_garage_response(
    owner: PlayerId,
    garage_state: &[u8],
    interior: &GarageScene,
) -> (out: Vec<u8>)
    ensures
        out@ == visit_garage_response_bytes(
            owner,
            garage_state@,
            interior.prefix@,
            interior.scene@,
        ),
{
    let mut out = tag(Event::VisitGarageResponse);
    put_bytes(&mut out, interior.prefix.as_slice());
    put_bytes(&mut out, body(garage_state));
    put_bytes(&mut out, interior.scene.as_slice());
    owner.write(&mut out);
    put_u64(&mut out, 0);
    assert(out@ =~= visit_garage_response_bytes(
        owner,
        garage_state@,
        interior.prefix@,
        interior.scene@,
    ));
    out
}

// ---------------------------------------------------------------------------
// Tracks and race control
// ---------------------------------------------------------------------------

/// What a host picks in its Race Settings panel.
#[derive(Debug, Clone, Copy, PartialEq, Eq, Structural)]
pub struct RaceSettings {
    pub laps: u32,
    pub night: bool,
    pub rain: bool,
}

impl Default for RaceSettings {
    fn default() -> (r: RaceSettings)
        ensures
            r == (RaceSettings { laps: 1, night: false, rain: false }),
    {
        RaceSettings { laps: 1, night: false, rain: false }
    }
}

/// A flag that travels as a word.
pub open spec fn flag_word(x: bool) -> u32 {
    if x {
        1
    } else {
        0
    }
}

pub open spec fn start_race_bytes(map: Seq<char>, variant: u32, s: RaceSettings) -> Seq<u8> {
    tagged(
        Event::StartRace,
        bytes::string_bytes(map) + le::u32_bytes(0) + le::u32_bytes(s.laps) + le::u32_bytes(
            flag_word(s.night),
        ) + le::u32_bytes(flag_word(s.rain)) + le::u32_bytes(variant),
    )
}

/// Encode an [`Event::StartRace`] for `map`: the variant travels in the last
/// word, after laps, night and rain.
pub fn encode_start_race(map: &str, variant: u32, settings: &RaceSettings) -> (out: Vec<u8>)
    ensures
        out@ == start_race_bytes(map@, variant, *settings),
{
    let mut out = tag(Event::StartRace);
    put_string(&mut out, map);
    put_u32(&mut out, 0);
    put_u32(&mut out, settings.laps);
    put_u32(&mut out, if settings.night { 1 } else { 0 });
    put_u32(&mut out, if settings.rain { 1 } else { 0 });
    put_u32(&mut out, variant);
    assert(out@ =~= start_race_bytes(map@, variant, *settings));
    out
}

pub open spec fn lobby_change_map_bytes(map: Seq<char>, variant: u32) -> Seq<u8> {
    tagged(Event::LobbyChangeMap, bytes::string_bytes(map) + le::u32_bytes(variant))
}

/// Encode an [`Event::LobbyChangeMap`]: the next race runs on `map`.
pub fn encode_lobby_change_map(map: &str, variant: u32) -> (out: Vec<u8>)
    ensures
        out@ == lobby_change_map_bytes(map@, variant),
{
    let mut out = tag(Event::LobbyChangeMap);
    put_string(&mut out, map);
    put_u32(&mut out, variant);
    assert(out@ =~= lobby_change_map_bytes(map@, variant));
    out
}

/// Encode an [`Event::RaceGo`]; it has no body.
pub fn encode_race_go() -> (out: Vec<u8>)
    ensures
        out@ == tagged(Event::RaceGo, Seq::empty()),
{
    let out = tag(Event::RaceGo);
    assert(out@ =~= tagged(Event::RaceGo, Seq::empty()));
    out
}

/// Encode an [`Event::RaceEnd`]: body is the one `bool` a real host sent.
pub fn encode_race_end() -> (out: Vec<u8>)
    ensures
        out@ == tagged(Event::RaceEnd, seq![1u8]),
{
    let mut out = tag(Event::RaceEnd);
    out.push(1);
    assert(out@ =~= tagged(Event::RaceEnd, seq![1u8]));
    out
}

// ---------------------------------------------------------------------------
// Finishes
// ---------------------------------------------------------------------------

/// A car that crossed the finish, as reported in [`Event::CrossedFinish`]
/// (client -> host) and relayed in [`Event::CarCrossedFinish`].
#[derive(Debug, Clone, Copy, PartialEq, Eq, Structural)]
pub struct Finish {
    /// `Entity` index from the car's `SpawnCar`.
    pub entity: u32,
    /// `Entity` generation; `1` in every capture.
    pub generation: u32,
    /// Race time in seconds, as the bits of an `f64`.
    pub time_bits: u64,
}

pub open spec fn finish_bytes(f: Finish) -> Seq<u8> {
    le::u32_bytes(f.entity) + le::u32_bytes(f.generation) + le::u64_bytes(f.time_bits)
}

pub open spec fn read_finish(b: Seq<u8>, at: int) -> Result<(Finish, int), Error> {
    match bytes::read_u32(b, at) {
        Err(e) => Err(e),
        Ok((entity, p)) => match bytes::read_u32(b, p) {
            Err(e) => Err(e),
            Ok((generation, p)) => match bytes::read_u64(b, p) {
                Err(e) => Err(e),
                Ok((time_bits, p)) => Ok((Finish { entity, generation, time_bits }, p)),
            },
        },
    }
}

impl Finish {
    pub fn read(c: &mut Cursor<'_>) -> (r: Result<Finish, Error>)
        requires
            old(c).wf(),
        ensures
            final(c).follows(old(c)),
            bytes::outcome(r, final(c).pos as int) == read_finish(old(c).buf@, old(c).pos as int),
    {
        let entity = c.u32()?;
        let generation = c.u32()?;
        let time_bits = c.u64()?;
        Ok(Finish { entity, generation, time_bits })
    }

    pub fn write(&self, out: &mut Vec<u8>)
        ensures
            final(out)@ == old(out)@ + finish_bytes(*self),
    {
        put_u32(out, self.entity);
        put_u32(out, self.generation);
        put_u64(out, self.time_bits);
        assert(out@ =~= old(out)@ + finish_bytes(*self));
    }
}

pub open spec fn read_crossed_finish(b: Seq<u8>) -> Result<(Finish, int), Error> {
    match event::read_event(b, Event::CrossedFinish, "CrossedFinish") {
        Err(e) => Err(e),
        Ok((_, p)) => read_finish(b, p),
    }
}

/// Decode a client's [`Event::CrossedFinish`].
pub fn decode_crossed_finish(payload: &[u8]) -> (r: Result<Finish, Error>)
    ensures
        r == bytes::value_of(read_crossed_finish(payload@)),
{
    let mut c = expect_event(payload, Event::CrossedFinish, "CrossedFinish")?;
    Finish::read(&mut c)
}

pub open spec fn car_crossed_finish_bytes(id: PlayerId, f: Finish) -> Seq<u8> {
    tagged(Event::CarCrossedFinish, player::id_bytes(id) + finish_bytes(f))
}

/// Encode a [`Event::CarCrossedFinish`] telling the other clients that
/// `id`'s car finished.
pub fn encode_car_crossed_finish(id: PlayerId, finish: &Finish) -> (out: Vec<u8>)
    ensures
        out@ == car_crossed_finish_bytes(id, *finish),
{
    let mut out = tag(Event::CarCrossedFinish);
    id.write(&mut out);
    finish.write(&mut out);
    assert(out@ =~= car_crossed_finish_bytes(id, *finish));
    out
}

pub open spec fn read_car_crossed_finish(b: Seq<u8>) -> Result<((PlayerId, Finish), int), Error> {
    match event::read_event(b, Event::CarCrossedFinish, "CarCrossedFinish") {
        Err(e) => Err(e),
        Ok((_, p)) => match player::read_player_id(b, p) {
            Err(e) => Err(e),
            Ok((id, p)) => match read_finish(b, p) {
                Err(e) => Err(e),
                Ok((f, p)) => Ok(((id, f), p)),
            },
        },
    }
}

/// Decode a host's [`Event::CarCrossedFinish`] into the owner and its finish.
pub fn decode_car_crossed_finish(payload: &[u8]) -> (r: Result<(PlayerId, Finish), Error>)
    ensures
        r == bytes::value_of(read_car_crossed_finish(payload@)),
{
    let mut c = expect_event(payload, Event::CarCrossedFinish, "CarCrossedFinish")?;
    let id = PlayerId::read(&mut c)?;
    let finish = Finish::read(&mut c)?;
    Ok((id, finish))
}

// ---------------------------------------------------------------------------
// Cars
// ---------------------------------------------------------------------------

/// A car's placement: rotation quaternion `(x, y, z, w)` then position, each as
/// the bits of an `f32`.
pub type Pose = [u32; 7];

/// A pose on the wire.
pub open spec fn pose_bytes(pose: Seq<u32>) -> Seq<u8>
    decreases pose.len(),
{
    if pose.len() == 0 {
        Seq::empty()
    } else {
        pose_bytes(pose.drop_last()) + le::u32_bytes(pose.last())
    }
}

pub proof fn lemma_pose_bytes_width(pose: Seq<u32>)
    ensures
        pose_bytes(pose).len() == 4 * pose.len(),
    decreases pose.len(),
{
    if pose.len() > 0 {
        lemma_pose_bytes_width(pose.drop_last());
    }
}

/// Append a pose.
pub fn put_pose(out: &mut Vec<u8>, pose: &Pose)
    ensures
        final(out)@ == old(out)@ + pose_bytes(pose@),
{
    let mut i: usize = 0;
    assert(pose@.take(0) =~= Seq::empty());
    assert(out@ =~= old(out)@ + pose_bytes(pose@.take(0)));
    while i < 7
        invariant
            i <= 7,
            out@ == old(out)@ + pose_bytes(pose@.take(i as int)),
        decreases 7 - i,
    {
        put_u32(out, pose[i]);
        proof {
            let grown = pose@.take(i + 1);
            assert(grown.drop_last() =~= pose@.take(i as int));
            assert(out@ =~= old(out)@ + pose_bytes(grown));
        }
        i = i + 1;
    }
    assert(pose@.take(7) =~= pose@);
}

/// Every entity a host labels has this generation.
pub const GENERATION: u32 = 1;

pub open spec fn spawn_car_bytes(
    id: PlayerId,
    entity: u32,
    garage_state: Seq<u8>,
    pose: Seq<u32>,
) -> Seq<u8> {
    tagged(
        Event::SpawnCar,
        le::u32_bytes(0) + player::id_bytes(id) + le::u32_bytes(entity) + le::u32_bytes(GENERATION)
            + body_of(garage_state) + pose_bytes(pose),
    )
}

/// Encode an [`Event::SpawnCar`]: the host's instruction to create `id`'s car
/// in every client's world.
///
/// `u32 0`, owner `PlayerId`, the `Entity` the host gave the car as `(u32 index,
/// u32 generation)` (clients echo it in their `CarState`), the player's
/// `GarageState` body, then the start `Pose`.
pub fn encode_spawn_car(id: PlayerId, entity: u32, garage_state: &[u8], pose: &Pose) -> (out: Vec<
    u8,
>)
    ensures
        out@ == spawn_car_bytes(id, entity, garage_state@, pose@),
{
    let mut out = tag(Event::SpawnCar);
    put_u32(&mut out, 0);
    id.write(&mut out);
    put_u32(&mut out, entity);
    put_u32(&mut out, GENERATION);
    put_bytes(&mut out, body(garage_state));
    put_pose(&mut out, pose);
    assert(out@ =~= spawn_car_bytes(id, entity, garage_state@, pose@));
    out
}

/// One car's physics snapshot as carried by [`Event::CarState`] (client ->
/// host, `state` then entity) and [`Event::CarStateBroadcast`] (host ->
/// clients, owner and entity then `state`). The `state` is opaque to a relay.
#[derive(Debug, Clone, PartialEq, Eq)]
pub struct CarState<'a> {
    pub state: &'a [u8],
    /// `Entity` index from the car's `SpawnCar`.
    pub entity: u32,
    /// `Entity` generation; `1` in every capture.
    pub generation: u32,
}

/// What a [`CarState`] holds.
#[verifier::ext_equal]
pub struct CarStateView {
    pub state: Seq<u8>,
    pub entity: u32,
    pub generation: u32,
}

impl<'a> View for CarState<'a> {
    type V = CarStateView;

    open spec fn view(&self) -> CarStateView {
        CarStateView { state: self.state@, entity: self.entity, generation: self.generation }
    }
}

/// The `CarState` payload a client sends: the state, then the entity.
pub open spec fn car_state_bytes(s: CarStateView) -> Seq<u8> {
    tagged(Event::CarState, s.state + le::u32_bytes(s.entity) + le::u32_bytes(s.generation))
}

/// The `CarStateBroadcast` payload a host sends: owner and entity, then the
/// state.
pub open spec fn car_broadcast_bytes(id: PlayerId, s: CarStateView) -> Seq<u8> {
    tagged(
        Event::CarStateBroadcast,
        player::id_bytes(id) + le::u32_bytes(s.entity) + le::u32_bytes(s.generation) + s.state,
    )
}

pub open spec fn read_car_state(b: Seq<u8>) -> Result<(CarStateView, int), Error> {
    match event::read_event(b, Event::CarState, "CarState") {
        Err(e) => Err(e),
        Ok(_) => if b.len() < 12 {
            Err(Error::Truncated { wanted: 8, at: 4, len: b.len() as usize })
        } else {
            let end = b.len() as int;
            Ok(
                (
                    CarStateView {
                        state: b.subrange(4, end - 8),
                        entity: le::u32_of(b.subrange(end - 8, end - 4)),
                        generation: le::u32_of(b.subrange(end - 4, end)),
                    },
                    end,
                ),
            )
        },
    }
}

pub open spec fn read_car_broadcast(b: Seq<u8>) -> Result<((PlayerId, CarStateView), int), Error> {
    match event::read_event(b, Event::CarStateBroadcast, "CarStateBroadcast") {
        Err(e) => Err(e),
        Ok((_, p)) => match player::read_player_id(b, p) {
            Err(e) => Err(e),
            Ok((id, p)) => match bytes::read_u32(b, p) {
                Err(e) => Err(e),
                Ok((entity, p)) => match bytes::read_u32(b, p) {
                    Err(e) => Err(e),
                    Ok((generation, p)) => Ok(
                        (
                            (
                                id,
                                CarStateView {
                                    state: b.subrange(p, b.len() as int),
                                    entity,
                                    generation,
                                },
                            ),
                            b.len() as int,
                        ),
                    ),
                },
            },
        },
    }
}

impl<'a> CarState<'a> {
    pub fn decode(payload: &'a [u8]) -> (r: Result<CarState<'a>, Error>)
        ensures
            bytes::view_of(r) == bytes::value_of(read_car_state(payload@)),
    {
        let mut c = expect_event(payload, Event::CarState, "CarState")?;
        if c.remaining() < 8 {
            return Err(Error::Truncated { wanted: 8, at: c.pos, len: payload.len() });
        }
        let n = c.remaining() - 8;
        let state = c.take(n)?;
        let entity = c.u32()?;
        let generation = c.u32()?;
        Ok(CarState { state, entity, generation })
    }

    /// Decode a broadcast into the owning player and its state.
    pub fn decode_broadcast(payload: &'a [u8]) -> (r: Result<(PlayerId, CarState<'a>), Error>)
        ensures
            match r {
                Ok((id, s)) => bytes::value_of(read_car_broadcast(payload@)) == Ok::<
                    (PlayerId, CarStateView),
                    Error,
                >((id, s@)),
                Err(e) => bytes::value_of(read_car_broadcast(payload@)) == Err::<
                    (PlayerId, CarStateView),
                    Error,
                >(e),
            },
    {
        let mut c = expect_event(payload, Event::CarStateBroadcast, "CarStateBroadcast")?;
        let id = PlayerId::read(&mut c)?;
        let entity = c.u32()?;
        let generation = c.u32()?;
        let n = c.remaining();
        let state = c.take(n)?;
        Ok((id, CarState { state, entity, generation }))
    }

    /// Encode as the [`Event::CarStateBroadcast`] a host relays to the other
    /// participants.
    pub fn encode_broadcast(&self, id: PlayerId) -> (out: Vec<u8>)
        ensures
            out@ == car_broadcast_bytes(id, self@),
    {
        let mut out = tag(Event::CarStateBroadcast);
        id.write(&mut out);
        put_u32(&mut out, self.entity);
        put_u32(&mut out, self.generation);
        put_bytes(&mut out, self.state);
        assert(out@ =~= car_broadcast_bytes(id, self@));
        out
    }
}

// ---------------------------------------------------------------------------
// Relaying a client event to the rest of the lobby
// ---------------------------------------------------------------------------

/// The broadcast a host turns a client event into, by discriminant.
pub open spec fn twin_of(disc: u32) -> Option<u32> {
    if disc == 6 {
        Some(7)
    } else if disc == 8 {
        Some(9)
    } else if disc == 11 {
        Some(12)
    } else if disc == 16 {
        Some(17)
    } else if disc == 19 {
        Some(20)
    } else if disc == 25 {
        Some(26)
    } else if disc == 27 {
        Some(28)
    } else if disc == 29 {
        Some(30)
    } else if disc == 31 {
        Some(32)
    } else if disc == 39 {
        Some(40)
    } else if disc == 41 {
        Some(42)
    } else if disc == 43 {
        Some(46)
    } else if disc == 44 {
        Some(47)
    } else if disc == 45 {
        Some(48)
    } else {
        None
    }
}

/// The broadcast a host turns a client event into: the same body tagged with
/// the sender. A client event without a twin is not broadcast.
pub fn broadcast_twin(disc: u32) -> (r: Option<u32>)
    ensures
        r == twin_of(disc),
{
    match disc {
        6 => Some(7),
        8 => Some(9),
        11 => Some(12),
        16 => Some(17),
        19 => Some(20),
        25 => Some(26),
        27 => Some(28),
        29 => Some(30),
        31 => Some(32),
        39 => Some(40),
        41 => Some(42),
        43 => Some(46),
        44 => Some(47),
        45 => Some(48),
        _ => None,
    }
}

/// Whether a host relays the event unchanged; only the chat line is.
pub fn broadcast_verbatim(disc: u32) -> (r: bool)
    ensures
        r == (disc == Event::Chat.disc()),
{
    disc == 0
}

/// The body of `payload` behind another discriminant and the sender's id.
pub open spec fn with_sender_bytes(disc: u32, id: PlayerId, payload: Seq<u8>) -> Seq<u8> {
    le::u32_bytes(disc) + player::id_bytes(id) + body_of(payload)
}

/// Re-tag a client payload as the broadcast `disc` sent on behalf of `id`.
pub fn encode_with_sender_disc(disc: u32, id: PlayerId, payload: &[u8]) -> (out: Vec<u8>)
    ensures
        out@ == with_sender_bytes(disc, id, payload@),
{
    let mut out: Vec<u8> = Vec::new();
    put_u32(&mut out, disc);
    id.write(&mut out);
    put_bytes(&mut out, body(payload));
    assert(out@ =~= with_sender_bytes(disc, id, payload@));
    out
}

/// Re-tag a client payload as the broadcast `event` sent on behalf of `id`.
pub fn encode_with_sender(event: Event, id: PlayerId, payload: &[u8]) -> (out: Vec<u8>)
    ensures
        out@ == with_sender_bytes(event.disc(), id, payload@),
{
    encode_with_sender_disc(event.to_u32(), id, payload)
}

// ---------------------------------------------------------------------------
// Laws
// ---------------------------------------------------------------------------

proof fn lemma_behind_tag(e: Event, rest: Seq<u8>, what: &'static str)
    ensures
        event::read_event(tagged(e, rest), e, what) == Ok::<((), int), Error>(((), 4)),
        bytes::read_u32(tagged(e, rest), 0) == Ok::<(u32, int), Error>((e.disc(), 4)),
        bytes::holds(tagged(e, rest), 4, rest),
{
    let b = tagged(e, rest);
    assert(b.subrange(0, b.len() as int) =~= b);
    bytes::lemma_holds_concat(b, 0, le::u32_bytes(e.disc()), rest);
    bytes::lemma_read_back_u32(b, 0, e.disc());
}

/// A Pong built from the clock of a Ping carries that same clock.
pub proof fn law_clock_round_trips(e: Event, clock: u32)
    ensures
        bytes::value_of(read_clock(clock_bytes(e, clock))) == Ok::<u32, Error>(clock),
{
    lemma_behind_tag(e, le::u32_bytes(clock), "");
    bytes::lemma_read_back_u32(clock_bytes(e, clock), 4, clock);
}

/// A chat line that was encoded decodes to itself.
pub proof fn law_chat_round_trips(line: Seq<char>)
    requires
        utf8::encode_utf8(line).len() <= u64::MAX,
    ensures
        bytes::value_of(read_chat(chat_bytes(line))) == Ok::<Seq<char>, Error>(line),
{
    lemma_behind_tag(Event::Chat, bytes::string_bytes(line), "Chat");
    bytes::lemma_read_back_string(chat_bytes(line), 4, line);
}

/// A departure that was encoded decodes to the player that left.
pub proof fn law_player_left_round_trips(id: PlayerId)
    ensures
        bytes::value_of(read_id_event(player_left_bytes(id), Event::PlayerLeft, "PlayerLeft"))
            == Ok::<PlayerId, Error>(id),
{
    lemma_behind_tag(Event::PlayerLeft, player::id_bytes(id), "PlayerLeft");
    player::lemma_read_back_player_id(player_left_bytes(id), 4, id);
}

proof fn lemma_read_back_finish(b: Seq<u8>, at: int, f: Finish)
    requires
        bytes::holds(b, at, finish_bytes(f)),
    ensures
        read_finish(b, at) == Ok::<(Finish, int), Error>((f, at + 16)),
{
    let front = le::u32_bytes(f.entity) + le::u32_bytes(f.generation);
    bytes::lemma_holds_concat(b, at, front, le::u64_bytes(f.time_bits));
    bytes::lemma_holds_concat(b, at, le::u32_bytes(f.entity), le::u32_bytes(f.generation));
    bytes::lemma_read_back_u32(b, at, f.entity);
    bytes::lemma_read_back_u32(b, at + 4, f.generation);
    bytes::lemma_read_back_u64(b, at + 8, f.time_bits);
}

/// A relayed finish that was encoded decodes to the owner and its finish.
pub proof fn law_car_crossed_finish_round_trips(id: PlayerId, f: Finish)
    ensures
        bytes::value_of(read_car_crossed_finish(car_crossed_finish_bytes(id, f))) == Ok::<
            (PlayerId, Finish),
            Error,
        >((id, f)),
{
    let b = car_crossed_finish_bytes(id, f);
    lemma_behind_tag(
        Event::CarCrossedFinish,
        player::id_bytes(id) + finish_bytes(f),
        "CarCrossedFinish",
    );
    bytes::lemma_holds_concat(b, 4, player::id_bytes(id), finish_bytes(f));
    player::lemma_read_back_player_id(b, 4, id);
    lemma_read_back_finish(b, 12, f);
}

/// A relayed finish carries the bytes the client reported, behind the owner.
pub proof fn law_finish_relay_keeps_the_report(id: PlayerId, payload: Seq<u8>)
    ensures
        read_crossed_finish(payload) matches Ok((f, end)) ==> 4 <= end <= payload.len()
            && car_crossed_finish_bytes(id, f).skip(12) == payload.subrange(4, end),
{
    if let Ok((f, end)) = read_crossed_finish(payload) {
        lemma_read_finish_holds(payload, 4);
        assert(car_crossed_finish_bytes(id, f).skip(12) =~= finish_bytes(f));
    }
}

/// A client's car state decodes to what it was built from.
pub proof fn law_car_state_round_trips(s: CarStateView)
    ensures
        bytes::value_of(read_car_state(car_state_bytes(s))) == Ok::<CarStateView, Error>(s),
{
    let b = car_state_bytes(s);
    let end = b.len() as int;
    lemma_behind_tag(
        Event::CarState,
        s.state + le::u32_bytes(s.entity) + le::u32_bytes(s.generation),
        "CarState",
    );
    assert(b.subrange(4, end - 8) =~= s.state);
    assert(b.subrange(end - 8, end - 4) =~= le::u32_bytes(s.entity));
    assert(b.subrange(end - 4, end) =~= le::u32_bytes(s.generation));
    le::lemma_u32_round_trip(s.entity, Seq::empty());
    le::lemma_u32_round_trip(s.generation, Seq::empty());
}

/// A broadcast car state decodes to its owner and what it was built from.
pub proof fn law_car_broadcast_round_trips(id: PlayerId, s: CarStateView)
    ensures
        bytes::value_of(read_car_broadcast(car_broadcast_bytes(id, s))) == Ok::<
            (PlayerId, CarStateView),
            Error,
        >((id, s)),
{
    let b = car_broadcast_bytes(id, s);
    let p1 = player::id_bytes(id);
    let p2 = p1 + le::u32_bytes(s.entity);
    let p3 = p2 + le::u32_bytes(s.generation);
    lemma_behind_tag(Event::CarStateBroadcast, p3 + s.state, "CarStateBroadcast");
    bytes::lemma_holds_concat(b, 4, p3, s.state);
    bytes::lemma_holds_concat(b, 4, p2, le::u32_bytes(s.generation));
    bytes::lemma_holds_concat(b, 4, p1, le::u32_bytes(s.entity));
    player::lemma_read_back_player_id(b, 4, id);
    bytes::lemma_read_back_u32(b, 12, s.entity);
    bytes::lemma_read_back_u32(b, 16, s.generation);
    assert(b.subrange(20, b.len() as int) =~= s.state);
}

/// Encoding a decoded chat line reproduces the bytes it was read from.
pub proof fn law_decoded_chat_encodes_back(b: Seq<u8>)
    ensures
        read_chat(b) matches Ok((line, end)) ==> 0 <= end <= b.len() && chat_bytes(line)
            == b.subrange(0, end),
{
    if let Ok((line, end)) = read_chat(b) {
        bytes::lemma_read_u32_holds(b, 0);
        bytes::lemma_read_string_holds(b, 4);
        bytes::lemma_holds_concat(
            b,
            0,
            le::u32_bytes(Event::Chat.disc()),
            bytes::string_bytes(line),
        );
    }
}

/// Encoding a decoded departure reproduces the bytes it was read from.
pub proof fn law_decoded_player_left_encodes_back(b: Seq<u8>)
    ensures
        read_id_event(b, Event::PlayerLeft, "PlayerLeft") matches Ok((id, end))
            ==> 0 <= end <= b.len() && player_left_bytes(id) == b.subrange(0, end),
{
    if let Ok((id, end)) = read_id_event(b, Event::PlayerLeft, "PlayerLeft") {
        bytes::lemma_read_u32_holds(b, 0);
        player::lemma_read_player_id_holds(b, 4);
        bytes::lemma_holds_concat(
            b,
            0,
            le::u32_bytes(Event::PlayerLeft.disc()),
            player::id_bytes(id),
        );
    }
}

proof fn lemma_read_finish_holds(b: Seq<u8>, at: int)
    requires
        0 <= at,
    ensures
        read_finish(b, at) matches Ok((f, p)) ==> p == at + 16 && bytes::holds(
            b,
            at,
            finish_bytes(f),
        ),
{
    if let Ok((f, p)) = read_finish(b, at) {
        let front = le::u32_bytes(f.entity) + le::u32_bytes(f.generation);
        bytes::lemma_read_u32_holds(b, at);
        bytes::lemma_read_u32_holds(b, at + 4);
        bytes::lemma_read_u64_holds(b, at + 8);
        bytes::lemma_holds_concat(b, at, le::u32_bytes(f.entity), le::u32_bytes(f.generation));
        bytes::lemma_holds_concat(b, at, front, le::u64_bytes(f.time_bits));
    }
}

/// Encoding a decoded relayed finish reproduces the bytes it was read from.
pub proof fn law_decoded_car_crossed_finish_encodes_back(b: Seq<u8>)
    ensures
        read_car_crossed_finish(b) matches Ok(((id, f), end)) ==> 0 <= end <= b.len()
            && car_crossed_finish_bytes(id, f) == b.subrange(0, end),
{
    if let Ok(((id, f), end)) = read_car_crossed_finish(b) {
        bytes::lemma_read_u32_holds(b, 0);
        player::lemma_read_player_id_holds(b, 4);
        lemma_read_finish_holds(b, 12);
        bytes::lemma_holds_concat(b, 4, player::id_bytes(id), finish_bytes(f));
        bytes::lemma_holds_concat(
            b,
            0,
            le::u32_bytes(Event::CarCrossedFinish.disc()),
            player::id_bytes(id) + finish_bytes(f),
        );
    }
}

/// Encoding a decoded broadcast car state reproduces its bytes.
pub proof fn law_decoded_car_broadcast_encodes_back(b: Seq<u8>)
    ensures
        read_car_broadcast(b) matches Ok(((id, s), _)) ==> car_broadcast_bytes(id, s) == b,
{
    if let Ok(((id, s), _)) = read_car_broadcast(b) {
        let p1 = player::id_bytes(id);
        let p2 = p1 + le::u32_bytes(s.entity);
        let p3 = p2 + le::u32_bytes(s.generation);
        bytes::lemma_read_u32_holds(b, 0);
        player::lemma_read_player_id_holds(b, 4);
        bytes::lemma_read_u32_holds(b, 12);
        bytes::lemma_read_u32_holds(b, 16);
        bytes::lemma_holds_concat(b, 4, p1, le::u32_bytes(s.entity));
        bytes::lemma_holds_concat(b, 4, p2, le::u32_bytes(s.generation));
        bytes::lemma_holds_concat(b, 4, p3, s.state);
        bytes::lemma_holds_concat(
            b,
            0,
            le::u32_bytes(Event::CarStateBroadcast.disc()),
            p3 + s.state,
        );
        assert(b.subrange(0, b.len() as int) =~= b);
    }
}

/// A relayed car state carries the state the client reported: it decodes to the
/// owner and to what the client's own payload decodes to.
pub proof fn law_car_state_relay_keeps_the_report(id: PlayerId, payload: Seq<u8>)
    ensures
        read_car_state(payload) matches Ok((s, _)) ==> bytes::value_of(
            read_car_broadcast(car_broadcast_bytes(id, s)),
        ) == Ok::<(PlayerId, CarStateView), Error>((id, s)),
{
    if let Ok((s, _)) = read_car_state(payload) {
        law_car_broadcast_round_trips(id, s);
    }
}

/// A garage commit is the `GarageState` it announces, re-tagged: behind the
/// owner stand the bytes behind the state's discriminant.
pub proof fn law_garage_commit_is_the_state_retagged(id: PlayerId, garage_state: Seq<u8>)
    requires
        garage_state.len() >= 4,
    ensures
        garage_commit_bytes(id, garage_state).skip(12) == garage_state.skip(4),
        garage_commit_bytes(id, garage_state) == with_sender_bytes(
            Event::GarageStateCommit.disc(),
            id,
            garage_state,
        ),
{
    assert(garage_commit_bytes(id, garage_state).skip(12) =~= garage_state.skip(4));
    assert(garage_commit_bytes(id, garage_state) =~= with_sender_bytes(17, id, garage_state));
}

/// A broadcast twin inserts the sender and nothing else.
pub proof fn law_twin_inserts_the_sender(disc: u32, id: PlayerId, payload: Seq<u8>)
    requires
        payload.len() >= 4,
    ensures
        with_sender_bytes(disc, id, payload).len() == payload.len() + 8,
        with_sender_bytes(disc, id, payload).take(4) == le::u32_bytes(disc),
        with_sender_bytes(disc, id, payload).subrange(4, 12) == player::id_bytes(id),
        with_sender_bytes(disc, id, payload).skip(12) == payload.skip(4),
{
    let out = with_sender_bytes(disc, id, payload);
    assert(out.take(4) =~= le::u32_bytes(disc));
    assert(out.subrange(4, 12) =~= player::id_bytes(id));
    assert(out.skip(12) =~= payload.skip(4));
}

/// No event is both re-tagged and relayed unchanged, no broadcast is relayed
/// again, and no two client events share a twin.
pub proof fn law_routing_is_unambiguous(a: u32, b: u32)
    ensures
        twin_of(a) is Some ==> a != Event::Chat.disc(),
        twin_of(a) matches Some(t) ==> twin_of(t) is None && t != Event::Chat.disc(),
        twin_of(a) is Some && twin_of(a) == twin_of(b) ==> a == b,
{
}

} // verus!
