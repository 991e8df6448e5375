//! `NetworkEvent` payloads: a `u32` discriminant, then the body.

use vstd::prelude::*;

use crate::bytes;
use crate::bytes::Cursor;
use crate::error::Error;
use crate::le;

verus! {

broadcast use crate::le::group_widths;

/// `NetworkEvent` discriminants with a known role.
#[derive(Debug, Clone, Copy, PartialEq, Eq, Structural)]
pub enum Event {
    /// Both ways: one chat line, relayed verbatim by the host.
    Chat,
    /// Host -> clients: the race starts. Body: map name and race settings.
    StartRace,
    /// Host -> clients, unordered: the host confirmed at the grid, the
    /// countdown starts. No body.
    RaceGo,
    /// Host -> clients: to the results notepad and back to the lobby; `bool`.
    RaceEnd,
    /// Client -> host: its car crossed the finish, `(Entity, f64 race time)`.
    CrossedFinish,
    /// Host -> the other clients: `(PlayerId, Entity, f64 race time)`.
    CarCrossedFinish,
    /// Client -> host: `bool`, the lobby Ready checkbox and the grid confirm.
    Ready,
    /// Host -> clients: `(PlayerId, bool)` mirror of a Ready toggle.
    ReadyBroadcast,
    /// Host -> clients at race start, once per participant: the car to spawn.
    SpawnCar,
    /// Client -> host, Unreliable, ~20 Hz during a race: own car state.
    CarState,
    /// Host -> clients, Unreliable, ~20 Hz: another participant's car state.
    CarStateBroadcast,
    /// Host -> lobby members: a new client identified itself.
    PlayerJoined,
    /// Host -> client: lobby description.
    ServerInfo,
    /// Client -> host: the joining player's identity.
    ClientInfo,
    /// Client -> host: the player's garage (car customisation).
    GarageState,
    /// Host -> client: a player's committed garage state.
    GarageStateCommit,
    /// Host -> lobby: the track the next race runs on.
    LobbyChangeMap,
    /// Unreliable, 1 Hz both ways: `f32` sender clock.
    Ping,
    /// Unreliable: `f32` echo of the peer's most recent Ping clock.
    Pong,
    /// Client -> host: leaving the lobby; body is a `u32` reason.
    Disconnect,
    /// Host -> lobby members: a player left, body is its `PlayerId`.
    PlayerLeft,
    /// Client -> host, Unreliable: avatar pose while visiting a garage.
    UpdateAvatarState,
    /// Host -> others: a visitor's avatar pose.
    UpdateAvatarStateBroadcast,
    /// Client -> host: `u32` location.
    UpdateLocation,
    /// Host -> others: where a player is.
    UpdateLocationBroadcast,
    /// Client -> host: the `PlayerId` whose garage to visit.
    RequestVisitGarage,
    /// Owner -> visitor via the host: the garage to show.
    VisitGarageResponse,
    /// Host -> others: `PlayerId visitor`, `PlayerId owner`.
    GarageVisitBroadcast,
    /// Client -> host: the visitor left for the hub. No body.
    StopGarageVisit,
    /// Host -> others: the `PlayerId` that left a garage.
    StopGarageVisitBroadcast,
}

impl Event {
    /// The discriminant on the wire.
    pub open spec fn disc(self) -> u32 {
        match self {
            Event::Chat => 0,
            Event::StartRace => 1,
            Event::RaceGo => 2,
            Event::RaceEnd => 3,
            Event::CrossedFinish => 4,
            Event::CarCrossedFinish => 5,
            Event::Ready => 6,
            Event::ReadyBroadcast => 7,
            Event::SpawnCar => 10,
            Event::CarState => 11,
            Event::CarStateBroadcast => 12,
            Event::PlayerJoined => 13,
            Event::ServerInfo => 14,
            Event::ClientInfo => 15,
            Event::GarageState => 16,
            Event::GarageStateCommit => 17,
            Event::LobbyChangeMap => 18,
            Event::Ping => 21,
            Event::Pong => 22,
            Event::Disconnect => 23,
            Event::PlayerLeft => 24,
            Event::UpdateAvatarState => 29,
            Event::UpdateAvatarStateBroadcast => 30,
            Event::UpdateLocation => 31,
            Event::UpdateLocationBroadcast => 32,
            Event::RequestVisitGarage => 33,
            Event::VisitGarageResponse => 34,
            Event::GarageVisitBroadcast => 35,
            Event::StopGarageVisit => 41,
            Event::StopGarageVisitBroadcast => 42,
        }
    }

    /// The event with discriminant `v`, if it has a known role.
    pub open spec fn of_disc(v: u32) -> Option<Event> {
        if v == 0 {
            Some(Event::Chat)
        } else if v == 1 {
            Some(Event::StartRace)
        } else if v == 2 {
            Some(Event::RaceGo)
        } else if v == 3 {
            Some(Event::RaceEnd)
        } else if v == 4 {
            Some(Event::CrossedFinish)
        } else if v == 5 {
            Some(Event::CarCrossedFinish)
        } else if v == 6 {
            Some(Event::Ready)
        } else if v == 7 {
            Some(Event::ReadyBroadcast)
        } else if v == 10 {
            Some(Event::SpawnCar)
        } else if v == 11 {
            Some(Event::CarState)
        } else if v == 12 {
            Some(Event::CarStateBroadcast)
        } else if v == 13 {
            Some(Event::PlayerJoined)
        } else if v == 14 {
            Some(Event::ServerInfo)
        } else if v == 15 {
            Some(Event::ClientInfo)
        } else if v == 16 {
            Some(Event::GarageState)
        } else if v == 17 {
            Some(Event::GarageStateCommit)
        } else if v == 18 {
            Some(Event::LobbyChangeMap)
        } else if v == 21 {
            Some(Event::Ping)
        } else if v == 22 {
            Some(Event::Pong)
        } else if v == 23 {
            Some(Event::Disconnect)
        } else if v == 24 {
            Some(Event::PlayerLeft)
        } else if v == 29 {
            Some(Event::UpdateAvatarState)
        } else if v == 30 {
            Some(Event::UpdateAvatarStateBroadcast)
        } else if v == 31 {
            Some(Event::UpdateLocation)
        } else if v == 32 {
            Some(Event::UpdateLocationBroadcast)
        } else if v == 33 {
            Some(Event::RequestVisitGarage)
        } else if v == 34 {
            Some(Event::VisitGarageResponse)
        } else if v == 35 {
            Some(Event::GarageVisitBroadcast)
        } else if v == 41 {
            Some(Event::StopGarageVisit)
        } else if v == 42 {
            Some(Event::StopGarageVisitBroadcast)
        } else {
            None
        }
    }

    pub fn from_u32(v: u32) -> (r: Option<Event>)
        ensures
            r == Event::of_disc(v),
            forall|e: Event| r == Some(e) <==> v == e.disc(),
    {
        match v {
            0 => Some(Event::Chat),
            1 => Some(Event::StartRace),
            2 => Some(Event::RaceGo),
            3 => Some(Event::RaceEnd),
            4 => Some(Event::CrossedFinish),
            5 => Some(Event::CarCrossedFinish),
            6 => Some(Event::Ready),
            7 => Some(Event::ReadyBroadcast),
            10 => Some(Event::SpawnCar),
            11 => Some(Event::CarState),
            12 => Some(Event::CarStateBroadcast),
            13 => Some(Event::PlayerJoined),
            14 => Some(Event::ServerInfo),
            15 => Some(Event::ClientInfo),
            16 => Some(Event::GarageState),
            17 => Some(Event::GarageStateCommit),
            18 => Some(Event::LobbyChangeMap),
            21 => Some(Event::Ping),
            22 => Some(Event::Pong),
            23 => Some(Event::Disconnect),
            24 => Some(Event::PlayerLeft),
            29 => Some(Event::UpdateAvatarState),
            30 => Some(Event::UpdateAvatarStateBroadcast),
            31 => Some(Event::UpdateLocation),
            32 => Some(Event::UpdateLocationBroadcast),
            33 => Some(Event::RequestVisitGarage),
            34 => Some(Event::VisitGarageResponse),
            35 => Some(Event::GarageVisitBroadcast),
            41 => Some(Event::StopGarageVisit),
            42 => Some(Event::StopGarageVisitBroadcast),
            _ => None,
        }
    }

    pub fn to_u32(self) -> (v: u32)
        ensures
            v == self.disc(),
    {
        match self {
            Event::Chat => 0,
            Event::StartRace => 1,
            Event::RaceGo => 2,
            Event::RaceEnd => 3,
            Event::CrossedFinish => 4,
            Event::CarCrossedFinish => 5,
            Event::Ready => 6,
            Event::ReadyBroadcast => 7,
            Event::SpawnCar => 10,
            Event::CarState => 11,
            Event::CarStateBroadcast => 12,
            Event::PlayerJoined => 13,
            Event::ServerInfo => 14,
            Event::ClientInfo => 15,
            Event::GarageState => 16,
            Event::GarageStateCommit => 17,
            Event::LobbyChangeMap => 18,
            Event::Ping => 21,
            Event::Pong => 22,
            Event::Disconnect => 23,
            Event::PlayerLeft => 24,
            Event::UpdateAvatarState => 29,
            Event::UpdateAvatarStateBroadcast => 30,
            Event::UpdateLocation => 31,
            Event::UpdateLocationBroadcast => 32,
            Event::RequestVisitGarage => 33,
            Event::VisitGarageResponse => 34,
            Event::GarageVisitBroadcast => 35,
            Event::StopGarageVisit => 41,
            Event::StopGarageVisitBroadcast => 42,
        }
    }
}

/// The event of a payload, by its leading discriminant.
pub open spec fn event_of(payload: Seq<u8>) -> Result<Event, Error> {
    match bytes::read_u32(payload, 0) {
        Err(e) => Err(e),
        Ok((v, _)) => match Event::of_disc(v) {
            Some(event) => Ok(event),
            None => Err(Error::UnknownDiscriminant { what: "event", value: v }),
        },
    }
}

/// Offset 4, behind the discriminant, where `payload` is an event of kind
/// `want`; else the error that names `what`.
pub open spec fn read_event(payload: Seq<u8>, want: Event, what: &'static str) -> Result<
    ((), int),
    Error,
> {
    match bytes::read_u32(payload, 0) {
        Err(e) => Err(e),
        Ok((v, p)) => if v == want.disc() {
            Ok(((), p))
        } else {
            Err(Error::UnknownDiscriminant { what, value: v })
        },
    }
}

/// Read the leading `u32` discriminant of a `NetworkEvent` payload, whether or
/// not its role is known.
pub fn event_discriminant(payload: &[u8]) -> (r: Result<u32, Error>)
    ensures
        r == bytes::value_of(bytes::read_u32(payload@, 0)),
{
    let mut c = Cursor::new(payload);
    c.u32()
}

/// Read the leading `u32` discriminant of a `NetworkEvent` payload.
pub fn event_kind(payload: &[u8]) -> (r: Result<Event, Error>)
    ensures
        r == event_of(payload@),
{
    let v = event_discriminant(payload)?;
    match Event::from_u32(v) {
        Some(event) => Ok(event),
        None => Err(Error::UnknownDiscriminant { what: "event", value: v }),
    }
}

/// A cursor behind the discriminant of `payload`, which must be that of `want`.
pub fn expect_event<'a>(payload: &'a [u8], want: Event, what: &'static str) -> (r: Result<
    Cursor<'a>,
    Error,
>)
    ensures
        match r {
            Ok(c) => c.wf() && c.buf == payload && c.pos == 4 && read_event(payload@, want, what)
                == Ok::<((), int), Error>(((), 4)),
            Err(e) => read_event(payload@, want, what) == Err::<((), int), Error>(e),
        },
{
    let mut c = Cursor::new(payload);
    let v = c.u32()?;
    if v != want.to_u32() {
        return Err(Error::UnknownDiscriminant { what, value: v });
    }
    Ok(c)
}

// ---------------------------------------------------------------------------
// Laws
// ---------------------------------------------------------------------------

/// Discriminants and events with a known role correspond one to one.
pub proof fn law_discriminants_name_events(e: Event, v: u32)
    ensures
        Event::of_disc(e.disc()) == Some(e),
        Event::of_disc(v) matches Some(x) ==> x.disc() == v,
{
}

/// A payload that starts with the discriminant of `e` is an event of kind `e`.
pub proof fn law_tagged_payload_is_its_event(e: Event, body: Seq<u8>)
    ensures
        event_of(le::u32_bytes(e.disc()) + body) == Ok::<Event, Error>(e),
{
    let b = le::u32_bytes(e.disc()) + body;
    assert(b.subrange(0, 4) =~= le::u32_bytes(e.disc()));
    bytes::lemma_read_back_u32(b, 0, e.disc());
}

} // verus!
