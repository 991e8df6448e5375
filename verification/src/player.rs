//! Who is in the lobby: player ids, client identities and the lobby description.

use vstd::prelude::*;
use vstd::utf8;

use crate::bytes;
use crate::bytes::{put_bytes, put_string, put_u32, put_u64, Cursor};
use crate::error::Error;
use crate::le;
use crate::event;
use crate::event::{expect_event, Event};

verus! {

broadcast use crate::le::group_widths;

/// Client id the game uses for the hosting player.
pub const HOST_CLIENT_ID: u32 = 0xffff_ffff;

/// `(client_id, player_index)` naming one player; the game's `PlayerId`.
#[derive(Debug, Clone, Copy, PartialEq, Eq, Structural)]
pub struct PlayerId {
    pub client_id: u32,
    pub player_index: u32,
}

impl PlayerId {
    pub open spec fn spec_host() -> PlayerId {
        PlayerId { client_id: HOST_CLIENT_ID, player_index: 1 }
    }

    /// The hosting player.
    #[verifier::when_used_as_spec(spec_host)]
    pub fn host() -> (id: PlayerId)
        ensures
            id == PlayerId::spec_host(),
    {
        PlayerId { client_id: HOST_CLIENT_ID, player_index: 1 }
    }

    pub fn read(c: &mut Cursor<'_>) -> (r: Result<PlayerId, Error>)
        requires
            old(c).wf(),
        ensures
            final(c).follows(old(c)),
            bytes::outcome(r, final(c).pos as int) == read_player_id(
                old(c).buf@,
                old(c).pos as int,
            ),
    {
        let client_id = c.u32()?;
        let player_index = c.u32()?;
        Ok(PlayerId { client_id, player_index })
    }

    pub fn write(self, out: &mut Vec<u8>)
        ensures
            final(out)@ == old(out)@ + id_bytes(self),
    {
        put_u32(out, self.client_id);
        put_u32(out, self.player_index);
        assert(out@ =~= old(out)@ + id_bytes(self));
    }
}

/// A player id on the wire.
pub open spec fn id_bytes(id: PlayerId) -> Seq<u8> {
    le::u32_bytes(id.client_id) + le::u32_bytes(id.player_index)
}

pub open spec fn read_player_id(b: Seq<u8>, at: int) -> Result<(PlayerId, int), Error> {
    match bytes::read_u32(b, at) {
        Err(e) => Err(e),
        Ok((client_id, p)) => match bytes::read_u32(b, p) {
            Err(e) => Err(e),
            Ok((player_index, p)) => Ok((PlayerId { client_id, player_index }, p)),
        },
    }
}

/// Bytes that hold a player id read back as that id.
pub proof fn lemma_read_back_player_id(b: Seq<u8>, at: int, id: PlayerId)
    requires
        bytes::holds(b, at, id_bytes(id)),
    ensures
        read_player_id(b, at) == Ok::<(PlayerId, int), Error>((id, at + 8)),
{
    bytes::lemma_holds_concat(
        b,
        at,
        le::u32_bytes(id.client_id),
        le::u32_bytes(id.player_index),
    );
    bytes::lemma_read_back_u32(b, at, id.client_id);
    bytes::lemma_read_back_u32(b, at + 4, id.player_index);
}

/// A player id that was read is held by the bytes it was read from.
pub proof fn lemma_read_player_id_holds(b: Seq<u8>, at: int)
    requires
        0 <= at,
    ensures
        read_player_id(b, at) matches Ok((id, p)) ==> p == at + 8 && bytes::holds(
            b,
            at,
            id_bytes(id),
        ),
{
    if let Ok((id, p)) = read_player_id(b, at) {
        bytes::lemma_read_u32_holds(b, at);
        bytes::lemma_read_u32_holds(b, at + 4);
        bytes::lemma_holds_concat(
            b,
            at,
            le::u32_bytes(id.client_id),
            le::u32_bytes(id.player_index),
        );
    }
}

// ---------------------------------------------------------------------------
// ClientInfo
// ---------------------------------------------------------------------------

/// A player identity, sent by a joining client as [`Event::ClientInfo`].
///
/// The trailing `u64` counts the client's enabled mods; only an empty map, `0`,
/// has been observed.
#[derive(Debug, Clone, PartialEq, Eq)]
pub struct ClientInfo {
    pub name: String,
    pub trailing: u64,
}

/// What a [`ClientInfo`] holds.
#[verifier::ext_equal]
pub struct ClientInfoView {
    pub name: Seq<char>,
    pub trailing: u64,
}

impl View for ClientInfo {
    type V = ClientInfoView;

    open spec fn view(&self) -> ClientInfoView {
        ClientInfoView { name: self.name@, trailing: self.trailing }
    }
}

/// The body of a `ClientInfo`.
pub open spec fn info_body(i: ClientInfoView) -> Seq<u8> {
    bytes::string_bytes(i.name) + le::u64_bytes(i.trailing)
}

/// A `ClientInfo` payload.
pub open spec fn client_info_bytes(i: ClientInfoView) -> Seq<u8> {
    le::u32_bytes(Event::ClientInfo.disc()) + info_body(i)
}

/// A `PlayerJoined` payload.
pub open spec fn joined_bytes(id: PlayerId, i: ClientInfoView) -> Seq<u8> {
    le::u32_bytes(Event::PlayerJoined.disc()) + id_bytes(id) + info_body(i)
}

pub open spec fn read_info_body(b: Seq<u8>, at: int) -> Result<(ClientInfoView, int), Error> {
    match bytes::read_string(b, at) {
        Err(e) => Err(e),
        Ok((name, p)) => match bytes::read_u64(b, p) {
            Err(e) => Err(e),
            Ok((trailing, p)) => Ok((ClientInfoView { name, trailing }, p)),
        },
    }
}

pub open spec fn read_client_info(b: Seq<u8>) -> Result<(ClientInfoView, int), Error> {
    match event::read_event(b, Event::ClientInfo, "ClientInfo") {
        Err(e) => Err(e),
        Ok((_, p)) => read_info_body(b, p),
    }
}

pub open spec fn read_joined(b: Seq<u8>) -> Result<((PlayerId, ClientInfoView), int), Error> {
    match event::read_event(b, Event::PlayerJoined, "PlayerJoined") {
        Err(e) => Err(e),
        Ok((_, p)) => match read_player_id(b, p) {
            Err(e) => Err(e),
            Ok((id, p)) => match read_info_body(b, p) {
                Err(e) => Err(e),
                Ok((info, p)) => Ok(((id, info), p)),
            },
        },
    }
}

impl ClientInfo {
    pub fn decode(payload: &[u8]) -> (r: Result<ClientInfo, Error>)
        ensures
            bytes::view_of(r) == bytes::value_of(read_client_info(payload@)),
    {
        let mut c = expect_event(payload, Event::ClientInfo, "ClientInfo")?;
        ClientInfo::read(&mut c)
    }

    pub fn read(c: &mut Cursor<'_>) -> (r: Result<ClientInfo, Error>)
        requires
            old(c).wf(),
        ensures
            final(c).follows(old(c)),
            bytes::viewed(r, final(c).pos as int) == read_info_body(old(c).buf@, old(c).pos as int),
    {
        let name = c.string()?;
        let trailing = c.u64()?;
        Ok(ClientInfo { name, trailing })
    }

    pub fn encode(&self) -> (out: Vec<u8>)
        ensures
            out@ == client_info_bytes(self@),
    {
        let mut out: Vec<u8> = Vec::new();
        put_u32(&mut out, Event::ClientInfo.to_u32());
        put_string(&mut out, self.name.as_str());
        put_u64(&mut out, self.trailing);
        assert(out@ =~= client_info_bytes(self@));
        out
    }

    /// Decode an [`Event::PlayerJoined`] broadcast into the newcomer's id and
    /// identity.
    pub fn decode_joined(payload: &[u8]) -> (r: Result<(PlayerId, ClientInfo), Error>)
        ensures
            match r {
                Ok((id, info)) => bytes::value_of(read_joined(payload@)) == Ok::<
                    (PlayerId, ClientInfoView),
                    Error,
                >((id, info@)),
                Err(e) => bytes::value_of(read_joined(payload@)) == Err::<
                    (PlayerId, ClientInfoView),
                    Error,
                >(e),
            },
    {
        let mut c = expect_event(payload, Event::PlayerJoined, "PlayerJoined")?;
        let id = PlayerId::read(&mut c)?;
        let info = ClientInfo::read(&mut c)?;
        Ok((id, info))
    }

    /// Encode an [`Event::PlayerJoined`] broadcast, which a host sends to every
    /// lobby member when a new client identifies itself: this `ClientInfo`
    /// re-tagged with the id the host assigned it.
    pub fn encode_joined(&self, id: PlayerId) -> (out: Vec<u8>)
        ensures
            out@ == joined_bytes(id, self@),
    {
        let mut out: Vec<u8> = Vec::new();
        put_u32(&mut out, Event::PlayerJoined.to_u32());
        id.write(&mut out);
        put_string(&mut out, self.name.as_str());
        put_u64(&mut out, self.trailing);
        assert(out@ =~= joined_bytes(id, self@));
        out
    }
}

// ---------------------------------------------------------------------------
// ServerInfo
// ---------------------------------------------------------------------------

/// One entry of [`ServerInfo::players`].
///
/// The host's own entry is `(0xffffffff, 1, name, avatar)`; joined clients
/// count up from `(1, 1)`.
#[derive(Debug, Clone, PartialEq, Eq)]
pub struct PlayerInfo {
    pub id: PlayerId,
    pub name: String,
    /// `AvatarState`: observed only as zeros. Carried verbatim.
    pub avatar: [u8; 5],
}

/// What a [`PlayerInfo`] holds.
#[verifier::ext_equal]
pub struct PlayerInfoView {
    pub id: PlayerId,
    pub name: Seq<char>,
    pub avatar: Seq<u8>,
}

impl View for PlayerInfo {
    type V = PlayerInfoView;

    open spec fn view(&self) -> PlayerInfoView {
        PlayerInfoView { id: self.id, name: self.name@, avatar: self.avatar@ }
    }
}

/// A lobby entry on the wire.
pub open spec fn player_bytes(p: PlayerInfoView) -> Seq<u8> {
    id_bytes(p.id) + bytes::string_bytes(p.name) + p.avatar
}

pub open spec fn read_player(b: Seq<u8>, at: int) -> Result<(PlayerInfoView, int), Error> {
    match read_player_id(b, at) {
        Err(e) => Err(e),
        Ok((id, p)) => match bytes::read_string(b, p) {
            Err(e) => Err(e),
            Ok((name, p)) => match bytes::read_bytes(b, p, 5) {
                Err(e) => Err(e),
                Ok((avatar, p)) => Ok((PlayerInfoView { id, name, avatar }, p)),
            },
        },
    }
}

impl PlayerInfo {
    pub fn read(c: &mut Cursor<'_>) -> (r: Result<PlayerInfo, Error>)
        requires
            old(c).wf(),
        ensures
            final(c).follows(old(c)),
            bytes::viewed(r, final(c).pos as int) == read_player(old(c).buf@, old(c).pos as int),
    {
        let id = PlayerId::read(c)?;
        let name = c.string()?;
        let a = c.take(5)?;
        let avatar: [u8; 5] = [a[0], a[1], a[2], a[3], a[4]];
        assert(avatar@ =~= a@);
        Ok(PlayerInfo { id, name, avatar })
    }

    pub fn write(&self, out: &mut Vec<u8>)
        ensures
            final(out)@ == old(out)@ + player_bytes(self@),
    {
        self.id.write(out);
        put_string(out, self.name.as_str());
        put_bytes(out, self.avatar.as_slice());
        assert(out@ =~= old(out)@ + player_bytes(self@));
    }
}

/// Most players a lobby description may list.
pub const MAX_PLAYERS: u64 = 64;

/// Most mods a lobby description may list.
pub const MAX_MODS: u64 = 1024;

/// Lobby description sent to a joining client as [`Event::ServerInfo`].
///
/// A real host lists already-joined clients first and itself last. The
/// applicant id is how a joiner learns its own `(client_id, player_index)`.
/// A client sent an empty `players` list stalls at "Connecting", so the host's
/// own entry is mandatory.
#[derive(Debug, Clone, PartialEq, Eq)]
pub struct ServerInfo {
    pub players: Vec<PlayerInfo>,
    /// The player slot assigned to the client this description is addressed to.
    pub applicant: PlayerId,
    pub host: PlayerId,
    pub map: String,
    /// Map variant selector, counting from 1.
    pub variant: u32,
    pub enabled_mods: Vec<String>,
}

/// What a [`ServerInfo`] holds.
#[verifier::ext_equal]
pub struct ServerInfoView {
    pub players: Seq<PlayerInfoView>,
    pub applicant: PlayerId,
    pub host: PlayerId,
    pub map: Seq<char>,
    pub variant: u32,
    pub enabled_mods: Seq<Seq<char>>,
}

impl View for ServerInfo {
    type V = ServerInfoView;

    open spec fn view(&self) -> ServerInfoView {
        ServerInfoView {
            players: Seq::new(self.players@.len(), |i: int| self.players@[i]@),
            applicant: self.applicant,
            host: self.host,
            map: self.map@,
            variant: self.variant,
            enabled_mods: Seq::new(self.enabled_mods@.len(), |i: int| self.enabled_mods@[i]@),
        }
    }
}

/// Lobby entries on the wire, one behind the other.
pub open spec fn players_bytes(ps: Seq<PlayerInfoView>) -> Seq<u8>
    decreases ps.len(),
{
    if ps.len() == 0 {
        Seq::empty()
    } else {
        players_bytes(ps.drop_last()) + player_bytes(ps.last())
    }
}

/// Strings on the wire, one behind the other.
pub open spec fn strings_bytes(ss: Seq<Seq<char>>) -> Seq<u8>
    decreases ss.len(),
{
    if ss.len() == 0 {
        Seq::empty()
    } else {
        strings_bytes(ss.drop_last()) + bytes::string_bytes(ss.last())
    }
}

/// What follows the player list in a `ServerInfo` payload.
pub open spec fn lobby_bytes(s: ServerInfoView) -> Seq<u8> {
    id_bytes(s.applicant) + id_bytes(s.host) + bytes::string_bytes(s.map) + le::u32_bytes(
        s.variant,
    ) + le::u64_bytes(s.enabled_mods.len() as u64) + strings_bytes(s.enabled_mods)
}

/// A `ServerInfo` payload.
pub open spec fn server_info_bytes(s: ServerInfoView) -> Seq<u8> {
    le::u32_bytes(Event::ServerInfo.disc()) + le::u64_bytes(s.players.len() as u64)
        + players_bytes(s.players) + lobby_bytes(s)
}

/// `n` lobby entries from `at` on.
pub open spec fn read_players(b: Seq<u8>, at: int, n: nat) -> Result<
    (Seq<PlayerInfoView>, int),
    Error,
>
    decreases n,
{
    if n == 0 {
        Ok((Seq::empty(), at))
    } else {
        match read_players(b, at, (n - 1) as nat) {
            Err(e) => Err(e),
            Ok((ps, p)) => match read_player(b, p) {
                Err(e) => Err(e),
                Ok((x, p)) => Ok((ps.push(x), p)),
            },
        }
    }
}

/// `n` strings from `at` on.
pub open spec fn read_strings(b: Seq<u8>, at: int, n: nat) -> Result<(Seq<Seq<char>>, int), Error>
    decreases n,
{
    if n == 0 {
        Ok((Seq::empty(), at))
    } else {
        match read_strings(b, at, (n - 1) as nat) {
            Err(e) => Err(e),
            Ok((ss, p)) => match bytes::read_string(b, p) {
                Err(e) => Err(e),
                Ok((x, p)) => Ok((ss.push(x), p)),
            },
        }
    }
}

/// The counted list of lobby entries at offset 4.
pub open spec fn read_player_list(b: Seq<u8>) -> Result<(Seq<PlayerInfoView>, int), Error> {
    match bytes::read_u64(b, 4) {
        Err(e) => Err(e),
        Ok((n, p)) => if n > MAX_PLAYERS {
            Err(Error::ImplausibleLength { field: "players", value: n, at: 4 })
        } else {
            read_players(b, p, n as nat)
        },
    }
}

/// The counted list of mods at `at`.
pub open spec fn read_mod_list(b: Seq<u8>, at: int) -> Result<(Seq<Seq<char>>, int), Error> {
    match bytes::read_u64(b, at) {
        Err(e) => Err(e),
        Ok((m, p)) => if m > MAX_MODS {
            Err(Error::ImplausibleLength { field: "enabled_mods", value: m, at: at as usize })
        } else {
            read_strings(b, p, m as nat)
        },
    }
}

/// What follows the player list.
pub open spec fn read_lobby(b: Seq<u8>, at: int, players: Seq<PlayerInfoView>) -> Result<
    (ServerInfoView, int),
    Error,
> {
    match read_player_id(b, at) {
        Err(e) => Err(e),
        Ok((applicant, p)) => match read_player_id(b, p) {
            Err(e) => Err(e),
            Ok((host, p)) => match bytes::read_string(b, p) {
                Err(e) => Err(e),
                Ok((map, p)) => match bytes::read_u32(b, p) {
                    Err(e) => Err(e),
                    Ok((variant, p)) => match read_mod_list(b, p) {
                        Err(e) => Err(e),
                        Ok((enabled_mods, p)) => Ok(
                            (
                                ServerInfoView {
                                    players,
                                    applicant,
                                    host,
                                    map,
                                    variant,
                                    enabled_mods,
                                },
                                p,
                            ),
                        ),
                    },
                },
            },
        },
    }
}

pub open spec fn read_server_info(b: Seq<u8>) -> Result<(ServerInfoView, int), Error> {
    match event::read_event(b, Event::ServerInfo, "ServerInfo") {
        Err(e) => Err(e),
        Ok(_) => match read_player_list(b) {
            Err(e) => Err(e),
            Ok((players, p)) => read_lobby(b, p, players),
        },
    }
}

proof fn lemma_read_players_error_stays(b: Seq<u8>, at: int, m: nat, n: nat)
    requires
        m <= n,
        read_players(b, at, m) is Err,
    ensures
        read_players(b, at, n) == read_players(b, at, m),
    decreases n,
{
    if m < n {
        lemma_read_players_error_stays(b, at, m, (n - 1) as nat);
    }
}

proof fn lemma_read_strings_error_stays(b: Seq<u8>, at: int, m: nat, n: nat)
    requires
        m <= n,
        read_strings(b, at, m) is Err,
    ensures
        read_strings(b, at, n) == read_strings(b, at, m),
    decreases n,
{
    if m < n {
        lemma_read_strings_error_stays(b, at, m, (n - 1) as nat);
    }
}

fn take_players(c: &mut Cursor<'_>) -> (r: Result<Vec<PlayerInfo>, Error>)
    requires
        old(c).wf(),
        old(c).pos == 4,
    ensures
        final(c).follows(old(c)),
        match r {
            Ok(v) => read_player_list(old(c).buf@) == Ok::<(Seq<PlayerInfoView>, int), Error>(
                (Seq::new(v@.len(), |i: int| v@[i]@), final(c).pos as int),
            ),
            Err(e) => read_player_list(old(c).buf@) == Err::<(Seq<PlayerInfoView>, int), Error>(e),
        },
{
    let n = c.u64()?;
    if n > MAX_PLAYERS {
        return Err(Error::ImplausibleLength { field: "players", value: n, at: 4 });
    }
    let mut players: Vec<PlayerInfo> = Vec::new();
    let ghost at = c.pos as int;
    let ghost b = c.buf@;
    let mut i: u64 = 0;
    assert(Seq::new(players@.len(), |i: int| players@[i]@) =~= Seq::empty());
    while i < n
        invariant
            i <= n,
            c.follows(old(c)),
            b == c.buf@,
            read_players(b, at, i as nat) == Ok::<(Seq<PlayerInfoView>, int), Error>(
                (Seq::new(players@.len(), |i: int| players@[i]@), c.pos as int),
            ),
            read_player_list(b) == read_players(b, at, n as nat),
        decreases n - i,
    {
        let ghost before = Seq::new(players@.len(), |i: int| players@[i]@);
        match PlayerInfo::read(c) {
            Ok(p) => {
                players.push(p);
                assert(Seq::new(players@.len(), |i: int| players@[i]@) =~= before.push(p@));
            },
            Err(e) => {
                proof {
                    lemma_read_players_error_stays(b, at, (i + 1) as nat, n as nat);
                }
                return Err(e);
            },
        }
        i = i + 1;
    }
    Ok(players)
}

fn take_mods(c: &mut Cursor<'_>) -> (r: Result<Vec<String>, Error>)
    requires
        old(c).wf(),
    ensures
        final(c).follows(old(c)),
        match r {
            Ok(v) => read_mod_list(old(c).buf@, old(c).pos as int) == Ok::<
                (Seq<Seq<char>>, int),
                Error,
            >((Seq::new(v@.len(), |i: int| v@[i]@), final(c).pos as int)),
            Err(e) => read_mod_list(old(c).buf@, old(c).pos as int) == Err::<
                (Seq<Seq<char>>, int),
                Error,
            >(e),
        },
{
    let start = c.pos;
    let m = c.u64()?;
    if m > MAX_MODS {
        return Err(Error::ImplausibleLength { field: "enabled_mods", value: m, at: start });
    }
    let mut mods: Vec<String> = Vec::new();
    let ghost at = c.pos as int;
    let ghost b = c.buf@;
    let mut i: u64 = 0;
    assert(Seq::new(mods@.len(), |i: int| mods@[i]@) =~= Seq::empty());
    while i < m
        invariant
            i <= m,
            c.follows(old(c)),
            b == c.buf@,
            read_strings(b, at, i as nat) == Ok::<(Seq<Seq<char>>, int), Error>(
                (Seq::new(mods@.len(), |i: int| mods@[i]@), c.pos as int),
            ),
            start == old(c).pos,
            read_mod_list(b, start as int) == read_strings(b, at, m as nat),
        decreases m - i,
    {
        let ghost before = Seq::new(mods@.len(), |i: int| mods@[i]@);
        match c.string() {
            Ok(s) => {
                mods.push(s);
                assert(Seq::new(mods@.len(), |i: int| mods@[i]@) =~= before.push(s@));
            },
            Err(e) => {
                proof {
                    lemma_read_strings_error_stays(b, at, (i + 1) as nat, m as nat);
                }
                return Err(e);
            },
        }
        i = i + 1;
    }
    Ok(mods)
}

impl ServerInfo {
    pub fn decode(payload: &[u8]) -> (r: Result<ServerInfo, Error>)
        ensures
            bytes::view_of(r) == bytes::value_of(read_server_info(payload@)),
    {
        let mut c = expect_event(payload, Event::ServerInfo, "ServerInfo")?;
        let players = take_players(&mut c)?;
        let applicant = PlayerId::read(&mut c)?;
        let host = PlayerId::read(&mut c)?;
        let map = c.string()?;
        let variant = c.u32()?;
        let enabled_mods = take_mods(&mut c)?;
        Ok(ServerInfo { players, applicant, host, map, variant, enabled_mods })
    }

    pub fn encode(&self) -> (out: Vec<u8>)
        ensures
            out@ == server_info_bytes(self@),
    {
        let mut out: Vec<u8> = Vec::new();
        put_u32(&mut out, Event::ServerInfo.to_u32());
        put_u64(&mut out, self.players.len() as u64);
        let ghost head = out@;
        let ghost ps = self@.players;
        let mut i: usize = 0;
        assert(ps.take(0) =~= Seq::empty());
        assert(out@ =~= head + players_bytes(ps.take(0)));
        while i < self.players.len()
            invariant
                i <= self.players@.len(),
                ps == self@.players,
                out@ == head + players_bytes(ps.take(i as int)),
            decreases self.players.len() - i,
        {
            self.players[i].write(&mut out);
            proof {
                let grown = ps.take(i + 1);
                assert(grown.drop_last() =~= ps.take(i as int));
                assert(out@ =~= head + players_bytes(grown));
            }
            i = i + 1;
        }
        assert(ps.take(ps.len() as int) =~= ps);
        self.applicant.write(&mut out);
        self.host.write(&mut out);
        put_string(&mut out, self.map.as_str());
        put_u32(&mut out, self.variant);
        put_u64(&mut out, self.enabled_mods.len() as u64);
        let ghost front = out@;
        let ghost ms = self@.enabled_mods;
        let mut j: usize = 0;
        assert(ms.take(0) =~= Seq::empty());
        assert(out@ =~= front + strings_bytes(ms.take(0)));
        while j < self.enabled_mods.len()
            invariant
                j <= self.enabled_mods@.len(),
                ms == self@.enabled_mods,
                out@ == front + strings_bytes(ms.take(j as int)),
            decreases self.enabled_mods.len() - j,
        {
            put_string(&mut out, self.enabled_mods[j].as_str());
            proof {
                let grown = ms.take(j + 1);
                assert(grown.drop_last() =~= ms.take(j as int));
                assert(out@ =~= front + strings_bytes(grown));
            }
            j = j + 1;
        }
        assert(ms.take(ms.len() as int) =~= ms);
        assert(out@ =~= server_info_bytes(self@));
        out
    }
}

// ---------------------------------------------------------------------------
// Laws
// ---------------------------------------------------------------------------

/// The UTF-8 encoding of `s` has a length that fits its wire field.
pub open spec fn fits(s: Seq<char>) -> bool {
    utf8::encode_utf8(s).len() <= u64::MAX
}

proof fn lemma_read_back_info_body(b: Seq<u8>, at: int, i: ClientInfoView)
    requires
        bytes::holds(b, at, info_body(i)),
        fits(i.name),
    ensures
        read_info_body(b, at) == Ok::<(ClientInfoView, int), Error>((i, at + info_body(i).len())),
{
    bytes::lemma_holds_concat(b, at, bytes::string_bytes(i.name), le::u64_bytes(i.trailing));
    bytes::lemma_read_back_string(b, at, i.name);
    bytes::lemma_read_back_u64(b, at + bytes::string_bytes(i.name).len(), i.trailing);
}

/// A player identity that was encoded decodes to itself.
pub proof fn law_client_info_round_trips(i: ClientInfoView)
    requires
        fits(i.name),
    ensures
        bytes::value_of(read_client_info(client_info_bytes(i))) == Ok::<ClientInfoView, Error>(i),
{
    let b = client_info_bytes(i);
    assert(b.subrange(0, b.len() as int) =~= b);
    bytes::lemma_holds_concat(b, 0, le::u32_bytes(15), info_body(i));
    bytes::lemma_read_back_u32(b, 0, 15);
    lemma_read_back_info_body(b, 4, i);
}

/// A join announcement that was encoded decodes to itself.
pub proof fn law_player_joined_round_trips(id: PlayerId, i: ClientInfoView)
    requires
        fits(i.name),
    ensures
        bytes::value_of(read_joined(joined_bytes(id, i))) == Ok::<
            (PlayerId, ClientInfoView),
            Error,
        >((id, i)),
{
    let b = joined_bytes(id, i);
    assert(b.subrange(0, b.len() as int) =~= b);
    let tag = le::u32_bytes(13);
    bytes::lemma_holds_concat(b, 0, tag + id_bytes(id), info_body(i));
    bytes::lemma_holds_concat(b, 0, tag, id_bytes(id));
    bytes::lemma_read_back_u32(b, 0, 13);
    lemma_read_back_player_id(b, 4, id);
    lemma_read_back_info_body(b, 12, i);
}

/// An announcement is the identity of the newcomer behind its id: the bodies of
/// the two payloads agree.
pub proof fn law_player_joined_carries_the_identity(id: PlayerId, i: ClientInfoView)
    ensures
        joined_bytes(id, i).skip(12) == client_info_bytes(i).skip(4),
{
    assert(joined_bytes(id, i).skip(12) =~= info_body(i));
    assert(client_info_bytes(i).skip(4) =~= info_body(i));
}

proof fn lemma_read_back_player(b: Seq<u8>, at: int, x: PlayerInfoView)
    requires
        bytes::holds(b, at, player_bytes(x)),
        fits(x.name),
        x.avatar.len() == 5,
    ensures
        read_player(b, at) == Ok::<(PlayerInfoView, int), Error>((x, at + player_bytes(x).len())),
{
    let front = id_bytes(x.id) + bytes::string_bytes(x.name);
    bytes::lemma_holds_concat(b, at, front, x.avatar);
    bytes::lemma_holds_concat(b, at, id_bytes(x.id), bytes::string_bytes(x.name));
    lemma_read_back_player_id(b, at, x.id);
    bytes::lemma_read_back_string(b, at + 8, x.name);
}

proof fn lemma_read_back_players(b: Seq<u8>, at: int, ps: Seq<PlayerInfoView>)
    requires
        bytes::holds(b, at, players_bytes(ps)),
        forall|i: int| 0 <= i < ps.len() ==> fits(#[trigger] ps[i].name) && ps[i].avatar.len() == 5,
    ensures
        read_players(b, at, ps.len()) == Ok::<(Seq<PlayerInfoView>, int), Error>(
            (ps, at + players_bytes(ps).len()),
        ),
    decreases ps.len(),
{
    if ps.len() == 0 {
        assert(ps =~= Seq::empty());
    } else {
        let front = ps.drop_last();
        bytes::lemma_holds_concat(b, at, players_bytes(front), player_bytes(ps.last()));
        assert forall|i: int| 0 <= i < front.len() implies fits(#[trigger] front[i].name)
            && front[i].avatar.len() == 5 by {
            assert(front[i] == ps[i]);
        }
        lemma_read_back_players(b, at, front);
        assert(fits(ps[ps.len() - 1].name));
        lemma_read_back_player(b, at + players_bytes(front).len(), ps.last());
        assert(front.push(ps.last()) =~= ps);
    }
}

proof fn lemma_read_back_strings(b: Seq<u8>, at: int, ss: Seq<Seq<char>>)
    requires
        bytes::holds(b, at, strings_bytes(ss)),
        forall|i: int| 0 <= i < ss.len() ==> fits(#[trigger] ss[i]),
    ensures
        read_strings(b, at, ss.len()) == Ok::<(Seq<Seq<char>>, int), Error>(
            (ss, at + strings_bytes(ss).len()),
        ),
    decreases ss.len(),
{
    if ss.len() == 0 {
        assert(ss =~= Seq::empty());
    } else {
        let front = ss.drop_last();
        bytes::lemma_holds_concat(b, at, strings_bytes(front), bytes::string_bytes(ss.last()));
        lemma_read_back_strings(b, at, front);
        assert(fits(ss[ss.len() - 1]));
        bytes::lemma_read_back_string(b, at + strings_bytes(front).len(), ss.last());
        assert(front.push(ss.last()) =~= ss);
    }
}

#[verifier::rlimit(30)]
proof fn lemma_read_back_lobby(b: Seq<u8>, at: int, s: ServerInfoView)
    requires
        bytes::holds(b, at, lobby_bytes(s)),
        s.enabled_mods.len() <= MAX_MODS,
        fits(s.map),
        forall|i: int| 0 <= i < s.enabled_mods.len() ==> fits(#[trigger] s.enabled_mods[i]),
    ensures
        bytes::value_of(read_lobby(b, at, s.players)) == Ok::<ServerInfoView, Error>(s),
{
    let m = s.enabled_mods.len() as u64;
    let p4 = id_bytes(s.applicant);
    let p5 = p4 + id_bytes(s.host);
    let p6 = p5 + bytes::string_bytes(s.map);
    let p7 = p6 + le::u32_bytes(s.variant);
    let p8 = p7 + le::u64_bytes(m);
    bytes::lemma_holds_concat(b, at, p8, strings_bytes(s.enabled_mods));
    bytes::lemma_holds_concat(b, at, p7, le::u64_bytes(m));
    bytes::lemma_holds_concat(b, at, p6, le::u32_bytes(s.variant));
    bytes::lemma_holds_concat(b, at, p5, bytes::string_bytes(s.map));
    bytes::lemma_holds_concat(b, at, p4, id_bytes(s.host));
    lemma_read_back_player_id(b, at, s.applicant);
    lemma_read_back_player_id(b, at + 8, s.host);
    let q = at + 16;
    bytes::lemma_read_back_string(b, q, s.map);
    let q = q + bytes::string_bytes(s.map).len();
    bytes::lemma_read_back_u32(b, q, s.variant);
    bytes::lemma_read_back_u64(b, q + 4, m);
    lemma_read_back_strings(b, q + 12, s.enabled_mods);
}

/// A lobby description that was encoded decodes to itself, as long as it lists
/// no more players and mods than a description may.
#[verifier::rlimit(30)]
pub proof fn law_server_info_round_trips(s: ServerInfoView)
    requires
        s.players.len() <= MAX_PLAYERS,
        s.enabled_mods.len() <= MAX_MODS,
        fits(s.map),
        forall|i: int|
            0 <= i < s.players.len() ==> fits(#[trigger] s.players[i].name)
                && s.players[i].avatar.len() == 5,
        forall|i: int| 0 <= i < s.enabled_mods.len() ==> fits(#[trigger] s.enabled_mods[i]),
    ensures
        bytes::value_of(read_server_info(server_info_bytes(s))) == Ok::<ServerInfoView, Error>(s),
{
    let b = server_info_bytes(s);
    assert(b.subrange(0, b.len() as int) =~= b);
    let n = s.players.len() as u64;
    let p1 = le::u32_bytes(14);
    let p2 = p1 + le::u64_bytes(n);
    let p3 = p2 + players_bytes(s.players);
    bytes::lemma_holds_concat(b, 0, p3, lobby_bytes(s));
    bytes::lemma_holds_concat(b, 0, p2, players_bytes(s.players));
    bytes::lemma_holds_concat(b, 0, p1, le::u64_bytes(n));
    bytes::lemma_read_back_u32(b, 0, 14);
    bytes::lemma_read_back_u64(b, 4, n);
    lemma_read_back_players(b, 12, s.players);
    lemma_read_back_lobby(b, 12int + players_bytes(s.players).len(), s);
}

proof fn lemma_read_info_body_holds(b: Seq<u8>, at: int)
    requires
        0 <= at,
    ensures
        read_info_body(b, at) matches Ok((i, p)) ==> p == at + info_body(i).len() && bytes::holds(
            b,
            at,
            info_body(i),
        ),
{
    if let Ok((i, p)) = read_info_body(b, at) {
        bytes::lemma_read_string_holds(b, at);
        bytes::lemma_read_u64_holds(b, at + bytes::string_bytes(i.name).len());
        bytes::lemma_holds_concat(b, at, bytes::string_bytes(i.name), le::u64_bytes(i.trailing));
    }
}

/// Encoding a decoded identity reproduces the bytes it was read from.
pub proof fn law_decoded_client_info_encodes_back(b: Seq<u8>)
    ensures
        read_client_info(b) matches Ok((i, end)) ==> 0 <= end <= b.len() && client_info_bytes(i)
            == b.subrange(0, end),
{
    if let Ok((i, end)) = read_client_info(b) {
        bytes::lemma_read_u32_holds(b, 0);
        lemma_read_info_body_holds(b, 4);
        bytes::lemma_holds_concat(b, 0, le::u32_bytes(15), info_body(i));
    }
}

/// Encoding a decoded join announcement reproduces the bytes it was read from.
pub proof fn law_decoded_player_joined_encodes_back(b: Seq<u8>)
    ensures
        read_joined(b) matches Ok(((id, i), end)) ==> 0 <= end <= b.len() && joined_bytes(id, i)
            == b.subrange(0, end),
{
    if let Ok(((id, i), end)) = read_joined(b) {
        let tag = le::u32_bytes(13);
        bytes::lemma_read_u32_holds(b, 0);
        lemma_read_player_id_holds(b, 4);
        lemma_read_info_body_holds(b, 12);
        bytes::lemma_holds_concat(b, 0, tag, id_bytes(id));
        bytes::lemma_holds_concat(b, 0, tag + id_bytes(id), info_body(i));
    }
}

proof fn lemma_read_player_holds(b: Seq<u8>, at: int)
    requires
        0 <= at,
    ensures
        read_player(b, at) matches Ok((x, p)) ==> p == at + player_bytes(x).len() && bytes::holds(
            b,
            at,
            player_bytes(x),
        ),
{
    if let Ok((x, p)) = read_player(b, at) {
        let name = bytes::string_bytes(x.name);
        lemma_read_player_id_holds(b, at);
        bytes::lemma_read_string_holds(b, at + 8);
        assert(bytes::holds(b, at + 8 + name.len(), x.avatar));
        bytes::lemma_holds_concat(b, at, id_bytes(x.id), name);
        bytes::lemma_holds_concat(b, at, id_bytes(x.id) + name, x.avatar);
    }
}

proof fn lemma_read_players_hold(b: Seq<u8>, at: int, n: nat)
    requires
        0 <= at <= b.len(),
    ensures
        read_players(b, at, n) matches Ok((ps, p)) ==> {
            &&& ps.len() == n
            &&& p == at + players_bytes(ps).len()
            &&& bytes::holds(b, at, players_bytes(ps))
        },
    decreases n,
{
    if n == 0 {
        assert(b.subrange(at, at) =~= Seq::empty());
    } else if let Ok((ps, p)) = read_players(b, at, n) {
        lemma_read_players_hold(b, at, (n - 1) as nat);
        let front = read_players(b, at, (n - 1) as nat)->Ok_0.0;
        lemma_read_player_holds(b, at + players_bytes(front).len());
        assert(ps.drop_last() =~= front);
        bytes::lemma_holds_concat(b, at, players_bytes(front), player_bytes(ps.last()));
    }
}

proof fn lemma_read_strings_hold(b: Seq<u8>, at: int, n: nat)
    requires
        0 <= at <= b.len(),
    ensures
        read_strings(b, at, n) matches Ok((ss, p)) ==> {
            &&& ss.len() == n
            &&& p == at + strings_bytes(ss).len()
            &&& bytes::holds(b, at, strings_bytes(ss))
        },
    decreases n,
{
    if n == 0 {
        assert(b.subrange(at, at) =~= Seq::empty());
    } else if let Ok((ss, p)) = read_strings(b, at, n) {
        lemma_read_strings_hold(b, at, (n - 1) as nat);
        let front = read_strings(b, at, (n - 1) as nat)->Ok_0.0;
        bytes::lemma_read_string_holds(b, at + strings_bytes(front).len());
        assert(ss.drop_last() =~= front);
        bytes::lemma_holds_concat(b, at, strings_bytes(front), bytes::string_bytes(ss.last()));
    }
}

#[verifier::rlimit(30)]
proof fn lemma_read_lobby_holds(b: Seq<u8>, at: int, players: Seq<PlayerInfoView>)
    requires
        0 <= at,
    ensures
        read_lobby(b, at, players) matches Ok((s, p)) ==> {
            &&& s.players == players
            &&& p == at + lobby_bytes(s).len()
            &&& bytes::holds(b, at, lobby_bytes(s))
        },
{
    if let Ok((s, p)) = read_lobby(b, at, players) {
        let m = s.enabled_mods.len() as u64;
        let p4 = id_bytes(s.applicant);
        let p5 = p4 + id_bytes(s.host);
        let p6 = p5 + bytes::string_bytes(s.map);
        let p7 = p6 + le::u32_bytes(s.variant);
        let p8 = p7 + le::u64_bytes(m);
        lemma_read_player_id_holds(b, at);
        lemma_read_player_id_holds(b, at + 8);
        bytes::lemma_holds_concat(b, at, p4, id_bytes(s.host));
        let q = at + 16;
        bytes::lemma_read_string_holds(b, q);
        bytes::lemma_holds_concat(b, at, p5, bytes::string_bytes(s.map));
        let q = q + bytes::string_bytes(s.map).len();
        bytes::lemma_read_u32_holds(b, q);
        bytes::lemma_holds_concat(b, at, p6, le::u32_bytes(s.variant));
        bytes::lemma_read_u64_holds(b, q + 4);
        lemma_read_strings_hold(b, q + 12, bytes::read_u64(b, q + 4)->Ok_0.0 as nat);
        bytes::lemma_holds_concat(b, at, p7, le::u64_bytes(m));
        bytes::lemma_holds_concat(b, at, p8, strings_bytes(s.enabled_mods));
    }
}

/// Encoding a decoded lobby description reproduces the bytes it was read from.
#[verifier::rlimit(30)]
pub proof fn law_decoded_server_info_encodes_back(b: Seq<u8>)
    ensures
        read_server_info(b) matches Ok((s, end)) ==> 0 <= end <= b.len() && server_info_bytes(s)
            == b.subrange(0, end),
{
    if let Ok((s, end)) = read_server_info(b) {
        let n = s.players.len() as u64;
        let p1 = le::u32_bytes(14);
        let p2 = p1 + le::u64_bytes(n);
        let p3 = p2 + players_bytes(s.players);
        bytes::lemma_read_u32_holds(b, 0);
        bytes::lemma_read_u64_holds(b, 4);
        lemma_read_players_hold(b, 12, bytes::read_u64(b, 4)->Ok_0.0 as nat);
        let players = read_player_list(b)->Ok_0.0;
        lemma_read_lobby_holds(b, 12int + players_bytes(players).len(), players);
        bytes::lemma_holds_concat(b, 0, p1, le::u64_bytes(n));
        bytes::lemma_holds_concat(b, 0, p2, players_bytes(s.players));
        bytes::lemma_holds_concat(b, 0, p3, lobby_bytes(s));
    }
}

} // verus!
