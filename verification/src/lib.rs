//! BeaterCore multiplayer hosting: the wire codec of the game's UDP protocol, a
//! headless lobby and race server, and the seam between that server and the
//! game's Steam transport.
//!
//! Everything here computes on plain values. Sockets, clocks, files and the
//! Steam client belong to the programs around the library.

pub mod bytes;
pub mod datalog;
pub mod error;
pub mod event;
pub mod frame;
pub mod layout_laws;
pub mod le;
pub mod link;
pub mod link_laws;
pub mod messages;
pub mod player;
pub mod reassembly;
pub mod seqs;
pub mod server;
pub mod text;
pub mod text_laws;
pub mod track;
pub mod translate;

pub use crate::error::Error;
pub use crate::event::{event_discriminant, event_kind, Event};
pub use crate::frame::{
    encode, looks_like_game_traffic, parse, Chunk, Frame, Kind, Packet, CHUNK_SIZE, GREETING_ID,
};
pub use crate::messages::{
    broadcast_twin, broadcast_verbatim, clock_of, decode_car_crossed_finish, decode_chat,
    decode_crossed_finish, decode_disconnect, decode_player_left, decode_ready,
    decode_visit_request, encode_car_crossed_finish, encode_chat, encode_clock,
    encode_garage_commit, encode_garage_visit_broadcast, encode_lobby_change_map,
    encode_location_in_garage, encode_player_left, encode_race_end, encode_race_go,
    encode_ready_broadcast, encode_spawn_car, encode_start_race, encode_visit_garage_response,
    encode_with_sender, encode_with_sender_disc, CarState, Finish, GarageScene, Pose, RaceSettings,
};
pub use crate::player::{ClientInfo, PlayerId, PlayerInfo, ServerInfo, HOST_CLIENT_ID};
