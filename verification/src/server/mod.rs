//! A headless multiplayer server for BeaterCore, as a state machine.
//!
//! The server owns no socket and reads no clock: each step takes the time it
//! happens at, and leaves the datagrams it wants sent in an outbox. Peers are
//! known by numeric keys that the caller maps to their addresses.
//!
//! It implements the join handshake, the reliability layer (acks and
//! retransmits), the lobby Ready toggle, chat commands and votes, races, garage
//! visits, and relaying of everything else between joined clients:
//!
//! ```text
//! client  -> Greeting                       server -> Greeting (echo)
//! client  -> Reliable ClientInfo            server -> Ack, Reliable ServerInfo, Reliable GarageStateCommit
//! client  -> Ack, Ack, Reliable GarageState server -> Ack
//! both    -> Unreliable Ping at 1 Hz, answered with a Pong echoing the clock
//! client  -> Reliable Ready(bool)           server -> Ack, ReadyBroadcast to the other clients
//! all ready                                 server -> ReadyBroadcast(host), StartRace, SpawnCar per car
//! client  -> Reliable Ready(true) at grid   server -> ReadyBroadcast to the others; once everyone
//!                                                     confirmed: ReadyBroadcast(host), RaceGo
//! client  -> Unreliable CarState at 20 Hz   server -> CarStateBroadcast to the other clients
//! client  -> Reliable CrossedFinish         server -> CarCrossedFinish to the other clients; once
//!                                                     everyone finished: CarCrossedFinish(host),
//!                                                     then RaceEnd and GarageStateCommit(host)
//! client  -> Reliable GarageState (worn)    server -> GarageStateCommit to the other clients
//! ```
//!
//! It does not simulate anything: the host car is a parked phantom that
//! "finishes" just behind the last real finisher so the results table is
//! complete, and a race also ends when a grace period after the first finish
//! runs out or the lobby empties.

pub mod chat;
pub mod chat_laws;
pub mod client;
pub mod finish_laws;
pub mod growth;
pub mod handle;
pub mod hearing;
pub mod join_laws;
pub mod laws;
pub mod lobby;
pub mod note;
pub mod note_laws;
pub mod race;
pub mod race_laws;
pub mod relay;
pub mod relay_laws;
pub mod retry_laws;
pub mod start_laws;
pub mod state;
pub mod timers;
pub mod turn_laws;
pub mod vote_laws;
pub mod votes;
