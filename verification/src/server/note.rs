//! What became of a datagram, for logging.

use vstd::prelude::*;

use crate::error::Error;
use crate::event::Event;
use crate::player::PlayerId;

verus! {

/// What became of a datagram. `peers` is how many clients something was sent to.
#[derive(Debug, Clone, PartialEq, Eq)]
pub enum Note {
    /// Stray traffic on a public port is normal; it was ignored.
    Ignored { len: usize, error: Error },
    GreetingEchoed,
    /// The greeting had another id than the game's; it was echoed all the same.
    UnexpectedGreeting(u32),
    AckForNothing(u32),
    /// A retransmit: acked again, not applied again.
    ReAcked { seq: u32, resend: u8 },
    /// A piece of a chunked payload that reaches past the payload's end.
    BadChunk(u32),
    /// An event whose body does not decode.
    BadEvent { what: &'static str, error: Error },
    /// A newcomer was told of the lobby and of that many garages.
    LobbyDescribed { commits: usize },
    GarageCommitted { peers: usize },
    ChatRelayed { peers: usize },
    /// A chat command, by what was behind the `!`.
    CommandHandled { command: String },
    FinishOutsideRace,
    /// A car crossed the finish; the race time is the bits of an `f64`.
    CrossedFinish { time_bits: u64 },
    /// A Ready from someone who is not in the race.
    ReadyDuringRace { ready: bool, peers: usize },
    GridConfirmed { ready: bool, peers: usize },
    EveryoneConfirmed { ready: bool },
    ReadyChanged { ready: bool, peers: usize },
    RaceStarted { ready: bool },
    Disconnected { reason: u32 },
    UnknownOwner(PlayerId),
    Visiting(PlayerId),
    VisitAnswered { visitors: usize },
    /// An event re-tagged as its broadcast twin. `reliable` is how it came, here
    /// and below.
    Retagged { disc: u32, twin: u32, reliable: bool, peers: usize },
    /// An event that no one else is told of.
    Consumed { disc: u32, reliable: bool },
    /// An event relayed as it was.
    Relayed { event: Event, reliable: bool, peers: usize },
}

/// What a [`Note`] holds.
#[verifier::ext_equal]
pub enum NoteView {
    Ignored { len: usize, error: Error },
    GreetingEchoed,
    UnexpectedGreeting(u32),
    AckForNothing(u32),
    ReAcked { seq: u32, resend: u8 },
    BadChunk(u32),
    BadEvent { what: &'static str, error: Error },
    LobbyDescribed { commits: usize },
    GarageCommitted { peers: usize },
    ChatRelayed { peers: usize },
    CommandHandled { command: Seq<char> },
    FinishOutsideRace,
    CrossedFinish { time_bits: u64 },
    ReadyDuringRace { ready: bool, peers: usize },
    GridConfirmed { ready: bool, peers: usize },
    EveryoneConfirmed { ready: bool },
    ReadyChanged { ready: bool, peers: usize },
    RaceStarted { ready: bool },
    Disconnected { reason: u32 },
    UnknownOwner(PlayerId),
    Visiting(PlayerId),
    VisitAnswered { visitors: usize },
    Retagged { disc: u32, twin: u32, reliable: bool, peers: usize },
    Consumed { disc: u32, reliable: bool },
    Relayed { event: Event, reliable: bool, peers: usize },
}

impl View for Note {
    type V = NoteView;

    open spec fn view(&self) -> NoteView {
        match *self {
            Note::Ignored { len, error } => NoteView::Ignored { len, error },
            Note::GreetingEchoed => NoteView::GreetingEchoed,
            Note::UnexpectedGreeting(id) => NoteView::UnexpectedGreeting(id),
            Note::AckForNothing(seq) => NoteView::AckForNothing(seq),
            Note::ReAcked { seq, resend } => NoteView::ReAcked { seq, resend },
            Note::BadChunk(id) => NoteView::BadChunk(id),
            Note::BadEvent { what, error } => NoteView::BadEvent { what, error },
            Note::LobbyDescribed { commits } => NoteView::LobbyDescribed { commits },
            Note::GarageCommitted { peers } => NoteView::GarageCommitted { peers },
            Note::ChatRelayed { peers } => NoteView::ChatRelayed { peers },
            Note::CommandHandled { command } => NoteView::CommandHandled { command: command@ },
            Note::FinishOutsideRace => NoteView::FinishOutsideRace,
            Note::CrossedFinish { time_bits } => NoteView::CrossedFinish { time_bits },
            Note::ReadyDuringRace { ready, peers } => NoteView::ReadyDuringRace { ready, peers },
            Note::GridConfirmed { ready, peers } => NoteView::GridConfirmed { ready, peers },
            Note::EveryoneConfirmed { ready } => NoteView::EveryoneConfirmed { ready },
            Note::ReadyChanged { ready, peers } => NoteView::ReadyChanged { ready, peers },
            Note::RaceStarted { ready } => NoteView::RaceStarted { ready },
            Note::Disconnected { reason } => NoteView::Disconnected { reason },
            Note::UnknownOwner(owner) => NoteView::UnknownOwner(owner),
            Note::Visiting(owner) => NoteView::Visiting(owner),
            Note::VisitAnswered { visitors } => NoteView::VisitAnswered { visitors },
            Note::Retagged { disc, twin, reliable, peers } => NoteView::Retagged {
                disc,
                twin,
                reliable,
                peers,
            },
            Note::Consumed { disc, reliable } => NoteView::Consumed { disc, reliable },
            Note::Relayed { event, reliable, peers } => NoteView::Relayed { event, reliable, peers },
        }
    }
}

/// What became of a datagram, if there is anything to say.
pub open spec fn noted(note: Option<Note>) -> Option<NoteView> {
    match note {
        Some(note) => Some(note@),
        None => None,
    }
}

} // verus!
