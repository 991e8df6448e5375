//! Chat: the server's own lines, and the commands players type.

use vstd::prelude::*;

use crate::messages;
use crate::messages::{decode_chat, encode_chat, encode_lobby_change_map};
use crate::server::client;
use crate::server::client::{ClientView, Clock, Message, MessageView};
use crate::server::note;
use crate::server::note::{Note, NoteView};
use crate::server::state::{Audience, Server, ServerView};
use crate::text;
use crate::text::{
    chars_of, push_chars, push_decimal, push_text, same, split_once, string_of, strip_prefix,
    to_lower, trim,
};

verus! {

/// Chat prefix a real client uses for its own system lines: an inline colour
/// tag the chat renderer understands, closed by [`CHAT_RESET`].
pub const CHAT_SYSTEM_COLOR: &'static str = "#{100100230}";

pub const CHAT_RESET: &'static str = "#{RES}";

/// The payload of a line in the server's own colour.
pub open spec fn system_line(line: Seq<char>) -> Seq<u8> {
    messages::chat_bytes(CHAT_SYSTEM_COLOR@ + line + CHAT_RESET@)
}

/// What a player typed: the client prefixes the line with its own name, so that
/// is stripped, and so are blanks at the ends.
pub open spec fn typed(line: Seq<char>, name: Seq<char>) -> Seq<char> {
    text::trimmed(
        match text::behind(line, name) {
            Some(rest) => match text::behind(rest, ": "@) {
                Some(rest) => rest,
                None => line,
            },
            None => line,
        },
    )
}

/// The command in a chat line, if what was typed starts with `!`.
pub open spec fn command_in(line: Seq<char>, name: Seq<char>) -> Option<Seq<char>> {
    text::behind(typed(line, name), "!"@)
}

impl ServerView {
    /// With one chat line from the server to `addr`.
    pub open spec fn said(self, addr: u64, line: Seq<char>, clock: Clock) -> ServerView {
        self.told(Audience::One(addr), seq![client::ordered(system_line(line))], clock)
    }

    /// With one chat line from the server to the whole lobby, and to the log.
    pub open spec fn said_all(self, line: Seq<char>, clock: Clock) -> ServerView {
        ServerView {
            said: self.said.push(line),
            ..self.told(Audience::Lobby, seq![client::ordered(system_line(line))], clock)
        }
    }

    /// With all votes withdrawn.
    pub open spec fn votes_cleared(self) -> ServerView {
        ServerView {
            clients: self.clients.map_values(|c: ClientView| ClientView { vote: None, ..c }),
            ..self
        }
    }

    /// With the lobby moved to rotation entry `index`: LobbyChangeMap so
    /// minimaps and the client's "Host changed track" line follow, then the lap
    /// count, which the game never shows. Votes were for this switch, so they
    /// reset.
    pub open spec fn moved_to(self, index: int, clock: Clock) -> ServerView {
        let t = self.maps[index];
        let moved = ServerView { map_index: index, ..self }.told(
            Audience::Lobby,
            seq![client::ordered(messages::lobby_change_map_bytes(t.name, t.variant))],
            clock,
        ).votes_cleared();
        moved.said_all(
            "Next race: "@ + moved.describe(index) + ". !vote picks another."@,
            clock,
        )
    }

    /// The rotation's line for entry `index`; `>` marks the upcoming race.
    pub open spec fn rotation_line(self, index: int) -> Seq<char> {
        (if index == self.upcoming() {
            ">"@
        } else {
            " "@
        }) + text::decimal((index + 1) as nat) + ". "@ + self.describe(index)
    }

    /// The first `k` rotation entries that have votes, with their counts.
    pub open spec fn tally_line(self, k: int) -> Seq<char>
        decreases k,
    {
        if k <= 0 {
            Seq::empty()
        } else {
            let before = self.tally_line(k - 1);
            if self.votes_for(k - 1) == 0 {
                before
            } else {
                (if before.len() == 0 {
                    before
                } else {
                    before + ", "@
                }) + self.maps[k - 1].label() + " "@ + text::decimal(self.votes_for(k - 1))
            }
        }
    }

    /// The answer to a bare `!vote`.
    pub open spec fn tally_text(self) -> Seq<char> {
        let listed = self.tally_line(self.maps.len() as int);
        if listed.len() == 0 {
            "No votes yet. !vote N or !vote <map> picks the next map; see !maps"@
        } else {
            "Votes: "@ + listed
        }
    }

    /// What the lobby hears of a vote.
    pub open spec fn vote_line(self, name: Seq<char>, index: int) -> Seq<char> {
        name + " voted for "@ + self.maps[index].label() + " ("@ + text::decimal(
            self.votes_for(index),
        ) + "/"@ + text::decimal(self.majority()) + " needed)"@
    }

    /// More than half of the lobby.
    pub open spec fn majority(self) -> nat {
        self.size(Audience::Lobby) / 2 + 1
    }

    /// With a `!vote` for `target` taken: alone it shows the tally; with a map
    /// it records the vote and tells everyone. A majority of the lobby switches
    /// the map at once when nobody is racing; otherwise the leader wins when the
    /// race ends.
    pub open spec fn voted(self, from: u64, target: Seq<char>, clock: Clock) -> ServerView {
        if target.len() == 0 {
            self.said(from, self.tally_text(), clock)
        } else {
            match self.find_map(target) {
                Err(why) => self.said(from, why, clock),
                Ok(index) => if !self.racing && index == self.map_index {
                    self.said(from, self.maps[index].label() + " is already next"@, clock)
                } else if !self.knows(from) {
                    self
                } else {
                    let c = self.client(from);
                    let counted = self.with_client(
                        self.seat(from),
                        ClientView { vote: Some(index as usize), ..c },
                    );
                    let heard = counted.said_all(counted.vote_line(c.name(), index), clock);
                    if !self.racing && counted.votes_for(index) >= counted.majority() {
                        heard.said_all("Vote passed."@, clock).moved_to(index, clock)
                    } else {
                        heard
                    }
                },
            }
        }
    }

    /// The answer to `!next`.
    pub open spec fn next_text(self) -> Seq<char> {
        if self.racing {
            "Racing "@ + self.map().label() + " now; next: "@ + self.describe(self.upcoming())
        } else {
            "Next race: "@ + self.describe(self.upcoming())
        }
    }

    /// With a command from `from` carried out.
    pub open spec fn commanded(self, from: u64, command: Seq<char>, clock: Clock) -> ServerView {
        let (verb, arg) = match text::split_at_first(command, ' ') {
            Some(parts) => parts,
            None => (command, Seq::empty()),
        };
        let known = text::lower(verb);
        if known == "help"@ {
            self.told(
                Audience::One(from),
                seq![
                    client::ordered(
                        system_line("!maps shows the rotation, !next the upcoming race"@),
                    ),
                    client::ordered(
                        system_line(
                            "!vote N or !vote <map> picks the next map, !vote shows the tally"@,
                        ),
                    ),
                ],
                clock,
            )
        } else if known == "maps"@ || known == "rotation"@ {
            self.told(
                Audience::One(from),
                Seq::new(
                    self.maps.len(),
                    |i: int| client::ordered(system_line(self.rotation_line(i))),
                ),
                clock,
            )
        } else if known == "next"@ {
            self.said(from, self.next_text(), clock)
        } else if known == "vote"@ {
            self.voted(from, text::trimmed(arg), clock)
        } else {
            self.said(from, "Unknown command !"@ + verb + "; try !help"@, clock)
        }
    }

    /// With a chat line from `from` taken, and what became of it: a lobby
    /// member's line is relayed as it was, then acted on if it is a `!command`.
    pub open spec fn chatted(self, from: u64, payload: Seq<u8>, clock: Clock) -> (
        ServerView,
        Option<NoteView>,
    ) {
        match messages::read_chat(payload) {
            Err(error) => (self, Some(NoteView::BadEvent { what: "chat", error })),
            Ok((line, _)) => if !self.hosts(from) {
                (self, None)
            } else {
                let relayed = self.told(
                    Audience::LobbyBut(from),
                    seq![client::ordered(payload)],
                    clock,
                );
                match command_in(line, self.client(from).name()) {
                    None => (
                        relayed,
                        Some(
                            NoteView::ChatRelayed {
                                peers: self.size(Audience::LobbyBut(from)) as usize,
                            },
                        ),
                    ),
                    Some(command) => (
                        relayed.commanded(from, command, clock),
                        Some(NoteView::CommandHandled { command }),
                    ),
                }
            },
        }
    }
}

/// The payload of a line in the server's own colour.
fn encode_system_line(line: &str) -> (payload: Vec<u8>)
    ensures
        payload@ == system_line(line@),
{
    let mut s = String::new();
    push_text(&mut s, CHAT_SYSTEM_COLOR);
    push_text(&mut s, line);
    push_text(&mut s, CHAT_RESET);
    assert(s@ =~= CHAT_SYSTEM_COLOR@ + line@ + CHAT_RESET@);
    encode_chat(s.as_str())
}

impl Server {
    /// Tell the audience one message.
    pub fn tell_one(&mut self, to: Audience, payload: Vec<u8>, ordered: bool, clock: Clock)
        ensures
            final(self)@ == old(self)@.told(
                to,
                seq![MessageView { payload: payload@, ordered }],
                clock,
            ),
            old(self)@.wf() ==> final(self)@.wf(),
    {
        let msgs: [Message; 1] = [Message { payload, ordered }];
        assert(client::messages(msgs@) =~= seq![MessageView { payload: payload@, ordered }]);
        self.tell(to, msgs.as_slice(), clock);
    }

    /// One chat line from the server to `addr`, coloured like a client's own
    /// system messages.
    pub fn say(&mut self, addr: u64, line: &str, clock: Clock)
        ensures
            final(self)@ == old(self)@.said(addr, line@, clock),
            old(self)@.wf() ==> final(self)@.wf(),
    {
        self.tell_one(Audience::One(addr), encode_system_line(line), true, clock);
    }

    /// One chat line from the server to the whole lobby, and to the log.
    pub fn say_all(&mut self, line: &str, clock: Clock)
        ensures
            final(self)@ == old(self)@.said_all(line@, clock),
            old(self)@.wf() ==> final(self)@.wf(),
    {
        self.tell_one(Audience::Lobby, encode_system_line(line), true, clock);
        let mut logged = String::new();
        push_text(&mut logged, line);
        self.said.push(logged);
        assert(logged@ =~= line@);
        assert(self@.said =~= old(self)@.said.push(line@));
    }

    fn clear_votes(&mut self)
        ensures
            final(self)@ == old(self)@.votes_cleared(),
            old(self)@.wf() ==> final(self)@.wf(),
    {
        let ghost before = self@;
        let ghost after = before.votes_cleared().clients;
        let mut i: usize = 0;
        assert(self@.clients =~= after.take(0) + before.clients.skip(0));
        while i < self.clients.len()
            invariant
                i <= self.clients@.len(),
                before == old(self)@,
                after == before.votes_cleared().clients,
                self.clients@.len() == before.clients.len(),
                self@ == (ServerView {
                    clients: after.take(i as int) + before.clients.skip(i as int),
                    ..before
                }),
            decreases self.clients@.len() - i,
        {
            let ghost here = self@;
            assert(self.clients@[i as int]@ == here.clients[i as int]);
            self.clients[i].vote = None;
            assert(self.clients@[i as int]@ == after[i as int]);
            assert(self@.clients =~= here.clients.update(i as int, after[i as int]));
            assert(self@.clients =~= after.take(i + 1) + before.clients.skip(i + 1));
            i = i + 1;
        }
        assert(self@.clients =~= after);
    }

    /// Move the lobby to rotation entry `index`: LobbyChangeMap so minimaps and
    /// the client's "Host changed track" line follow, then the lap count, which
    /// the game never shows. Votes were for this switch, so they reset.
    pub fn set_map(&mut self, index: usize, clock: Clock)
        requires
            old(self)@.wf(),
            index < old(self)@.maps.len(),
        ensures
            final(self)@ == old(self)@.moved_to(index as int, clock),
            final(self)@.wf(),
    {
        self.map_index = index;
        let t = self.map();
        let change = encode_lobby_change_map(t.name.as_str(), t.variant);
        self.tell_one(Audience::Lobby, change, true, clock);
        self.clear_votes();
        let mut line = String::new();
        push_text(&mut line, "Next race: ");
        push_text(&mut line, self.describe(index).as_str());
        push_text(&mut line, ". !vote picks another.");
        assert(line@ =~= "Next race: "@ + self@.describe(index as int)
            + ". !vote picks another."@);
        self.say_all(line.as_str(), clock);
    }

    /// The answer to a bare `!vote`.
    fn tally_text(&self) -> (s: String)
        requires
            self@.rotation_wf(),
        ensures
            s@ == self@.tally_text(),
    {
        let counts = self.tally();
        let mut listed = String::new();
        let mut empty: bool = true;
        let mut i: usize = 0;
        assert(listed@ =~= self@.tally_line(0));
        while i < counts.len()
            invariant
                i <= counts@.len(),
                self@.rotation_wf(),
                counts@.len() == self@.maps.len(),
                forall|j: int|
                    0 <= j < counts@.len() ==> (#[trigger] counts@[j]) as nat == self@.votes_for(j),
                listed@ == self@.tally_line(i as int),
                empty == (listed@.len() == 0),
            decreases counts@.len() - i,
        {
            assert(counts@[i as int] as nat == self@.votes_for(i as int));
            if counts[i] > 0 {
                if !empty {
                    push_text(&mut listed, ", ");
                }
                push_text(&mut listed, self.track(i).label().as_str());
                push_text(&mut listed, " ");
                push_decimal(&mut listed, counts[i] as u64);
                empty = false;
                proof {
                    reveal_strlit(" ");
                    assert(listed@ =~= self@.tally_line(i + 1));
                }
            }
            i = i + 1;
        }
        if empty {
            let mut s = String::new();
            push_text(
                &mut s,
                "No votes yet. !vote N or !vote <map> picks the next map; see !maps",
            );
            assert(s@ =~= self@.tally_text());
            s
        } else {
            let mut s = String::new();
            push_text(&mut s, "Votes: ");
            push_text(&mut s, listed.as_str());
            assert(s@ =~= self@.tally_text());
            s
        }
    }

    /// `!vote` alone shows the tally; with a map it records the vote and tells
    /// everyone. A majority of the lobby switches the map at once when nobody is
    /// racing; otherwise the leader wins when the race ends.
    pub fn vote(&mut self, from: u64, target: &[char], clock: Clock)
        requires
            old(self)@.wf(),
        ensures
            final(self)@ == old(self)@.voted(from, target@, clock),
            final(self)@.wf(),
    {
        let ghost before = self@;
        if target.len() == 0 {
            let line = self.tally_text();
            self.say(from, line.as_str(), clock);
            return;
        }
        let index: usize = match self.find_map(target) {
            Ok(index) => index,
            Err(why) => {
                self.say(from, why.as_str(), clock);
                return;
            },
        };
        if !self.racing && index == self.map_index {
            let mut line = self.track(index).label();
            push_text(&mut line, " is already next");
            self.say(from, line.as_str(), clock);
            return;
        }
        let i: usize = self.seat(from);
        if i == self.clients.len() {
            return;
        }
        self.clients[i].vote = Some(index);
        let ghost c = before.client(from);
        let ghost counted = before.with_client(
            i as int,
            ClientView { vote: Some(index), ..c },
        );
        assert(self.clients@[i as int]@ =~= ClientView { vote: Some(index), ..c });
        assert(self@.clients =~= counted.clients);
        assert(self@.clients_wf());
        let votes: usize = self.votes_for(index);
        let lobby: usize = self.size(Audience::Lobby);
        let needed: usize = lobby / 2 + 1;
        let mut line = String::new();
        push_text(&mut line, self.clients[i].name());
        push_text(&mut line, " voted for ");
        push_text(&mut line, self.track(index).label().as_str());
        push_text(&mut line, " (");
        push_decimal(&mut line, votes as u64);
        push_text(&mut line, "/");
        push_decimal(&mut line, needed as u64);
        push_text(&mut line, " needed)");
        assert(line@ =~= counted.vote_line(c.name(), index as int));
        let racing: bool = self.racing;
        self.say_all(line.as_str(), clock);
        if !racing && votes >= needed {
            self.say_all("Vote passed.", clock);
            self.set_map(index, clock);
        }
    }

    /// The rotation, one message per entry.
    fn rotation_messages(&self) -> (msgs: Vec<Message>)
        requires
            self@.wf(),
        ensures
            client::messages(msgs@) == Seq::new(
                self@.maps.len(),
                |i: int| client::ordered(system_line(self@.rotation_line(i))),
            ),
    {
        let ghost all = Seq::new(
            self@.maps.len(),
            |i: int| client::ordered(system_line(self@.rotation_line(i))),
        );
        let upcoming: usize = self.upcoming();
        let mut msgs: Vec<Message> = Vec::new();
        let mut i: usize = 0;
        assert(client::messages(msgs@) =~= all.take(0));
        while i < self.maps.len()
            invariant
                i <= self.maps@.len(),
                self.maps@.len() == self@.maps.len(),
                self@.wf(),
                upcoming == self@.upcoming(),
                all == Seq::new(
                    self@.maps.len(),
                    |i: int| client::ordered(system_line(self@.rotation_line(i))),
                ),
                client::messages(msgs@) == all.take(i as int),
            decreases self.maps@.len() - i,
        {
            let ghost before = client::messages(msgs@);
            let mut line = String::new();
            push_text(&mut line, if i == upcoming { ">" } else { " " });
            push_decimal(&mut line, i as u64 + 1);
            push_text(&mut line, ". ");
            push_text(&mut line, self.describe(i).as_str());
            assert(line@ =~= self@.rotation_line(i as int));
            let m = Message { payload: encode_system_line(line.as_str()), ordered: true };
            let ghost shown = m@;
            msgs.push(m);
            assert(shown == all[i as int]);
            assert(client::messages(msgs@) =~= before.push(shown));
            assert(client::messages(msgs@) =~= all.take(i + 1));
            i = i + 1;
        }
        assert(all.take(i as int) =~= all);
        msgs
    }

    /// The answer to `!next`.
    fn next_text(&self) -> (line: String)
        requires
            self@.wf(),
        ensures
            line@ == self@.next_text(),
    {
        let mut line = String::new();
        if self.racing {
            push_text(&mut line, "Racing ");
            push_text(&mut line, self.map().label().as_str());
            push_text(&mut line, " now; next: ");
            push_text(&mut line, self.describe(self.upcoming()).as_str());
        } else {
            push_text(&mut line, "Next race: ");
            push_text(&mut line, self.describe(self.upcoming()).as_str());
        }
        assert(line@ =~= self@.next_text());
        line
    }

    /// Carry out a command from `from`.
    pub fn command(&mut self, from: u64, command: &[char], clock: Clock)
        requires
            old(self)@.wf(),
        ensures
            final(self)@ == old(self)@.commanded(from, command@, clock),
            final(self)@.wf(),
    {
        let none: [char; 0] = [];
        assert(none@ =~= Seq::empty());
        let (verb, arg) = match split_once(command, ' ') {
            Some(parts) => parts,
            None => (command, none.as_slice()),
        };
        let known = to_lower(verb);
        let known = known.as_slice();
        if same(known, chars_of("help").as_slice()) {
            // One chat line does not wrap; the full list ran off screen.
            let msgs: [Message; 2] = [
                Message {
                    payload: encode_system_line(
                        "!maps shows the rotation, !next the upcoming race",
                    ),
                    ordered: true,
                },
                Message {
                    payload: encode_system_line(
                        "!vote N or !vote <map> picks the next map, !vote shows the tally",
                    ),
                    ordered: true,
                },
            ];
            assert(client::messages(msgs@) =~= seq![
                client::ordered(system_line("!maps shows the rotation, !next the upcoming race"@)),
                client::ordered(
                    system_line(
                        "!vote N or !vote <map> picks the next map, !vote shows the tally"@,
                    ),
                ),
            ]);
            self.tell(Audience::One(from), msgs.as_slice(), clock);
        } else if same(known, chars_of("maps").as_slice()) || same(
            known,
            chars_of("rotation").as_slice(),
        ) {
            let msgs = self.rotation_messages();
            self.tell(Audience::One(from), msgs.as_slice(), clock);
        } else if same(known, chars_of("next").as_slice()) {
            let line = self.next_text();
            self.say(from, line.as_str(), clock);
        } else if same(known, chars_of("vote").as_slice()) {
            self.vote(from, trim(arg), clock);
        } else {
            let mut line = String::new();
            push_text(&mut line, "Unknown command !");
            push_chars(&mut line, verb);
            push_text(&mut line, "; try !help");
            assert(line@ =~= "Unknown command !"@ + verb@ + "; try !help"@);
            self.say(from, line.as_str(), clock);
        }
    }

    /// A chat line from a lobby member: relay it as it was like a real host,
    /// then act on it if it is a `!command`. The client already prefixed its own
    /// name, so that is stripped before looking for the prefix.
    pub fn chat(&mut self, from: u64, payload: Vec<u8>, clock: Clock) -> (note: Option<Note>)
        requires
            old(self)@.wf(),
        ensures
            (final(self)@, note::noted(note)) == old(self)@.chatted(from, payload@, clock),
            final(self)@.wf(),
    {
        let ghost before = self@;
        let line = match decode_chat(payload.as_slice()) {
            Ok(line) => line,
            Err(error) => return Some(Note::BadEvent { what: "chat", error }),
        };
        let i: usize = self.seat(from);
        if i == self.clients.len() || !self.clients[i].in_lobby() {
            return None;
        }
        let chars = chars_of(line.as_str());
        let name = chars_of(self.clients[i].name());
        let said = match strip_prefix(chars.as_slice(), name.as_slice()) {
            Some(rest) => match strip_prefix(rest, chars_of(": ").as_slice()) {
                Some(rest) => rest,
                None => chars.as_slice(),
            },
            None => chars.as_slice(),
        };
        let said = trim(said);
        assert(said@ == typed(line@, before.client(from).name()));
        let command = strip_prefix(said, chars_of("!").as_slice());
        let peers: usize = self.size(Audience::LobbyBut(from));
        self.tell_one(Audience::LobbyBut(from), payload, true, clock);
        match command {
            None => Some(Note::ChatRelayed { peers }),
            Some(command) => {
                self.command(from, command, clock);
                Some(Note::CommandHandled { command: string_of(command) })
            },
        }
    }
}

} // verus!
