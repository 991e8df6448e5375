//! What the server answers to what players type.

use vstd::prelude::*;

use crate::layout_laws;
use crate::server::chat;
use crate::server::client;
use crate::server::client::{Clock, MessageView};
use crate::server::hearing;
use crate::server::state::{Audience, ServerView};
use crate::server::vote_laws;
use crate::text;
use crate::text_laws;

verus! {

/// A chat line of the server, in its colour.
pub open spec fn line_of(text: Seq<char>) -> MessageView {
    client::ordered(chat::system_line(text))
}

/// The server's lines are chat lines between the tag of their colour and the one
/// that ends it.
pub proof fn law_server_lines_are_coloured(line: Seq<char>)
    ensures
        chat::system_line(line) == layout_laws::word(0) + layout_laws::named(
            "#{100100230}"@ + line + "#{RES}"@,
        ),
{
    let id = crate::player::PlayerId { client_id: 0, player_index: 0 };
    layout_laws::law_lobby_event_layout(id, id, false, "#{100100230}"@ + line + "#{RES}"@, 0);
}

/// A line to the whole lobby is kept for the log, and said to everyone in the
/// lobby alone; a line to one client is heard by that client alone and not kept.
pub proof fn law_lines_to_the_lobby_are_logged(
    s: ServerView,
    addr: u64,
    line: Seq<char>,
    i: int,
    clock: Clock,
)
    requires
        s.wf(),
        0 <= i < s.clients.len(),
    ensures
        s.said_all(line, clock).said == s.said.push(line),
        s.said(addr, line, clock).said == s.said,
        hearing::hears(
            s,
            s.said_all(line, clock),
            s.clients[i].addr,
            if s.clients[i].garage is Some {
                seq![line_of(line)]
            } else {
                Seq::empty()
            },
            clock,
        ),
        hearing::hears(
            s,
            s.said(addr, line, clock),
            s.clients[i].addr,
            if s.clients[i].addr == addr {
                seq![line_of(line)]
            } else {
                Seq::empty()
            },
            clock,
        ),
{
    hearing::lemma_key_finds(s.clients, i);
    hearing::lemma_hears_said_all(s, line, s.clients[i].addr, clock);
    vote_laws::lemma_answered(s, addr, seq![line_of(line)], i, clock);
}

/// What a player types is what is behind their own name and a colon, or the whole
/// line where it does not start with those; blanks at its ends do not count, and
/// it is a command if a `!` comes first.
pub proof fn law_command_is_what_was_typed(name: Seq<char>, typed: Seq<char>, line: Seq<char>)
    requires
        text::behind(line, name + ": "@) is None,
    ensures
        chat::command_in(name + ": "@ + typed, name) == text::behind(text::trimmed(typed), "!"@),
        chat::command_in(line, name) == text::behind(text::trimmed(line), "!"@),
{
    let full = name + ": "@ + typed;
    assert(full =~= name + (": "@ + typed));
    text_laws::law_prefixes_and_parts(Seq::empty(), name, ": "@ + typed, full);
    text_laws::law_prefixes_and_parts(Seq::empty(), ": "@, typed, full);
    text_laws::law_prefixes_and_parts(Seq::empty(), name, Seq::empty(), line);
    if let Some(rest) = text::behind(line, name) {
        text_laws::law_prefixes_and_parts(Seq::empty(), ": "@, Seq::empty(), rest);
        if let Some(tail) = text::behind(rest, ": "@) {
            assert(line =~= (name + ": "@) + tail);
            text_laws::law_prefixes_and_parts(Seq::empty(), name + ": "@, tail, line);
        }
    }
}

proof fn lemma_verbs()
    ensures
        "help"@ != "maps"@ && "help"@ != "rotation"@ && "help"@ != "next"@ && "help"@ != "vote"@,
        "maps"@ != "next"@ && "maps"@ != "vote"@,
        "rotation"@ != "next"@ && "rotation"@ != "vote"@ && "rotation"@ != "help"@,
        "next"@ != "vote"@,
        !"help"@.contains(' ') && !"maps"@.contains(' ') && !"rotation"@.contains(' '),
        !"next"@.contains(' ') && !"vote"@.contains(' '),
        text::lower("help"@) == "help"@ && text::lower("maps"@) == "maps"@,
        text::lower("rotation"@) == "rotation"@ && text::lower("next"@) == "next"@,
        text::lower("vote"@) == "vote"@,
{
    reveal_strlit("help");
    reveal_strlit("maps");
    reveal_strlit("rotation");
    reveal_strlit("next");
    reveal_strlit("vote");
    assert("help"@[0] == 'h' && "maps"@[0] == 'm' && "rotation"@[0] == 'r' && "next"@[0] == 'n'
        && "vote"@[0] == 'v');
    assert(text::lower("help"@) =~= "help"@);
    assert(text::lower("maps"@) =~= "maps"@);
    assert(text::lower("rotation"@) =~= "rotation"@);
    assert(text::lower("next"@) =~= "next"@);
    assert(text::lower("vote"@) =~= "vote"@);
}

/// Commands are known in any case of their letters, `rotation` is another word
/// for `maps`, and only `vote` looks at what follows the first blank.
pub proof fn law_commands_are_known_in_any_case(
    s: ServerView,
    from: u64,
    verb: Seq<char>,
    arg: Seq<char>,
    clock: Clock,
)
    requires
        !verb.contains(' '),
    ensures
        text::lower(verb) == "help"@ || text::lower(verb) == "maps"@ || text::lower(verb)
            == "next"@ ==> s.commanded(from, verb, clock) == s.commanded(
            from,
            text::lower(verb),
            clock,
        ) && s.commanded(from, verb + seq![' '] + arg, clock) == s.commanded(from, verb, clock),
        text::lower(verb) == "rotation"@ ==> s.commanded(from, verb, clock) == s.commanded(
            from,
            "maps"@,
            clock,
        ) && s.commanded(from, verb + seq![' '] + arg, clock) == s.commanded(from, "maps"@, clock),
        text::lower(verb) == "vote"@ ==> s.commanded(from, verb, clock) == s.voted(
            from,
            Seq::empty(),
            clock,
        ) && s.commanded(from, verb + seq![' '] + arg, clock) == s.voted(
            from,
            text::trimmed(arg),
            clock,
        ),
{
    lemma_verbs();
    text_laws::law_split_joins_back(verb, ' ', arg);
    text_laws::law_split_joins_back("help"@, ' ', arg);
    text_laws::law_split_joins_back("maps"@, ' ', arg);
    text_laws::law_split_joins_back("next"@, ' ', arg);
    assert(text::trimmed(Seq::empty()) =~= Seq::empty());
}

/// `!help` tells its sender, and nobody else, the other commands.
pub proof fn law_help_names_the_commands(s: ServerView, from: u64, i: int, clock: Clock)
    requires
        s.wf(),
        0 <= i < s.clients.len(),
    ensures
        hearing::hears(
            s,
            s.commanded(from, "help"@, clock),
            s.clients[i].addr,
            if s.clients[i].addr == from {
                seq![
                    line_of("!maps shows the rotation, !next the upcoming race"@),
                    line_of("!vote N or !vote <map> picks the next map, !vote shows the tally"@),
                ]
            } else {
                Seq::empty()
            },
            clock,
        ),
{
    lemma_verbs();
    text_laws::law_split_joins_back("help"@, ' ', Seq::empty());
    let msgs = seq![
        line_of("!maps shows the rotation, !next the upcoming race"@),
        line_of("!vote N or !vote <map> picks the next map, !vote shows the tally"@),
    ];
    vote_laws::lemma_answered(s, from, msgs, i, clock);
    assert(s.commanded(from, "help"@, clock) == s.told(Audience::One(from), msgs, clock));
}

/// A command that is not known is answered to its sender, and to nobody else, as
/// it was typed.
pub proof fn law_unknown_command_is_answered(
    s: ServerView,
    from: u64,
    verb: Seq<char>,
    arg: Seq<char>,
    i: int,
    clock: Clock,
)
    requires
        s.wf(),
        0 <= i < s.clients.len(),
        !verb.contains(' '),
        text::lower(verb) != "help"@ && text::lower(verb) != "maps"@ && text::lower(verb)
            != "rotation"@ && text::lower(verb) != "next"@ && text::lower(verb) != "vote"@,
    ensures
        s.commanded(from, verb + seq![' '] + arg, clock) == s.commanded(from, verb, clock),
        hearing::hears(
            s,
            s.commanded(from, verb, clock),
            s.clients[i].addr,
            if s.clients[i].addr == from {
                seq![line_of("Unknown command !"@ + verb + "; try !help"@)]
            } else {
                Seq::empty()
            },
            clock,
        ),
{
    text_laws::law_split_joins_back(verb, ' ', arg);
    vote_laws::lemma_answered(
        s,
        from,
        seq![line_of("Unknown command !"@ + verb + "; try !help"@)],
        i,
        clock,
    );
}

/// How many of the first `k` entries the fragment `part` names.
pub open spec fn named(s: ServerView, part: Seq<char>, k: int) -> nat
    decreases k,
{
    if k <= 0 {
        0
    } else {
        named(s, part, k - 1) + if vote_laws::named_by(s, k - 1, part) {
            1nat
        } else {
            0nat
        }
    }
}

proof fn lemma_named(s: ServerView, part: Seq<char>, k: int)
    ensures
        s.matching(part, k).len() == named(s, part, k),
    decreases k,
{
    if k > 0 {
        lemma_named(s, part, k - 1);
        assert(s.maps[k - 1].label() =~= vote_laws::labelled(s, k - 1));
    }
}

/// A vote that picks nothing is answered to its sender, and to nobody else, with
/// why: the track is next already, there is no entry of that number, or no one
/// entry that the fragment names.
pub proof fn law_idle_vote_is_answered(
    s: ServerView,
    from: u64,
    target: Seq<char>,
    n: nat,
    i: int,
    clock: Clock,
)
    requires
        s.wf(),
        0 <= i < s.clients.len(),
        target.len() > 0,
    ensures
        ({
            let heard = |answer: Seq<char>|
                hearing::hears(
                    s,
                    s.voted(from, target, clock),
                    s.clients[i].addr,
                    if s.clients[i].addr == from {
                        seq![line_of(answer)]
                    } else {
                        Seq::empty()
                    },
                    clock,
                );
            let shown = text::debug_form(text::lower(target));
            let matches = named(s, target, s.maps.len() as int);
            &&& !s.racing && s.find_map(target) == Ok::<int, Seq<char>>(s.map_index) ==> heard(
                vote_laws::labelled(s, s.map_index) + " is already next"@,
            )
            &&& text::number(target, usize::MAX as nat) == Some(n) && !(1 <= n <= s.maps.len())
                ==> heard("No map number "@ + text::decimal(n) + "; see !maps"@)
            &&& text::number(target, usize::MAX as nat) is None && matches == 0 ==> heard(
                "No map matches "@ + shown + "; see !maps"@,
            )
            &&& text::number(target, usize::MAX as nat) is None && matches > 1 ==> heard(
                text::decimal(matches) + " maps match "@ + shown
                    + "; vote by number, see !maps"@,
            )
        }),
{
    let shown = text::debug_form(text::lower(target));
    let matches = named(s, target, s.maps.len() as int);
    lemma_named(s, target, s.maps.len() as int);
    assert(s.maps[s.map_index].label() =~= vote_laws::labelled(s, s.map_index));
    vote_laws::lemma_answered(
        s,
        from,
        seq![line_of(vote_laws::labelled(s, s.map_index) + " is already next"@)],
        i,
        clock,
    );
    vote_laws::lemma_answered(
        s,
        from,
        seq![line_of("No map number "@ + text::decimal(n) + "; see !maps"@)],
        i,
        clock,
    );
    vote_laws::lemma_answered(
        s,
        from,
        seq![line_of("No map matches "@ + shown + "; see !maps"@)],
        i,
        clock,
    );
    vote_laws::lemma_answered(
        s,
        from,
        seq![
            line_of(
                text::decimal(matches) + " maps match "@ + shown
                    + "; vote by number, see !maps"@,
            ),
        ],
        i,
        clock,
    );
}

} // verus!
