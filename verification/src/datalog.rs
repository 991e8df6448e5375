//! The bridge's data log: one JSON object of strings per line.

use vstd::prelude::*;

use crate::event;
use crate::event::{event_kind, Event};
use crate::player;
use crate::player::{ClientInfo, ClientInfoView};
use crate::text;
use crate::text::{chars_of, push_decimal, push_text};

verus! {

/// The last hexadecimal digit of `c`, in small letters.
pub open spec fn low_hex(c: char) -> char {
    let d = c as int % 16;
    if d < 10 {
        (48 + d) as char
    } else {
        (87 + d) as char
    }
}

/// A character inside a JSON string.
pub open spec fn escape(c: char) -> Seq<char> {
    if c == '"' {
        seq!['\\', '"']
    } else if c == '\\' {
        seq!['\\', '\\']
    } else if c == '\n' {
        seq!['\\', 'n']
    } else if c == '\r' {
        seq!['\\', 'r']
    } else if c == '\t' {
        seq!['\\', 't']
    } else if (c as int) < 0x10 {
        seq!['\\', 'u', '0', '0', '0', low_hex(c)]
    } else if (c as int) < 0x20 {
        seq!['\\', 'u', '0', '0', '1', low_hex(c)]
    } else {
        seq![c]
    }
}

/// A text inside a JSON string.
pub open spec fn escaped(s: Seq<char>) -> Seq<char>
    decreases s.len(),
{
    if s.len() == 0 {
        Seq::empty()
    } else {
        escape(s[0]) + escaped(s.skip(1))
    }
}

fn hex_digit(c: char) -> (d: char)
    requires
        (c as u32) < 0x20,
    ensures
        d == low_hex(c),
{
    let d: u8 = (c as u8) % 16;
    if d < 10 {
        (48 + d) as char
    } else {
        (87 + d) as char
    }
}

fn push_escaped_char(out: &mut String, c: char)
    ensures
        final(out)@ == old(out)@ + escape(c),
{
    if c == '"' || c == '\\' {
        out.push('\\');
        out.push(c);
    } else if c == '\n' {
        out.push('\\');
        out.push('n');
    } else if c == '\r' {
        out.push('\\');
        out.push('r');
    } else if c == '\t' {
        out.push('\\');
        out.push('t');
    } else if (c as u32) < 0x20 {
        out.push('\\');
        out.push('u');
        out.push('0');
        out.push('0');
        out.push(if (c as u32) < 0x10 { '0' } else { '1' });
        out.push(hex_digit(c));
    } else {
        out.push(c);
    }
    assert(out@ =~= old(out)@ + escape(c));
}

/// Append `s` as it stands inside a JSON string.
fn push_escaped(out: &mut String, s: &str)
    ensures
        final(out)@ == old(out)@ + escaped(s@),
{
    let chars = chars_of(s);
    let mut i: usize = 0;
    assert(chars@.skip(0) =~= s@);
    assert(old(out)@ + escaped(s@) =~= out@ + escaped(s@));
    while i < chars.len()
        invariant
            i <= chars@.len(),
            chars@ == s@,
            old(out)@ + escaped(s@) == out@ + escaped(s@.skip(i as int)),
        decreases chars@.len() - i,
    {
        let ghost before = out@;
        push_escaped_char(out, chars[i]);
        assert(s@.skip(i as int).skip(1) =~= s@.skip(i + 1));
        assert(before + escaped(s@.skip(i as int)) =~= out@ + escaped(s@.skip(i + 1)));
        i = i + 1;
    }
    assert(s@.skip(i as int) =~= Seq::empty());
    assert(out@ =~= old(out)@ + escaped(s@));
}

/// `s` as it stands inside a JSON string.
pub fn json_escape(s: &str) -> (out: String)
    ensures
        out@ == escaped(s@),
{
    let mut out = String::new();
    push_escaped(&mut out, s);
    assert(out@ =~= escaped(s@));
    out
}

/// One member of a JSON object.
pub open spec fn member(key: Seq<char>, value: Seq<char>) -> Seq<char> {
    "\""@ + key + "\":\""@ + escaped(value) + "\""@
}

/// The members of a JSON object, separated by commas.
pub open spec fn members(pairs: Seq<(Seq<char>, Seq<char>)>) -> Seq<char>
    decreases pairs.len(),
{
    if pairs.len() == 0 {
        Seq::empty()
    } else {
        members(pairs.drop_last()) + (if pairs.len() > 1 {
            ","@
        } else {
            Seq::empty()
        }) + member(pairs.last().0, pairs.last().1)
    }
}

/// A JSON object of strings on a line of its own. Keys are written as they are.
pub open spec fn line_of(pairs: Seq<(Seq<char>, Seq<char>)>) -> Seq<char> {
    "{"@ + members(pairs) + "}\n"@
}

/// Keys and values, by their texts.
pub open spec fn pair_texts(keys: Seq<(&str, String)>) -> Seq<(Seq<char>, Seq<char>)> {
    keys.map_values(|p: (&str, String)| (p.0@, p.1@))
}

/// One line of the data log.
pub fn json_line(keys: &[(&str, String)]) -> (out: String)
    ensures
        out@ == line_of(pair_texts(keys@)),
{
    let ghost pairs = pair_texts(keys@);
    let mut out = String::new();
    push_text(&mut out, "{");
    let mut i: usize = 0;
    assert(pairs.take(0) =~= Seq::empty());
    assert(out@ =~= "{"@ + members(pairs.take(0)));
    while i < keys.len()
        invariant
            i <= keys@.len(),
            pairs == pair_texts(keys@),
            out@ == "{"@ + members(pairs.take(i as int)),
        decreases keys@.len() - i,
    {
        let ghost before = out@;
        if i > 0 {
            push_text(&mut out, ",");
        }
        push_text(&mut out, "\"");
        push_text(&mut out, keys[i].0);
        push_text(&mut out, "\":\"");
        push_escaped(&mut out, keys[i].1.as_str());
        push_text(&mut out, "\"");
        proof {
            let grown = pairs.take(i + 1);
            assert(grown.drop_last() =~= pairs.take(i as int));
            assert(grown.last() == pairs[i as int]);
            assert(pairs[i as int] == (keys@[i as int].0@, keys@[i as int].1@));
            assert(out@ =~= "{"@ + members(grown));
        }
        i = i + 1;
    }
    assert(pairs.take(i as int) =~= pairs);
    push_text(&mut out, "}\n");
    assert(out@ =~= line_of(pairs));
    out
}

/// The log line for a client's identity.
pub open spec fn identity_pairs(ts: u64, peer: u64, info: ClientInfoView) -> Seq<
    (Seq<char>, Seq<char>),
> {
    seq![
        ("ts"@, text::decimal(ts as nat)),
        ("event"@, "client_info"@),
        ("peer"@, text::decimal(peer as nat)),
        ("name"@, info.name),
        ("mods"@, text::decimal(info.trailing as nat)),
    ]
}

/// The identity a payload carries, if it is a well-formed `ClientInfo`.
pub open spec fn identity_in(payload: Seq<u8>) -> Option<ClientInfoView> {
    if event::event_of(payload) == Ok::<Event, crate::error::Error>(Event::ClientInfo) {
        match player::read_client_info(payload) {
            Ok((info, _)) => Some(info),
            Err(_) => None,
        }
    } else {
        None
    }
}

fn decimal_string(n: u64) -> (s: String)
    ensures
        s@ == text::decimal(n as nat),
{
    let mut s = String::new();
    push_decimal(&mut s, n);
    assert(s@ =~= text::decimal(n as nat));
    s
}

fn owned(t: &str) -> (s: String)
    ensures
        s@ == t@,
{
    let mut s = String::new();
    push_text(&mut s, t);
    assert(s@ =~= t@);
    s
}

/// The join handshake carries the player's name and its enabled-mod map: the
/// log line that records both, for a payload passing through at `ts`.
pub fn identity_line(ts: u64, peer: u64, payload: &[u8]) -> (line: Option<String>)
    ensures
        match identity_in(payload@) {
            Some(info) => line is Some && line->Some_0@ == line_of(identity_pairs(ts, peer, info)),
            None => line is None,
        },
{
    match event_kind(payload) {
        Ok(Event::ClientInfo) => {},
        _ => return None,
    }
    let info = match ClientInfo::decode(payload) {
        Ok(info) => info,
        Err(_) => return None,
    };
    let ghost pairs = identity_pairs(ts, peer, info@);
    let keys: [(&str, String); 5] = [
        ("ts", decimal_string(ts)),
        ("event", owned("client_info")),
        ("peer", decimal_string(peer)),
        ("name", info.name),
        ("mods", decimal_string(info.trailing)),
    ];
    assert(pair_texts(keys@) =~= pairs);
    Some(json_line(keys.as_slice()))
}

// ---------------------------------------------------------------------------
// Laws
// ---------------------------------------------------------------------------

/// The value of a hexadecimal digit.
pub open spec fn hex_value(c: char) -> Option<int> {
    if '0' <= c <= '9' {
        Some(c as int - 48)
    } else if 'a' <= c <= 'f' {
        Some(c as int - 87)
    } else if 'A' <= c <= 'F' {
        Some(c as int - 55)
    } else {
        None
    }
}

/// The number that four hexadecimal digits make.
pub open spec fn code_unit(t: Seq<char>) -> Option<int> {
    if t.len() < 4 {
        None
    } else {
        match (hex_value(t[0]), hex_value(t[1]), hex_value(t[2]), hex_value(t[3])) {
            (Some(a), Some(b), Some(c), Some(d)) => Some(a * 4096 + b * 256 + c * 16 + d),
            _ => None,
        }
    }
}

/// The character that a backslash and `c` stand for.
pub open spec fn short_escape(c: char) -> Option<char> {
    if c == '"' || c == '\\' || c == '/' {
        Some(c)
    } else if c == 'b' {
        Some('\u{8}')
    } else if c == 'f' {
        Some('\u{c}')
    } else if c == 'n' {
        Some('\n')
    } else if c == 'r' {
        Some('\r')
    } else if c == 't' {
        Some('\t')
    } else {
        None
    }
}

/// `c` in front of `rest`, if that could be read.
pub open spec fn in_front(c: char, rest: Option<Seq<char>>) -> Option<Seq<char>> {
    match rest {
        Some(rest) => Some(seq![c] + rest),
        None => None,
    }
}

/// What a JSON reader makes of the characters between a string's quotes; `None`
/// where JSON does not allow them. A character beyond four hexadecimal digits
/// is a pair of surrogates.
pub open spec fn unescaped(t: Seq<char>) -> Option<Seq<char>>
    decreases t.len(),
{
    if t.len() == 0 {
        Some(Seq::empty())
    } else if t[0] == '"' || (t[0] as int) < 0x20 {
        None
    } else if t[0] != '\\' {
        in_front(t[0], unescaped(t.skip(1)))
    } else if t.len() < 2 {
        None
    } else if t[1] != 'u' {
        match short_escape(t[1]) {
            Some(c) => in_front(c, unescaped(t.skip(2))),
            None => None,
        }
    } else {
        match code_unit(t.skip(2)) {
            None => None,
            Some(v) => if !(0xd800 <= v < 0xe000) {
                in_front(v as char, unescaped(t.skip(6)))
            } else if v < 0xdc00 && t.len() >= 12 && t[6] == '\\' && t[7] == 'u' {
                match code_unit(t.skip(8)) {
                    Some(w) => if 0xdc00 <= w < 0xe000 {
                        in_front(
                            (0x10000 + (v - 0xd800) * 0x400 + (w - 0xdc00)) as char,
                            unescaped(t.skip(12)),
                        )
                    } else {
                        None
                    },
                    None => None,
                }
            } else {
                None
            },
        }
    }
}

proof fn lemma_escape_is_read(c: char, rest: Seq<char>)
    ensures
        unescaped(escape(c) + rest) == in_front(c, unescaped(rest)),
{
    let t = escape(c) + rest;
    let n = escape(c).len() as int;
    assert(t.skip(n) =~= rest);
    assert(t[0] == escape(c)[0]);
    if n == 6 {
        assert(t[1] == escape(c)[1]);
        let digits = t.skip(2);
        assert(digits[0] == escape(c)[2]);
        assert(digits[1] == escape(c)[3]);
        assert(digits[2] == escape(c)[4]);
        assert(digits[3] == escape(c)[5]);
        assert(code_unit(digits) == Some(c as int));
    } else if n == 2 {
        assert(t[1] == escape(c)[1]);
    }
}

/// Escaping loses nothing: a JSON reader gets back the text that was escaped.
pub proof fn law_escaping_is_undone_by_reading(s: Seq<char>)
    ensures
        unescaped(escaped(s)) == Some(s),
    decreases s.len(),
{
    if s.len() > 0 {
        law_escaping_is_undone_by_reading(s.skip(1));
        lemma_escape_is_read(s[0], escaped(s.skip(1)));
        assert(s =~= seq![s[0]] + s.skip(1));
    }
}

/// No control character gets into an escaped text.
pub proof fn law_escaped_text_has_no_control_character(s: Seq<char>)
    ensures
        forall|i: int| 0 <= i < escaped(s).len() ==> (#[trigger] escaped(s)[i]) as int >= 0x20,
    decreases s.len(),
{
    if s.len() > 0 {
        law_escaped_text_has_no_control_character(s.skip(1));
        let head = escape(s[0]);
        let rest = escaped(s.skip(1));
        assert forall|i: int| 0 <= i < escaped(s).len() implies (#[trigger] escaped(s)[i]) as int
            >= 0x20 by {
            if i < head.len() {
                assert(escaped(s)[i] == head[i]);
            } else {
                assert(escaped(s)[i] == rest[i - head.len()]);
            }
        }
    }
}

/// Only quotes, backslashes and control characters are escaped.
pub proof fn law_plain_text_is_written_as_it_is(s: Seq<char>)
    requires
        forall|i: int|
            0 <= i < s.len() ==> (#[trigger] s[i]) as int >= 0x20 && s[i] != '"' && s[i] != '\\',
    ensures
        escaped(s) == s,
    decreases s.len(),
{
    if s.len() > 0 {
        assert forall|i: int| 0 <= i < s.skip(1).len() implies (#[trigger] s.skip(1)[i]) as int
            >= 0x20 && s.skip(1)[i] != '"' && s.skip(1)[i] != '\\' by {
            assert(s.skip(1)[i] == s[i + 1]);
        }
        law_plain_text_is_written_as_it_is(s.skip(1));
        assert(escaped(s) =~= s);
    }
}

/// The line of an identity: when, that it is one, whose, the name and the number
/// of mods, all of them strings.
pub proof fn law_identity_line_layout(ts: u64, peer: u64, info: ClientInfoView)
    ensures
        line_of(identity_pairs(ts, peer, info)) == "{\"ts\":\""@ + text::decimal(ts as nat)
            + "\",\"event\":\"client_info\",\"peer\":\""@ + text::decimal(peer as nat)
            + "\",\"name\":\""@ + escaped(info.name) + "\",\"mods\":\""@ + text::decimal(
            info.trailing as nat,
        ) + "\"}\n"@,
{
    lemma_keys();
    lemma_decimal_is_plain(ts as nat);
    lemma_decimal_is_plain(peer as nat);
    lemma_decimal_is_plain(info.trailing as nat);
    lemma_client_info_is_plain();
    let t = text::decimal(ts as nat);
    let p = text::decimal(peer as nat);
    let m = text::decimal(info.trailing as nat);
    let all = identity_pairs(ts, peer, info);
    let p4 = all.drop_last();
    let p3 = p4.drop_last();
    let p2 = p3.drop_last();
    let p1 = p2.drop_last();
    assert(p1.drop_last() =~= Seq::empty());
    assert(members(p1.drop_last()) =~= Seq::empty());
    assert(members(p1) =~= member("ts"@, t));
    let a = "{"@ + key("ts"@) + t;
    assert("{"@ + members(p1) =~= a + "\""@);
    lemma_next_member("{"@, members(p1), a, "event"@, "client_info"@);
    let b = a + ("\""@ + ","@ + key("event"@)) + "client_info"@;
    lemma_next_member("{"@, members(p2), b, "peer"@, p);
    let c = b + ("\""@ + ","@ + key("peer"@)) + p;
    lemma_next_member("{"@, members(p3), c, "name"@, info.name);
    let d = c + ("\""@ + ","@ + key("name"@)) + escaped(info.name);
    lemma_next_member("{"@, members(p4), d, "mods"@, m);
    let e = d + ("\""@ + ","@ + key("mods"@)) + m;
    lemma_regroup(a, ("\""@ + ","@ + key("event"@)), "client_info"@, "\""@ + ","@ + key("peer"@));
    lemma_regroup_literal();
    assert(line_of(all) =~= e + ("\""@ + "}\n"@));
}

proof fn lemma_next_member(
    h: Seq<char>,
    ms: Seq<char>,
    x: Seq<char>,
    k: Seq<char>,
    v: Seq<char>,
)
    requires
        h + ms == x + "\""@,
    ensures
        h + (ms + ","@ + member(k, v)) == x + ("\""@ + ","@ + key(k)) + escaped(v) + "\""@,
{
    let q = "\""@;
    assert(h + (ms + ","@ + member(k, v)) =~= (h + ms) + (","@ + member(k, v)));
    assert((x + q) + (","@ + member(k, v)) =~= x + (q + ","@ + key(k)) + escaped(v) + q);
}

proof fn lemma_regroup(a: Seq<char>, b: Seq<char>, c: Seq<char>, d: Seq<char>)
    ensures
        a + b + c + d == a + (b + c + d),
{
    assert(a + b + c + d =~= a + (b + c + d));
}

proof fn lemma_regroup_literal()
    ensures
        ("\""@ + ","@ + key("event"@)) + "client_info"@ + ("\""@ + ","@ + key("peer"@)) == "\""@
            + ","@ + key("event"@) + "client_info"@ + "\""@ + ","@ + key("peer"@),
{
    assert(("\""@ + ","@ + key("event"@)) + "client_info"@ + ("\""@ + ","@ + key("peer"@))
        =~= "\""@ + ","@ + key("event"@) + "client_info"@ + "\""@ + ","@ + key("peer"@));
}

/// A key with its quotes and what follows up to the value.
spec fn key(k: Seq<char>) -> Seq<char> {
    "\""@ + k + "\":\""@
}

proof fn lemma_keys()
    ensures
        "{"@ + key("ts"@) == "{\"ts\":\""@,
        "\""@ + ","@ + key("event"@) + "client_info"@ + "\""@ + ","@ + key("peer"@)
            == "\",\"event\":\"client_info\",\"peer\":\""@,
        "\""@ + ","@ + key("name"@) == "\",\"name\":\""@,
        "\""@ + ","@ + key("mods"@) == "\",\"mods\":\""@,
        "\""@ + "}\n"@ == "\"}\n"@,
{
    reveal_strlit("\"");
    reveal_strlit("\":\"");
    reveal_strlit(",");
    assert("{"@ + key("ts"@) =~= "{\"ts\":\""@) by {
        reveal_strlit("{");
        reveal_strlit("ts");
        reveal_strlit("{\"ts\":\"");
    }
    assert("\""@ + ","@ + key("event"@) + "client_info"@ + "\""@ + ","@ + key("peer"@)
        =~= "\",\"event\":\"client_info\",\"peer\":\""@) by {
        reveal_strlit("event");
        reveal_strlit("client_info");
        reveal_strlit("peer");
        reveal_strlit("\",\"event\":\"client_info\",\"peer\":\"");
    }
    assert("\""@ + ","@ + key("name"@) =~= "\",\"name\":\""@) by {
        reveal_strlit("name");
        reveal_strlit("\",\"name\":\"");
    }
    assert("\""@ + ","@ + key("mods"@) =~= "\",\"mods\":\""@) by {
        reveal_strlit("mods");
        reveal_strlit("\",\"mods\":\"");
    }
    assert("\""@ + "}\n"@ =~= "\"}\n"@) by {
        reveal_strlit("}\n");
        reveal_strlit("\"}\n");
    }
}

proof fn lemma_client_info_is_plain()
    ensures
        escaped("client_info"@) == "client_info"@,
{
    reveal_strlit("client_info");
    law_plain_text_is_written_as_it_is("client_info"@);
}

proof fn lemma_decimal_is_plain(n: nat)
    ensures
        escaped(text::decimal(n)) == text::decimal(n),
{
    text::lemma_decimal(n);
    let d = text::decimal(n);
    assert forall|i: int| 0 <= i < d.len() implies (#[trigger] d[i]) as int >= 0x20 && d[i] != '"'
        && d[i] != '\\' by {
        assert(text::is_digit(d[i]));
    }
    law_plain_text_is_written_as_it_is(d);
}

/// An identity that passes is the one that is logged; other events are not.
pub proof fn law_identities_are_logged(info: ClientInfoView, e: Event, body: Seq<u8>)
    requires
        player::fits(info.name),
    ensures
        identity_in(player::client_info_bytes(info)) == Some(info),
        e != Event::ClientInfo ==> identity_in(crate::le::u32_bytes(e.disc()) + body) is None,
{
    player::law_client_info_round_trips(info);
    event::law_tagged_payload_is_its_event(Event::ClientInfo, player::info_body(info));
    event::law_tagged_payload_is_its_event(e, body);
}

} // verus!
