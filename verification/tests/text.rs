//! Text, numbers, hex literals, error texts and the data log.

use beatermp::datalog::{identity_line, json_escape, json_line};
use beatermp::text::{
    chars_of, contains, decode_hex, parse_number, split_lines, split_once, split_words, string_of,
    strip_prefix, to_lower, trim,
};
use beatermp::{decode_chat, encode_chat, parse, ClientInfo, Error, Event, PlayerId};

fn chars(s: &str) -> Vec<char> {
    chars_of(s)
}

fn number(s: &str, max: u64) -> Option<u64> {
    parse_number(&chars(s), max)
}

#[test]
fn numbers_read_like_unsigned_integers() {
    for s in ["0", "7", "+7", "007", "4294967295"] {
        assert_eq!(number(s, u32::MAX as u64), s.parse::<u32>().ok().map(u64::from), "{s}");
    }
    for s in ["", "+", "-1", "++1", "1 ", " 1", "1e3", "4294967296", "99999999999999999999"] {
        assert!(s.parse::<u32>().is_err());
        assert_eq!(number(s, u32::MAX as u64), None, "{s}");
    }
    assert_eq!(number("18446744073709551615", u64::MAX), Some(u64::MAX));
    assert_eq!(number("18446744073709551616", u64::MAX), None);
}

#[test]
fn trimming_takes_unicode_blanks() {
    for s in ["", "  ", " a b ", "\t\r\nx\u{a0}", "\u{3000}y\u{2003}", "z\u{200b}", "\u{85}w\u{1680}"] {
        assert_eq!(string_of(trim(&chars(s))), s.trim(), "{s:?}");
    }
}

#[test]
fn lower_case_is_ascii_only() {
    for s in ["AbZz[@`{", "ÄÖß", "forest_long | TimeAttack"] {
        assert_eq!(string_of(&to_lower(&chars(s))), s.to_ascii_lowercase());
    }
}

#[test]
fn parts_split_as_strings_do() {
    for s in ["", " ", "a", "a b", "a  b c", " lead", "trail "] {
        let ours: Vec<String> = split_words(&chars(s)).iter().map(|w| string_of(w)).collect();
        let std: Vec<&str> = s.split(' ').collect();
        assert_eq!(ours, std, "{s:?}");
        let once = split_once(&chars(s), ' ').map(|(a, b)| (string_of(a), string_of(b)));
        let std = s.split_once(' ').map(|(a, b)| (a.to_string(), b.to_string()));
        assert_eq!(once, std, "{s:?}");
    }
    for s in ["", "\n", "a", "a\n", "a\nb", "a\r\nb\r\n", "\r\n\n", "a\rb\n", "end\r"] {
        let ours: Vec<String> = split_lines(&chars(s)).iter().map(|w| string_of(w)).collect();
        let std: Vec<&str> = s.lines().collect();
        assert_eq!(ours, std, "{s:?}");
    }
}

#[test]
fn prefixes_and_fragments() {
    let s = chars("mja00: !vote 2");
    assert_eq!(strip_prefix(&s, &chars("mja00")).map(string_of), Some(": !vote 2".to_string()));
    assert_eq!(strip_prefix(&s, &chars("mja01")), None);
    assert_eq!(strip_prefix(&chars("ab"), &chars("abc")), None);
    assert_eq!(strip_prefix(&s, &[]).map(string_of), Some("mja00: !vote 2".to_string()));
    for (hay, needle) in [("forest", "rest"), ("forest", "Rest"), ("a", ""), ("", ""), ("", "a"), ("aab", "ab")] {
        assert_eq!(contains(&chars(hay), &chars(needle)), hay.contains(needle), "{hay} {needle}");
    }
}

#[test]
fn hex_literals_decode() {
    assert_eq!(decode_hex(""), Vec::<u8>::new());
    assert_eq!(decode_hex("00ff10aAFf"), [0, 255, 16, 170, 255]);
    // A sign in front of one digit is a number too.
    assert_eq!(decode_hex("+f0a"), [15, 10]);
}

#[test]
fn every_error_says_what_is_wrong() {
    let text = |bytes: &[u8]| parse(bytes).unwrap_err().text();
    assert_eq!(text(&[]), "truncated: wanted 1 bytes at 0, datagram is 0");
    assert_eq!(text(&[2, 1]), "truncated: wanted 4 bytes at 1, datagram is 2");
    assert_eq!(text(&[9, 0]), "unknown envelope kind 9");
    assert_eq!(
        text(&[0, 0xff, 0xff, 0xff, 0xff, 0, 0, 0, 0]),
        "implausible length 4294967295 for payload at 1"
    );
    assert_eq!(
        text(&[0, 0, 0, 0, 0, 0, 0, 0, 0, 1, 0, 0, 0, 0, 0, 0, 0, 0, 0, 0, 0, 0, 7]),
        "bad option tag 7 at 22"
    );
    let chat = |bytes: &[u8]| decode_chat(bytes).unwrap_err();
    assert_eq!(chat(&[1, 0, 0, 0]).text(), "unknown Chat discriminant 1");
    assert_eq!(
        chat(&[0, 0, 0, 0, 1, 0, 0, 0, 0, 0, 0, 0, 0xff]),
        Error::InvalidUtf8 { at: 4 }
    );
    assert_eq!(
        chat(&[0, 0, 0, 0, 1, 0, 0, 0, 0, 0, 0, 0, 0xff]).text(),
        "invalid UTF-8 at 4"
    );
    let unknown = beatermp::event_kind(&[250, 0, 0, 0]).unwrap_err();
    assert_eq!(unknown.text(), "unknown event discriminant 250");
}

#[test]
fn chat_lines_round_trip_in_any_script() {
    for line in ["", "mja00: hi", "jürgen: schön", "車: 🏁"] {
        let payload = encode_chat(line);
        assert_eq!(&payload[..4], [0; 4]);
        assert_eq!(payload.len(), 12 + line.len());
        assert_eq!(decode_chat(&payload).unwrap(), line);
    }
}

#[test]
fn json_strings_are_escaped() {
    assert_eq!(json_escape("plain äß"), "plain äß");
    assert_eq!(json_escape("a\"b\\c"), "a\\\"b\\\\c");
    assert_eq!(json_escape("\n\r\t"), "\\n\\r\\t");
    assert_eq!(json_escape("\u{0}\u{1f}\u{b}\u{7f}"), "\\u0000\\u001f\\u000b\u{7f}");
}

#[test]
fn log_lines_are_objects_of_strings() {
    assert_eq!(json_line(&[]), "{}\n");
    assert_eq!(
        json_line(&[("ts", "17".to_string()), ("name", "My \"Server\"".to_string())]),
        "{\"ts\":\"17\",\"name\":\"My \\\"Server\\\"\"}\n"
    );
}

#[test]
fn identities_are_logged_as_they_pass() {
    let info = ClientInfo {
        name: "mja00".to_string(),
        trailing: 3,
    };
    assert_eq!(
        identity_line(1700, 2, &info.encode()).unwrap(),
        "{\"ts\":\"1700\",\"event\":\"client_info\",\"peer\":\"2\",\"name\":\"mja00\",\"mods\":\"3\"}\n"
    );
    let joined = info.encode_joined(PlayerId::host());
    assert_eq!(identity_line(1700, 2, &joined), None);
    assert_eq!(identity_line(1700, 2, &info.encode()[..20]), None);
    assert_eq!(Event::from_u32(15), Some(Event::ClientInfo));
}
