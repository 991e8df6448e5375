//! What reading and cutting up texts amounts to.

use vstd::prelude::*;

use crate::text;

verus! {

/// A number is read digit by digit: one more digit is ten times what was there
/// and the digit, as long as that does not pass `max`; anything else is no
/// number. One `+` may stand in front, and something must follow.
pub proof fn law_numbers_are_read_digit_by_digit(s: Seq<char>, c: char, max: nat)
    requires
        s.len() > 0,
        s != seq!['+'],
    ensures
        text::number(Seq::empty(), max) is None,
        text::number(seq!['+'], max) is None,
        text::number(seq![c], max) == (if 48 <= c as int <= 57 && c as int - 48 <= max {
            Some((c as int - 48) as nat)
        } else {
            None::<nat>
        }),
        text::number(s.push(c), max) == (match text::number(s, max) {
            Some(n) => if 48 <= c as int <= 57 && n * 10 + (c as int - 48) <= max {
                Some((n * 10 + (c as int - 48)) as nat)
            } else {
                None
            },
            None => None,
        }),
        text::number(seq!['+'] + s, max) == (if s[0] == '+' {
            None
        } else {
            text::number(s, max)
        }),
{
    let none = Seq::<char>::empty();
    assert(text::without_plus(none) =~= none);
    assert(text::without_plus(seq!['+']) =~= none);
    let one = seq![c];
    assert(one.drop_last() =~= none);
    assert(text::value(none) == 0);
    assert(one[0] == c);
    if c == '+' {
        assert(one =~= seq!['+']);
    }
    let d = text::without_plus(s);
    let t = text::without_plus(s.push(c));
    if d.len() == 0 {
        assert(s =~= seq!['+']);
    }
    assert(t =~= d.push(c));
    assert(t.drop_last() =~= d);
    assert(t[d.len() as int] == c);
    if text::all_digits(t) {
        assert forall|i: int| 0 <= i < d.len() implies text::is_digit(#[trigger] d[i]) by {
            assert(t[i] == d[i]);
        }
    }
    if text::all_digits(d) && text::is_digit(c) {
        assert forall|i: int| 0 <= i < t.len() implies text::is_digit(#[trigger] t[i]) by {
            if i < d.len() {
                assert(t[i] == d[i]);
            }
        }
    }
    let p = seq!['+'] + s;
    assert(text::without_plus(p) =~= s);
    if s[0] == '+' {
        assert(!text::is_digit(s[0]));
    }
}

/// A hexadecimal digit in small letters, or in capitals.
pub open spec fn nibble(d: int, capital: bool) -> char {
    if d < 10 {
        (48 + d) as char
    } else if capital {
        (55 + d) as char
    } else {
        (87 + d) as char
    }
}

/// Bytes in hexadecimal, the high digit of each first.
pub open spec fn in_hex(raw: Seq<u8>, capital: bool) -> Seq<char> {
    Seq::new(
        2 * raw.len(),
        |i: int|
            if i % 2 == 0 {
                nibble(raw[i / 2] as int / 16, capital)
            } else {
                nibble(raw[i / 2] as int % 16, capital)
            },
    )
}

/// Bytes written in hexadecimal, in small letters or capitals, are read back.
pub proof fn law_hex_reads_back(raw: Seq<u8>, capital: bool)
    ensures
        text::is_hex(in_hex(raw, capital)),
        text::hex_bytes(in_hex(raw, capital)) == raw,
{
    let s = in_hex(raw, capital);
    assert forall|i: int| 0 <= i < raw.len() implies text::hex_pair(
        #[trigger] s[2 * i],
        s[2 * i + 1],
    ) == Some(raw[i]) by {
        let x = raw[i] as int;
        assert((2 * i) % 2 == 0 && (2 * i) / 2 == i);
        assert((2 * i + 1) % 2 == 1 && (2 * i + 1) / 2 == i);
        assert(s[2 * i] == nibble(x / 16, capital));
        assert(s[2 * i + 1] == nibble(x % 16, capital));
        assert(text::hex_value(nibble(x / 16, capital)) == Some((x / 16) as u8));
        assert(text::hex_value(nibble(x % 16, capital)) == Some((x % 16) as u8));
        assert(16 * (x / 16) + x % 16 == x);
    }
    assert(s.len() / 2 == raw.len());
    assert(text::hex_bytes(s) =~= raw);
}

/// Only the capitals of ASCII become small, each its own letter, 32 further on;
/// nothing else changes, and doing it again changes nothing.
pub proof fn law_capitals_become_small(s: Seq<char>)
    ensures
        text::lower(s).len() == s.len(),
        forall|i: int|
            0 <= i < s.len() ==> (#[trigger] text::lower(s)[i]) as int == s[i] as int + (if 65
                <= s[i] as int <= 90 {
                32int
            } else {
                0
            }),
        text::lower(text::lower(s)) == text::lower(s),
{
    assert(text::lower(text::lower(s)) =~= text::lower(s));
}

/// A text is split where a character first stands: the parts joined by it are
/// the text again, and the first part does not hold it.
pub proof fn law_split_joins_back(a: Seq<char>, c: char, b: Seq<char>)
    requires
        !a.contains(c),
    ensures
        text::split_at_first(a + seq![c] + b, c) == Some((a, b)),
        text::split_at_first(a, c) is None,
{
    let s = a + seq![c] + b;
    text::lemma_place(s, c);
    text::lemma_place(a, c);
    let n = a.len() as int;
    assert(s[n] == c);
    assert(forall|i: int| 0 <= i < n ==> s[i] == a[i]);
    if text::place(s, c) < n {
        assert(a[text::place(s, c)] == c);
    }
    if text::place(a, c) < n {
        assert(a[text::place(a, c)] == c);
    }
    assert(s.take(n) =~= a);
    assert(s.skip(n + 1) =~= b);
}

/// What is behind a prefix is the rest, and only a text that starts with it has
/// one; a part occurs wherever something stands before or behind it.
pub proof fn law_prefixes_and_parts(a: Seq<char>, part: Seq<char>, b: Seq<char>, s: Seq<char>)
    ensures
        text::behind(part + b, part) == Some(b),
        text::behind(s, part) matches Some(rest) ==> s == part + rest,
        text::occurs(a + part + b, part),
        text::occurs(s, Seq::empty()),
        s.len() < part.len() ==> !text::occurs(s, part) && text::behind(s, part) is None,
{
    let n = part.len() as int;
    assert((part + b).take(n) =~= part);
    assert((part + b).skip(n) =~= b);
    if let Some(rest) = text::behind(s, part) {
        assert(s =~= part + rest);
    }
    let t = a + part + b;
    let at = a.len() as int;
    assert(t.subrange(at, at + part.len()) =~= part);
    let nothing = Seq::<char>::empty();
    assert(s.subrange(0, 0int + nothing.len()) =~= nothing);
}

} // verus!
