//! Text as sequences of characters: the few operations chat commands, track
//! tables and log lines need.

use vstd::prelude::*;

verus! {

/// `String::push` appends one character.
pub assume_specification[ String::push ](s: &mut String, c: char)
    ensures
        final(s)@ == old(s)@.push(c),
;

/// The characters of a string.
pub fn chars_of(s: &str) -> (v: Vec<char>)
    ensures
        v@ == s@,
{
    let mut v: Vec<char> = Vec::new();
    for c in it: s.chars()
        invariant
            v@ == s@.take(it.index() as int),
            it.seq() == s@,
    {
        v.push(c);
        assert(v@ =~= s@.take(it.index() + 1));
    }
    assert(s@.take(s@.len() as int) =~= s@);
    v
}

/// The string made of `chars`.
pub fn string_of(chars: &[char]) -> (s: String)
    ensures
        s@ == chars@,
{
    let mut s = String::new();
    push_chars(&mut s, chars);
    assert(s@ =~= chars@);
    s
}

/// Append `chars` to a string.
pub fn push_chars(s: &mut String, chars: &[char])
    ensures
        final(s)@ == old(s)@ + chars@,
{
    let mut i: usize = 0;
    assert(s@ =~= old(s)@ + chars@.take(0));
    while i < chars.len()
        invariant
            i <= chars@.len(),
            s@ == old(s)@ + chars@.take(i as int),
        decreases chars@.len() - i,
    {
        s.push(chars[i]);
        assert(s@ =~= old(s)@ + chars@.take(i + 1));
        i = i + 1;
    }
    assert(chars@.take(i as int) =~= chars@);
}

/// Append `t` to a string.
pub fn push_text(s: &mut String, t: &str)
    ensures
        final(s)@ == old(s)@ + t@,
{
    s.append(t);
    assert(s@ =~= old(s)@ + t@);
}

/// What `str`'s `Debug` shows for a text: in double quotes, with escapes.
pub uninterp spec fn debug_form(s: Seq<char>) -> Seq<char>;

/// `format!("{s:?}")`: the `Debug` form of a text, which depends on the text
/// alone.
#[verifier::external_body]
pub(crate) fn quoted(s: &str) -> (r: String)
    ensures
        r@ == debug_form(s@),
{
    format!("{s:?}")
}

// ---------------------------------------------------------------------------
// Decimal numbers
// ---------------------------------------------------------------------------

/// The digit that stands for `d`.
pub open spec fn digit(d: nat) -> char {
    (48 + d) as char
}

/// `n` in decimal, without leading zeros.
pub open spec fn decimal(n: nat) -> Seq<char>
    decreases n,
{
    if n < 10 {
        seq![digit(n)]
    } else {
        decimal(n / 10).push(digit(n % 10))
    }
}

fn digit_char(d: u64) -> (c: char)
    requires
        d < 10,
    ensures
        c == digit(d as nat),
{
    (48 + d as u8) as char
}

/// Append `n` in decimal.
pub fn push_decimal(s: &mut String, n: u64)
    ensures
        final(s)@ == old(s)@ + decimal(n as nat),
    decreases n,
{
    if n >= 10 {
        push_decimal(s, n / 10);
    }
    s.push(digit_char(n % 10));
    assert(s@ =~= old(s)@ + decimal(n as nat));
}

/// The last `width` digits of `n`, with zeros in front where it has fewer.
pub open spec fn padded(n: nat, width: nat) -> Seq<char>
    decreases width,
{
    if width == 0 {
        Seq::empty()
    } else {
        padded(n / 10, (width - 1) as nat).push(digit(n % 10))
    }
}

/// Append the last `width` digits of `n`.
pub fn push_padded(s: &mut String, n: u64, width: u8)
    ensures
        final(s)@ == old(s)@ + padded(n as nat, width as nat),
    decreases width,
{
    if width > 0 {
        push_padded(s, n / 10, width - 1);
        s.push(digit_char(n % 10));
    }
    assert(s@ =~= old(s)@ + padded(n as nat, width as nat));
}

pub open spec fn is_digit(c: char) -> bool {
    '0' <= c <= '9'
}

/// The number that decimal digits spell.
pub open spec fn value(digits: Seq<char>) -> nat
    decreases digits.len(),
{
    if digits.len() == 0 {
        0
    } else {
        value(digits.drop_last()) * 10 + (digits.last() as nat - 48) as nat
    }
}

/// `s` consists of digits.
pub open spec fn all_digits(s: Seq<char>) -> bool {
    forall|i: int| 0 <= i < s.len() ==> is_digit(#[trigger] s[i])
}

/// `s` without a `+` in front.
pub open spec fn without_plus(s: Seq<char>) -> Seq<char> {
    if s.len() > 0 && s[0] == '+' {
        s.skip(1)
    } else {
        s
    }
}

/// A number up to `max`: digits, which one `+` may precede.
pub open spec fn number(s: Seq<char>, max: nat) -> Option<nat> {
    let digits = without_plus(s);
    if digits.len() > 0 && all_digits(digits) && value(digits) <= max {
        Some(value(digits))
    } else {
        None
    }
}

proof fn lemma_value_grows(digits: Seq<char>, k: int)
    requires
        0 <= k <= digits.len(),
        all_digits(digits),
    ensures
        value(digits.take(k)) <= value(digits),
    decreases digits.len() - k,
{
    if k < digits.len() {
        lemma_value_grows(digits, k + 1);
        assert(digits.take(k + 1).drop_last() =~= digits.take(k));
        assert(is_digit(digits[k]));
    } else {
        assert(digits.take(k) =~= digits);
    }
}

/// Read a number up to `max`.
pub fn parse_number(s: &[char], max: u64) -> (r: Option<u64>)
    ensures
        match r {
            Some(n) => number(s@, max as nat) == Some(n as nat),
            None => number(s@, max as nat) is None,
        },
{
    let from: usize = if s.len() > 0 && s[0] == '+' {
        1
    } else {
        0
    };
    let ghost digits = without_plus(s@);
    assert(digits =~= s@.skip(from as int));
    if s.len() == from {
        return None;
    }
    let mut n: u64 = 0;
    let mut i: usize = from;
    assert(digits.take(0) =~= Seq::empty());
    while i < s.len()
        invariant
            from <= i <= s@.len(),
            from < s@.len(),
            digits == without_plus(s@),
            digits == s@.skip(from as int),
            n == value(digits.take(i - from)),
            n <= max,
            all_digits(digits.take(i - from)),
        decreases s@.len() - i,
    {
        let c = s[i];
        assert(digits[i - from] == c);
        if !(c >= '0' && c <= '9') {
            return None;
        }
        let d: u64 = c as u64 - 48;
        let ghost k = i - from;
        assert(digits.take(k + 1).drop_last() =~= digits.take(k));
        assert(value(digits.take(k + 1)) == n * 10 + d);
        if n as u128 * 10 + d as u128 > max as u128 {
            proof {
                if all_digits(digits) {
                    lemma_value_grows(digits, k + 1);
                }
            }
            return None;
        }
        n = n * 10 + d;
        i = i + 1;
    }
    assert(digits.take(i - from) =~= digits);
    Some(n)
}

// ---------------------------------------------------------------------------
// Hexadecimal literals
// ---------------------------------------------------------------------------

/// The value of a hexadecimal digit.
pub open spec fn hex_value(c: char) -> Option<u8> {
    if '0' <= c <= '9' {
        Some((c as u8 - 48) as u8)
    } else if 'a' <= c <= 'f' {
        Some((c as u8 - 87) as u8)
    } else if 'A' <= c <= 'F' {
        Some((c as u8 - 55) as u8)
    } else {
        None
    }
}

/// The byte two characters spell: two hexadecimal digits, or a `+` and one.
pub open spec fn hex_pair(a: char, b: char) -> Option<u8> {
    match hex_value(b) {
        None => None,
        Some(low) => if a == '+' {
            Some(low)
        } else {
            match hex_value(a) {
                None => None,
                Some(high) => Some((16 * high + low) as u8),
            }
        },
    }
}

/// `s` spells bytes, two characters each.
pub open spec fn is_hex(s: Seq<char>) -> bool {
    &&& s.len() % 2 == 0
    &&& forall|i: int|
        0 <= i < s.len() / 2 ==> hex_pair(#[trigger] s[2 * i], s[2 * i + 1]) is Some
}

/// The bytes that `s` spells.
pub open spec fn hex_bytes(s: Seq<char>) -> Seq<u8> {
    Seq::new(s.len() / 2, |i: int| hex_pair(s[2 * i], s[2 * i + 1])->Some_0)
}

fn hex_digit(c: char) -> (r: Option<u8>)
    ensures
        r == hex_value(c),
{
    if c >= '0' && c <= '9' {
        Some(c as u8 - 48)
    } else if c >= 'a' && c <= 'f' {
        Some(c as u8 - 87)
    } else if c >= 'A' && c <= 'F' {
        Some(c as u8 - 55)
    } else {
        None
    }
}

fn hex_byte(a: char, b: char) -> (r: Option<u8>)
    ensures
        r == hex_pair(a, b),
{
    match hex_digit(b) {
        None => None,
        Some(low) => if a == '+' {
            Some(low)
        } else {
            match hex_digit(a) {
                None => None,
                Some(high) => Some(16 * high + low),
            }
        },
    }
}

/// Decode a hex literal into bytes.
pub fn decode_hex(hex: &str) -> (out: Vec<u8>)
    requires
        is_hex(hex@),
    ensures
        out@ == hex_bytes(hex@),
{
    let s = chars_of(hex);
    let mut out: Vec<u8> = Vec::new();
    let size: usize = s.len();
    let n: usize = size / 2;
    let mut i: usize = 0;
    while i < n
        invariant
            i <= n,
            n == size / 2,
            size == s@.len(),
            s@ == hex@,
            is_hex(hex@),
            out@ == hex_bytes(hex@).take(i as int),
        decreases n - i,
    {
        assert(hex_pair(s@[2 * i as int], s@[2 * i + 1]) is Some);
        match hex_byte(s[2 * i], s[2 * i + 1]) {
            Some(b) => out.push(b),
            None => {},
        }
        assert(out@ =~= hex_bytes(hex@).take(i + 1));
        i = i + 1;
    }
    assert(out@ =~= hex_bytes(hex@));
    out
}

// ---------------------------------------------------------------------------
// Case, blanks, and parts
// ---------------------------------------------------------------------------

/// An ASCII capital as its small letter; any other character as it is.
pub open spec fn lower_char(c: char) -> char {
    if 'A' <= c <= 'Z' {
        (c as u32 + 32) as char
    } else {
        c
    }
}

pub open spec fn lower(s: Seq<char>) -> Seq<char> {
    s.map_values(|c: char| lower_char(c))
}

/// `s` with ASCII capitals made small.
pub fn to_lower(s: &[char]) -> (r: Vec<char>)
    ensures
        r@ == lower(s@),
{
    let mut r: Vec<char> = Vec::new();
    let mut i: usize = 0;
    while i < s.len()
        invariant
            i <= s@.len(),
            r@ == lower(s@.take(i as int)),
        decreases s@.len() - i,
    {
        let c = s[i];
        if c >= 'A' && c <= 'Z' {
            r.push((c as u8 + 32) as char);
        } else {
            r.push(c);
        }
        assert(r@ =~= lower(s@.take(i + 1)));
        i = i + 1;
    }
    assert(s@.take(i as int) =~= s@);
    r
}

/// Unicode's `White_Space` property.
pub open spec fn is_blank(c: char) -> bool {
    let x = c as u32;
    ||| 0x9 <= x <= 0xd
    ||| x == 0x20
    ||| x == 0x85
    ||| x == 0xa0
    ||| x == 0x1680
    ||| 0x2000 <= x <= 0x200a
    ||| x == 0x2028
    ||| x == 0x2029
    ||| x == 0x202f
    ||| x == 0x205f
    ||| x == 0x3000
}

fn blank(c: char) -> (r: bool)
    ensures
        r == is_blank(c),
{
    let x = c as u32;
    (x >= 0x9 && x <= 0xd) || x == 0x20 || x == 0x85 || x == 0xa0 || x == 0x1680 || (x >= 0x2000
        && x <= 0x200a) || x == 0x2028 || x == 0x2029 || x == 0x202f || x == 0x205f || x == 0x3000
}

pub open spec fn trimmed_front(s: Seq<char>) -> Seq<char>
    decreases s.len(),
{
    if s.len() > 0 && is_blank(s[0]) {
        trimmed_front(s.skip(1))
    } else {
        s
    }
}

pub open spec fn trimmed_back(s: Seq<char>) -> Seq<char>
    decreases s.len(),
{
    if s.len() > 0 && is_blank(s.last()) {
        trimmed_back(s.drop_last())
    } else {
        s
    }
}

/// `s` without the blanks at both its ends.
pub open spec fn trimmed(s: Seq<char>) -> Seq<char> {
    trimmed_back(trimmed_front(s))
}

/// `s` without the blanks at both its ends.
pub fn trim(s: &[char]) -> (r: &[char])
    ensures
        r@ == trimmed(s@),
{
    let mut from: usize = 0;
    assert(s@.skip(0) =~= s@);
    while from < s.len() && blank(s[from])
        invariant
            from <= s@.len(),
            trimmed_front(s@.skip(from as int)) == trimmed_front(s@),
        decreases s@.len() - from,
    {
        assert(s@.skip(from as int).skip(1) =~= s@.skip(from + 1));
        from = from + 1;
    }
    let ghost front = s@.skip(from as int);
    assert(trimmed_front(s@) == front);
    let mut to: usize = s.len();
    assert(s@.subrange(from as int, to as int) =~= front);
    while to > from && blank(s[to - 1])
        invariant
            from <= to <= s@.len(),
            trimmed_back(s@.subrange(from as int, to as int)) == trimmed_back(front),
        decreases to,
    {
        assert(s@.subrange(from as int, to as int).drop_last() =~= s@.subrange(
            from as int,
            to - 1,
        ));
        to = to - 1;
    }
    vstd::slice::slice_subrange(s, from, to)
}

/// The first place of `c` in `s`; its length where there is none.
pub open spec fn place(s: Seq<char>, c: char) -> int
    decreases s.len(),
{
    if s.len() == 0 || s[0] == c {
        0
    } else {
        1 + place(s.skip(1), c)
    }
}

/// A first place is inside, holds the character, and has none before it.
pub proof fn lemma_place(s: Seq<char>, c: char)
    ensures
        0 <= place(s, c) <= s.len(),
        place(s, c) < s.len() ==> s[place(s, c)] == c,
        forall|i: int| 0 <= i < place(s, c) ==> s[i] != c,
    decreases s.len(),
{
    if s.len() > 0 && s[0] != c {
        lemma_place(s.skip(1), c);
        let p = place(s.skip(1), c);
        assert forall|i: int| 0 <= i < 1 + p implies s[i] != c by {
            if i > 0 {
                assert(s.skip(1)[i - 1] == s[i]);
            }
        }
        if p < s.skip(1).len() {
            assert(s.skip(1)[p] == s[1 + p]);
        }
    }
}

/// The first place of `c` in `s`; its length where there is none.
pub fn find(s: &[char], c: char) -> (i: usize)
    ensures
        i == place(s@, c),
{
    let mut i: usize = 0;
    assert(s@.skip(0) =~= s@);
    while i < s.len() && s[i] != c
        invariant
            i <= s@.len(),
            place(s@, c) == i + place(s@.skip(i as int), c),
        decreases s@.len() - i,
    {
        assert(s@.skip(i as int).skip(1) =~= s@.skip(i + 1));
        i = i + 1;
    }
    i
}

/// The parts of `s` before and behind the first `c`.
pub open spec fn split_at_first(s: Seq<char>, c: char) -> Option<(Seq<char>, Seq<char>)> {
    let i = place(s, c);
    if i < s.len() {
        Some((s.take(i), s.skip(i + 1)))
    } else {
        None
    }
}

/// The parts of `s` before and behind the first `c`.
pub fn split_once(s: &[char], c: char) -> (r: Option<(&[char], &[char])>)
    ensures
        match r {
            Some((a, b)) => split_at_first(s@, c) == Some((a@, b@)),
            None => split_at_first(s@, c) is None,
        },
{
    proof {
        lemma_place(s@, c);
    }
    let i: usize = find(s, c);
    if i < s.len() {
        let a = vstd::slice::slice_subrange(s, 0, i);
        let b = vstd::slice::slice_subrange(s, i + 1, s.len());
        assert(a@ =~= s@.take(i as int));
        assert(b@ =~= s@.skip(i + 1));
        Some((a, b))
    } else {
        None
    }
}

/// What follows `prefix` in `s`.
pub open spec fn behind(s: Seq<char>, prefix: Seq<char>) -> Option<Seq<char>> {
    if prefix.len() <= s.len() && s.take(prefix.len() as int) == prefix {
        Some(s.skip(prefix.len() as int))
    } else {
        None
    }
}

/// Whether `s` holds `part` from `at` on.
fn matches_at(s: &[char], at: usize, part: &[char]) -> (r: bool)
    requires
        at + part@.len() <= s@.len(),
    ensures
        r == (s@.subrange(at as int, at + part@.len()) == part@),
{
    let ghost here = s@.subrange(at as int, at + part@.len());
    let size: usize = s.len();
    let mut i: usize = 0;
    while i < part.len()
        invariant
            i <= part@.len(),
            at + part@.len() <= size,
            size == s@.len(),
            here == s@.subrange(at as int, at + part@.len()),
            forall|j: int| 0 <= j < i ==> here[j] == part@[j],
        decreases part@.len() - i,
    {
        assert(here[i as int] == s@[at + i]);
        if s[at + i] != part[i] {
            return false;
        }
        i = i + 1;
    }
    assert(here =~= part@);
    true
}

/// What follows `prefix` in `s`.
pub fn strip_prefix<'a>(s: &'a [char], prefix: &[char]) -> (r: Option<&'a [char]>)
    ensures
        match r {
            Some(rest) => behind(s@, prefix@) == Some(rest@),
            None => behind(s@, prefix@) is None,
        },
{
    if prefix.len() > s.len() {
        return None;
    }
    assert(s@.subrange(0, prefix@.len() as int) =~= s@.take(prefix@.len() as int));
    if matches_at(s, 0, prefix) {
        let rest = vstd::slice::slice_subrange(s, prefix.len(), s.len());
        assert(rest@ =~= s@.skip(prefix@.len() as int));
        Some(rest)
    } else {
        None
    }
}

/// `part` occurs in `s`.
pub open spec fn occurs(s: Seq<char>, part: Seq<char>) -> bool {
    exists|at: int|
        0 <= at <= s.len() - part.len() && #[trigger] s.subrange(at, at + part.len()) == part
}

/// Whether `part` occurs in `s`.
pub fn contains(s: &[char], part: &[char]) -> (r: bool)
    ensures
        r == occurs(s@, part@),
{
    if part.len() > s.len() {
        return false;
    }
    let last: usize = s.len() - part.len();
    let mut at: usize = 0;
    while at <= last
        invariant
            last == s@.len() - part@.len(),
            at <= last + 1,
            last < usize::MAX || at <= last,
            forall|i: int| 0 <= i < at ==> #[trigger] s@.subrange(i, i + part@.len()) != part@,
        ensures
            forall|i: int| 0 <= i <= last ==> #[trigger] s@.subrange(i, i + part@.len()) != part@,
        decreases last + 1 - at,
    {
        if matches_at(s, at, part) {
            return true;
        }
        if at == last {
            break;
        }
        at = at + 1;
    }
    false
}

/// Whether two texts are the same.
pub fn same(a: &[char], b: &[char]) -> (r: bool)
    ensures
        r == (a@ == b@),
{
    if a.len() != b.len() {
        return false;
    }
    assert(a@.subrange(0, b@.len() as int) =~= a@);
    matches_at(a, 0, b)
}

// ---------------------------------------------------------------------------
// Lines and words
// ---------------------------------------------------------------------------

/// The texts of `v`.
pub open spec fn texts(v: Seq<Vec<char>>) -> Seq<Seq<char>> {
    v.map_values(|t: Vec<char>| t@)
}

/// A line without the carriage return that ended it.
pub open spec fn without_return(line: Seq<char>) -> Seq<char> {
    if line.len() > 0 && line.last() == '\r' {
        line.drop_last()
    } else {
        line
    }
}

/// The lines of `s`, each ended by a line feed, or a carriage return and a line
/// feed; the last one may lack its end.
pub open spec fn lines(s: Seq<char>) -> Seq<Seq<char>>
    decreases s.len(),
    via lines_decreases
{
    if s.len() == 0 {
        Seq::empty()
    } else if place(s, '\n') == s.len() {
        seq![s]
    } else {
        seq![without_return(s.take(place(s, '\n')))] + lines(s.skip(place(s, '\n') + 1))
    }
}

#[via_fn]
proof fn lines_decreases(s: Seq<char>) {
    lemma_place(s, '\n');
}

/// The lines of `s`.
pub fn split_lines(s: &[char]) -> (r: Vec<Vec<char>>)
    ensures
        texts(r@) == lines(s@),
{
    let mut r: Vec<Vec<char>> = Vec::new();
    let mut at: usize = 0;
    assert(s@.skip(0) =~= s@);
    assert(lines(s@) =~= texts(r@) + lines(s@.skip(0)));
    while at < s.len()
        invariant
            at <= s@.len(),
            lines(s@) == texts(r@) + lines(s@.skip(at as int)),
        decreases s@.len() - at,
    {
        let ghost before = texts(r@);
        let rest = vstd::slice::slice_subrange(s, at, s.len());
        assert(rest@ =~= s@.skip(at as int));
        proof {
            lemma_place(rest@, '\n');
        }
        let i: usize = find(rest, '\n');
        if i == rest.len() {
            r.push(vstd::slice::slice_to_vec(rest));
            assert(texts(r@) =~= before + seq![rest@]);
            assert(s@.skip(s@.len() as int) =~= Seq::empty());
            assert(lines(s@) =~= texts(r@) + lines(s@.skip(s@.len() as int)));
            at = s.len();
        } else {
            let end: usize = if i > 0 && rest[i - 1] == '\r' {
                i - 1
            } else {
                i
            };
            let line = vstd::slice::slice_subrange(rest, 0, end);
            assert(line@ =~= without_return(rest@.take(i as int)));
            r.push(vstd::slice::slice_to_vec(line));
            assert(texts(r@) =~= before.push(line@));
            assert(rest@.skip(i + 1) =~= s@.skip(at + i + 1));
            assert(lines(s@) =~= texts(r@) + lines(s@.skip(at + i + 1)));
            at = at + i + 1;
        }
    }
    assert(s@.skip(at as int) =~= Seq::empty());
    assert(texts(r@) =~= lines(s@));
    r
}

/// The parts of `s` between blanks; a text without blanks is one part.
pub open spec fn words(s: Seq<char>) -> Seq<Seq<char>>
    decreases s.len(),
    via words_decreases
{
    if place(s, ' ') == s.len() {
        seq![s]
    } else {
        seq![s.take(place(s, ' '))] + words(s.skip(place(s, ' ') + 1))
    }
}

#[via_fn]
proof fn words_decreases(s: Seq<char>) {
    lemma_place(s, ' ');
}

/// The parts of `s` between blanks.
pub fn split_words(s: &[char]) -> (r: Vec<Vec<char>>)
    ensures
        texts(r@) == words(s@),
        r@.len() > 0,
{
    let mut r: Vec<Vec<char>> = Vec::new();
    let mut rest = vstd::slice::slice_subrange(s, 0, s.len());
    assert(rest@ =~= s@);
    let mut i: usize = find(rest, ' ');
    proof {
        lemma_place(rest@, ' ');
    }
    assert(words(s@) =~= texts(r@) + words(rest@));
    while i < rest.len()
        invariant
            i == place(rest@, ' '),
            i <= rest@.len(),
            words(s@) == texts(r@) + words(rest@),
        decreases rest@.len(),
    {
        let ghost before = texts(r@);
        let ghost here = rest@;
        let word = vstd::slice::slice_subrange(rest, 0, i);
        assert(word@ =~= rest@.take(i as int));
        r.push(vstd::slice::slice_to_vec(word));
        assert(texts(r@) =~= before.push(word@));
        rest = vstd::slice::slice_subrange(rest, i + 1, rest.len());
        assert(rest@ =~= here.skip(i + 1));
        assert(words(s@) =~= texts(r@) + words(rest@));
        i = find(rest, ' ');
        proof {
            lemma_place(rest@, ' ');
        }
    }
    let ghost before = texts(r@);
    r.push(vstd::slice::slice_to_vec(rest));
    assert(texts(r@) =~= before.push(rest@));
    assert(texts(r@) =~= words(s@));
    r
}

// ---------------------------------------------------------------------------
// Laws
// ---------------------------------------------------------------------------

pub proof fn lemma_decimal(n: nat)
    ensures
        decimal(n).len() > 0,
        all_digits(decimal(n)),
        value(decimal(n)) == n,
    decreases n,
{
    let d = decimal(n);
    if n < 10 {
        assert(d.drop_last() =~= Seq::empty());
        assert(value(d.drop_last()) == 0);
    } else {
        lemma_decimal(n / 10);
        assert(d.drop_last() =~= decimal(n / 10));
        assert forall|i: int| 0 <= i < d.len() implies is_digit(#[trigger] d[i]) by {
            if i < d.len() - 1 {
                assert(d[i] == decimal(n / 10)[i]);
            }
        }
    }
}

/// A number that is written is read back.
pub proof fn law_decimal_reads_back(n: nat, max: nat)
    requires
        n <= max,
    ensures
        number(decimal(n), max) == Some(n),
{
    lemma_decimal(n);
    assert(is_digit(decimal(n)[0]));
    assert(without_plus(decimal(n)) == decimal(n));
}

/// Padding to two or three digits keeps a number that has no more.
pub proof fn law_padded_reads_back(n: nat)
    ensures
        n < 100 ==> padded(n, 2).len() == 2 && all_digits(padded(n, 2)) && value(padded(n, 2)) == n,
        n < 1000 ==> padded(n, 3).len() == 3 && all_digits(padded(n, 3)) && value(padded(n, 3))
            == n,
{
    reveal_with_fuel(padded, 4);
    let one = padded(n, 1);
    let two = padded(n, 2);
    let three = padded(n, 3);
    let x = n % 10;
    let y = n / 10 % 10;
    let z = n / 10 / 10 % 10;
    assert(two =~= seq![digit(y), digit(x)]);
    assert(three =~= seq![digit(z), digit(y), digit(x)]);
    assert(two.drop_last() =~= seq![digit(y)]);
    assert(two.drop_last().drop_last() =~= Seq::empty());
    assert(three.drop_last() =~= seq![digit(z), digit(y)]);
    assert(three.drop_last().drop_last() =~= seq![digit(z)]);
    assert(three.drop_last().drop_last().drop_last() =~= Seq::empty());
    reveal_with_fuel(value, 4);
}

/// `parts` with a `sep` between each two.
pub open spec fn joined_by(parts: Seq<Seq<char>>, sep: char) -> Seq<char>
    decreases parts.len(),
{
    if parts.len() == 0 {
        Seq::empty()
    } else if parts.len() == 1 {
        parts[0]
    } else {
        parts[0] + seq![sep] + joined_by(parts.skip(1), sep)
    }
}

/// Words are what stands between blanks: with the blanks between them they are
/// the text, and none of them holds a blank.
pub proof fn law_words_join_back(s: Seq<char>)
    ensures
        joined_by(words(s), ' ') == s,
        words(s).len() > 0,
        forall|i: int, k: int|
            0 <= i < words(s).len() && 0 <= k < words(s)[i].len() ==> #[trigger] words(s)[i][k]
                != ' ',
    decreases s.len(),
{
    let p = place(s, ' ');
    lemma_place(s, ' ');
    let w = words(s);
    if p < s.len() {
        let rest = s.skip(p + 1);
        law_words_join_back(rest);
        assert(w.skip(1) =~= words(rest));
        assert(w[0] == s.take(p));
        assert(s =~= s.take(p) + seq![' '] + rest);
        assert forall|i: int, k: int| 0 <= i < w.len() && 0 <= k < w[i].len() implies (
        #[trigger] w[i][k]) != ' ' by {
            if i > 0 {
                assert(w[i] == words(rest)[i - 1]);
            }
        }
    } else {
        assert(w =~= seq![s]);
    }
}

/// A text is its first line, up to the line feed, and the lines behind.
pub proof fn law_lines_are_split_at_line_feeds(line: Seq<char>, rest: Seq<char>)
    requires
        forall|i: int| 0 <= i < line.len() ==> (#[trigger] line[i]) != '\n' && line[i] != '\r',
    ensures
        lines(line + seq!['\n'] + rest) == seq![line] + lines(rest),
        lines(line + seq!['\r', '\n'] + rest) == seq![line] + lines(rest),
        line.len() > 0 ==> lines(line) == seq![line],
{
    let n = line.len() as int;
    let a = line + seq!['\n'] + rest;
    lemma_place(a, '\n');
    assert(a[n] == '\n');
    assert(forall|i: int| 0 <= i < n ==> a[i] == line[i]);
    assert(place(a, '\n') == n);
    assert(a.take(n) =~= line);
    assert(a.skip(n + 1) =~= rest);
    assert(without_return(line) == line);
    let b = line + seq!['\r', '\n'] + rest;
    lemma_place(b, '\n');
    assert(b[n] == '\r' && b[n + 1] == '\n');
    assert(forall|i: int| 0 <= i < n ==> b[i] == line[i]);
    assert(place(b, '\n') == n + 1);
    assert(b.take(n + 1) =~= line.push('\r'));
    assert(without_return(line.push('\r')) =~= line);
    assert(b.skip(n + 2) =~= rest);
    lemma_place(line, '\n');
    if n > 0 {
        assert(place(line, '\n') == n);
    }
}

/// Trimming takes the blanks off both ends, and nothing else.
pub proof fn law_trimming_takes_blanks_only(s: Seq<char>)
    ensures
        ({
            let t = trimmed(s);
            &&& t.len() > 0 ==> !is_blank(t[0]) && !is_blank(t.last())
            &&& exists|at: int|
                0 <= at <= s.len() - t.len() && #[trigger] s.subrange(at, at + t.len()) == t && (
                forall|i: int| 0 <= i < at ==> is_blank(#[trigger] s[i])) && (forall|i: int|
                    at + t.len() <= i < s.len() ==> is_blank(#[trigger] s[i]))
        }),
{
    let at = lemma_trimmed_front(s);
    let f = trimmed_front(s);
    let n = lemma_trimmed_back(f);
    let t = trimmed(s);
    assert(s.subrange(at, at + n) =~= t);
    assert forall|i: int| at + n <= i < s.len() implies is_blank(#[trigger] s[i]) by {
        assert(f[i - at] == s[i]);
    }
    if t.len() > 0 {
        assert(t[0] == f[0]);
    }
}

proof fn lemma_trimmed_front(s: Seq<char>) -> (at: int)
    ensures
        0 <= at <= s.len(),
        trimmed_front(s) == s.skip(at),
        forall|i: int| 0 <= i < at ==> is_blank(#[trigger] s[i]),
        at < s.len() ==> !is_blank(s[at]),
    decreases s.len(),
{
    if s.len() > 0 && is_blank(s[0]) {
        let k = lemma_trimmed_front(s.skip(1));
        assert(s.skip(1).skip(k) =~= s.skip(k + 1));
        assert forall|i: int| 0 <= i < k + 1 implies is_blank(#[trigger] s[i]) by {
            if i > 0 {
                assert(s.skip(1)[i - 1] == s[i]);
            }
        }
        if k < s.skip(1).len() {
            assert(s.skip(1)[k] == s[k + 1]);
        }
        k + 1
    } else {
        assert(s.skip(0) =~= s);
        0
    }
}

proof fn lemma_trimmed_back(s: Seq<char>) -> (n: int)
    ensures
        0 <= n <= s.len(),
        trimmed_back(s) == s.take(n),
        forall|i: int| n <= i < s.len() ==> is_blank(#[trigger] s[i]),
        n > 0 ==> !is_blank(s[n - 1]),
    decreases s.len(),
{
    if s.len() > 0 && is_blank(s.last()) {
        let init = s.drop_last();
        let n = lemma_trimmed_back(init);
        assert(init.take(n) =~= s.take(n));
        assert forall|i: int| n <= i < s.len() implies is_blank(#[trigger] s[i]) by {
            if i < init.len() {
                assert(init[i] == s[i]);
            }
        }
        n
    } else {
        assert(s.take(s.len() as int) =~= s);
        s.len() as int
    }
}

} // verus!
