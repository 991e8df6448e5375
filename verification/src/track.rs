//! Raceable scenes: the tables they are looked up in, and where cars stand.
//!
//! A table holds one block per scene variant: a header line `name Variant
//! count`, then that many rows. The poses in the rows are decimal fractions,
//! which the caller reads.

use vstd::prelude::*;

use crate::messages::Pose;
use crate::text;
use crate::text::{
    chars_of, parse_number, push_chars, push_text, same, split_lines, split_once, split_words,
    string_of, to_lower,
};

verus! {

// ---------------------------------------------------------------------------
// Variants
// ---------------------------------------------------------------------------

/// How many variants a scene can have.
pub const VARIANTS: u32 = 5;

/// A variant's name; the wire value is the 1-based position in the game's
/// `VariantName` enum.
pub open spec fn variant_text(variant: u32) -> Seq<char> {
    if variant == 1 {
        "Default"@
    } else if variant == 2 {
        "Reverse"@
    } else if variant == 3 {
        "Alternative"@
    } else if variant == 4 {
        "TimeAttack"@
    } else {
        "TimeAttackReverse"@
    }
}

/// A variant's name.
pub fn variant_name(variant: u32) -> (s: &'static str)
    requires
        1 <= variant <= VARIANTS,
    ensures
        s@ == variant_text(variant),
{
    if variant == 1 {
        "Default"
    } else if variant == 2 {
        "Reverse"
    } else if variant == 3 {
        "Alternative"
    } else if variant == 4 {
        "TimeAttack"
    } else {
        "TimeAttackReverse"
    }
}

/// `variant` is the first whose name is `name`, whatever its case.
pub open spec fn names_variant(name: Seq<char>, variant: u32) -> bool {
    &&& 1 <= variant <= VARIANTS
    &&& text::lower(variant_text(variant)) == text::lower(name)
    &&& forall|v: u32|
        1 <= v < variant ==> text::lower(#[trigger] variant_text(v)) != text::lower(name)
}

/// The variant called `name`, whatever its case.
pub fn find_variant(name: &[char]) -> (r: Option<u32>)
    ensures
        match r {
            Some(v) => names_variant(name@, v),
            None => forall|v: u32| !names_variant(name@, v),
        },
{
    let wanted = to_lower(name);
    let mut v: u32 = 1;
    while v <= VARIANTS
        invariant
            1 <= v <= VARIANTS + 1,
            wanted@ == text::lower(name@),
            forall|w: u32| 1 <= w < v ==> text::lower(#[trigger] variant_text(w)) != wanted@,
        decreases VARIANTS + 1 - v,
    {
        let known = to_lower(chars_of(variant_name(v)).as_slice());
        if same(known.as_slice(), wanted.as_slice()) {
            return Some(v);
        }
        v = v + 1;
    }
    None
}

// ---------------------------------------------------------------------------
// Tables
// ---------------------------------------------------------------------------

/// A table's lines.
pub struct Table {
    pub lines: Vec<Vec<char>>,
}

impl View for Table {
    type V = Seq<Seq<char>>;

    open spec fn view(&self) -> Seq<Seq<char>> {
        text::texts(self.lines@)
    }
}

/// `line` heads the block of a scene's variant.
pub open spec fn heads(line: Seq<char>, name: Seq<char>, variant: Seq<char>) -> bool {
    let w = text::words(line);
    w.len() >= 2 && w[0] == name && w[1] == variant
}

/// The first line that heads the block of a scene's variant; the number of
/// lines where there is none.
pub open spec fn header_at(lines: Seq<Seq<char>>, name: Seq<char>, variant: Seq<char>) -> int
    decreases lines.len(),
{
    if lines.len() == 0 || heads(lines[0], name, variant) {
        0
    } else {
        1 + header_at(lines.skip(1), name, variant)
    }
}

/// The rows announced by the header of a scene's variant, and those that are
/// there; `None` without a header, or without a number in it.
pub open spec fn block(lines: Seq<Seq<char>>, name: Seq<char>, variant: Seq<char>) -> Option<
    (nat, Seq<Seq<char>>),
> {
    let h = header_at(lines, name, variant);
    if h >= lines.len() {
        None
    } else {
        let w = text::words(lines[h]);
        if w.len() < 3 {
            None
        } else {
            match text::number(w[2], usize::MAX as nat) {
                None => None,
                Some(count) => Some(
                    (
                        count,
                        if count <= lines.len() - h - 1 {
                            lines.subrange(h + 1, h + 1 + count)
                        } else {
                            lines.skip(h + 1)
                        },
                    ),
                ),
            }
        }
    }
}

/// The texts of `v`.
pub open spec fn strings(v: Seq<String>) -> Seq<Seq<char>> {
    v.map_values(|s: String| s@)
}

/// `name:variant` of a header line, as a track is picked; nothing for a row.
pub open spec fn listed(line: Seq<char>) -> Option<Seq<char>> {
    let w = text::words(line);
    if line.len() > 0 && is_letter(line[0]) && w.len() >= 2 {
        Some(w[0] + ":"@ + text::lower(w[1]))
    } else {
        None
    }
}

pub open spec fn is_letter(c: char) -> bool {
    'a' <= c <= 'z' || 'A' <= c <= 'Z'
}

/// Every `name:variant` the lines list, in order.
pub open spec fn all_listed(lines: Seq<Seq<char>>) -> Seq<Seq<char>>
    decreases lines.len(),
{
    if lines.len() == 0 {
        Seq::empty()
    } else {
        match listed(lines.last()) {
            Some(name) => all_listed(lines.drop_last()).push(name),
            None => all_listed(lines.drop_last()),
        }
    }
}

impl Table {
    pub fn new(table: &str) -> (t: Table)
        ensures
            t@ == text::lines(table@),
    {
        Table { lines: split_lines(chars_of(table).as_slice()) }
    }

    /// Every `name:variant` the table knows.
    pub fn names(&self) -> (names: Vec<String>)
        ensures
            strings(names@) == all_listed(self@),
    {
        let mut names: Vec<String> = Vec::new();
        let mut i: usize = 0;
        assert(self@.take(0) =~= Seq::empty());
        assert(strings(names@) =~= all_listed(self@.take(0)));
        while i < self.lines.len()
            invariant
                i <= self.lines@.len(),
                self.lines@.len() == self@.len(),
                strings(names@) == all_listed(self@.take(i as int)),
            decreases self.lines@.len() - i,
        {
            let ghost before = strings(names@);
            let line = self.lines[i].as_slice();
            assert(line@ == self@[i as int]);
            assert(self@.take(i + 1).drop_last() =~= self@.take(i as int));
            if line.len() > 0 && ((line[0] >= 'a' && line[0] <= 'z') || (line[0] >= 'A' && line[0]
                <= 'Z')) {
                let words = split_words(line);
                assert(text::words(line@).len() == words@.len());
                if words.len() >= 2 {
                    assert(text::words(line@)[0] == words@[0]@);
                    assert(text::words(line@)[1] == words@[1]@);
                    let mut name = string_of(words[0].as_slice());
                    push_text(&mut name, ":");
                    push_chars(&mut name, to_lower(words[1].as_slice()).as_slice());
                    let ghost shown = name@;
                    names.push(name);
                    assert(strings(names@) =~= before.push(shown));
                }
            }
            i = i + 1;
        }
        assert(self@.take(i as int) =~= self@);
        names
    }

    /// The index of the first line that heads the block of a scene's variant.
    fn header(&self, name: &[char], variant: &[char]) -> (h: usize)
        ensures
            h == header_at(self@, name@, variant@),
            h <= self.lines@.len(),
            self.lines@.len() == self@.len(),
    {
        let mut h: usize = 0;
        assert(self@.skip(0) =~= self@);
        while h < self.lines.len()
            invariant
                h <= self.lines@.len(),
                self.lines@.len() == self@.len(),
                header_at(self@, name@, variant@) == h + header_at(
                    self@.skip(h as int),
                    name@,
                    variant@,
                ),
            decreases self.lines@.len() - h,
        {
            let line = self.lines[h].as_slice();
            assert(line@ == self@[h as int]);
            assert(self@.skip(h as int)[0] == line@);
            let words = split_words(line);
            assert(text::words(line@).len() == words@.len());
            if words.len() >= 2 {
                assert(text::words(line@)[0] == words@[0]@);
                assert(text::words(line@)[1] == words@[1]@);
                if same(words[0].as_slice(), name) && same(words[1].as_slice(), variant) {
                    return h;
                }
            }
            assert(self@.skip(h as int).skip(1) =~= self@.skip(h + 1));
            h = h + 1;
        }
        assert(self@.skip(h as int) =~= Seq::empty());
        h
    }

    /// The rows announced for a scene's variant, and those that are there.
    pub fn rows(&self, name: &str, variant: u32) -> (r: Option<(usize, Vec<String>)>)
        requires
            1 <= variant <= VARIANTS,
        ensures
            match r {
                Some((count, rows)) => block(self@, name@, variant_text(variant)) == Some(
                    (count as nat, strings(rows@)),
                ),
                None => block(self@, name@, variant_text(variant)) is None,
            },
    {
        let h: usize = self.header(
            chars_of(name).as_slice(),
            chars_of(variant_name(variant)).as_slice(),
        );
        if h == self.lines.len() {
            return None;
        }
        let words = split_words(self.lines[h].as_slice());
        assert(self@[h as int] == self.lines@[h as int]@);
        assert(text::words(self@[h as int]).len() == words@.len());
        if words.len() < 3 {
            return None;
        }
        assert(text::words(self@[h as int])[2] == words@[2]@);
        let count: usize = match parse_number(words[2].as_slice(), usize::MAX as u64) {
            None => return None,
            Some(count) => count as usize,
        };
        let size: usize = self.lines.len();
        let here: usize = if count <= size - h - 1 {
            count
        } else {
            size - h - 1
        };
        let ghost all = self@.subrange(h + 1, h + 1 + here);
        let mut rows: Vec<String> = Vec::new();
        let mut i: usize = 0;
        assert(strings(rows@) =~= all.take(0));
        while i < here
            invariant
                i <= here,
                h + 1 + here <= size,
                size == self.lines@.len(),
                self.lines@.len() == self@.len(),
                all == self@.subrange(h + 1, h + 1 + here),
                strings(rows@) == all.take(i as int),
            decreases here - i,
        {
            let ghost before = strings(rows@);
            let row = string_of(self.lines[h + 1 + i].as_slice());
            let ghost shown = row@;
            assert(shown == all[i as int]);
            rows.push(row);
            assert(strings(rows@) =~= before.push(shown));
            assert(strings(rows@) =~= all.take(i + 1));
            i = i + 1;
        }
        assert(strings(rows@) =~= all);
        assert(here < count ==> all =~= self@.skip(h + 1));
        Some((count, rows))
    }

    /// Look a track up by `name[:variant][@laps]`, the variant in any case.
    /// Slots are handed out in the scene's own spawn-point order, which is also
    /// what a real host appeared to do.
    pub fn load(&self, spec: &str) -> (r: Option<Entry>)
        ensures
            match r {
                Some(e) => looked_up(self@, spec@) == Some(e@),
                None => looked_up(self@, spec@) is None,
            },
    {
        let chars = chars_of(spec);
        let (laps, scene) = match split_once(chars.as_slice(), '@') {
            Some((scene, laps)) => match parse_number(laps, u32::MAX as u64) {
                None => return None,
                Some(n) => {
                    if n == 0 {
                        return None;
                    }
                    (Some(n as u32), scene)
                },
            },
            None => (None, chars.as_slice()),
        };
        assert(spec_parts(spec@) == Some((scene@, laps)));
        let default = chars_of("Default");
        let (name, variant_name) = match split_once(scene, ':') {
            Some((name, variant)) => (name, variant),
            None => (scene, default.as_slice()),
        };
        let variant: u32 = match find_variant(variant_name) {
            None => {
                assert(variant_of(variant_name@) is None);
                return None;
            },
            Some(v) => v,
        };
        proof {
            lemma_one_variant(variant_name@, variant);
        }
        let name = string_of(name);
        match self.rows(name.as_str(), variant) {
            None => None,
            Some((_, rows)) => Some(Entry { name, variant, laps, rows }),
        }
    }
}

/// The variant called `name`, whatever its case.
pub open spec fn variant_of(name: Seq<char>) -> Option<u32> {
    if exists|v: u32| names_variant(name, v) {
        Some(choose|v: u32| names_variant(name, v))
    } else {
        None
    }
}

/// At most one variant is the first of a name.
pub proof fn lemma_one_variant(name: Seq<char>, variant: u32)
    requires
        names_variant(name, variant),
    ensures
        variant_of(name) == Some(variant),
{
    let v = choose|v: u32| names_variant(name, v);
    if v < variant {
        assert(text::lower(variant_text(v)) != text::lower(name));
    } else if variant < v {
        assert(text::lower(variant_text(variant)) != text::lower(name));
    }
}

/// A track's place in a table, and its laps where the pick names them.
pub struct Entry {
    pub name: String,
    pub variant: u32,
    pub laps: Option<u32>,
    pub rows: Vec<String>,
}

/// What an [`Entry`] holds.
#[verifier::ext_equal]
pub struct EntryView {
    pub name: Seq<char>,
    pub variant: u32,
    pub laps: Option<u32>,
    pub rows: Seq<Seq<char>>,
}

impl View for Entry {
    type V = EntryView;

    open spec fn view(&self) -> EntryView {
        EntryView {
            name: self.name@,
            variant: self.variant,
            laps: self.laps,
            rows: strings(self.rows@),
        }
    }
}

/// The scene and the laps of a pick; laps are a positive number behind the
/// first `@`.
pub open spec fn spec_parts(spec: Seq<char>) -> Option<(Seq<char>, Option<u32>)> {
    match text::split_at_first(spec, '@') {
        None => Some((spec, None)),
        Some((scene, laps)) => match text::number(laps, u32::MAX as nat) {
            None => None,
            Some(n) => if n == 0 {
                None
            } else {
                Some((scene, Some(n as u32)))
            },
        },
    }
}

/// What the pick `spec` finds in a table.
pub open spec fn looked_up(lines: Seq<Seq<char>>, spec: Seq<char>) -> Option<EntryView> {
    match spec_parts(spec) {
        None => None,
        Some((scene, laps)) => {
            let (name, variant_name) = match text::split_at_first(scene, ':') {
                Some(parts) => parts,
                None => (scene, "Default"@),
            };
            match variant_of(variant_name) {
                None => None,
                Some(variant) => match block(lines, name, variant_text(variant)) {
                    None => None,
                    Some((_, rows)) => Some(EntryView { name, variant, laps, rows }),
                },
            }
        },
    }
}

// ---------------------------------------------------------------------------
// Tracks
// ---------------------------------------------------------------------------

/// Off-grid parking poses of a scene variant.
pub struct Parking {
    /// How many poses there should be.
    pub count: usize,
    pub poses: Vec<Pose>,
}

/// A raceable scene variant, where its cars start, and how long its race is.
pub struct Track {
    pub name: String,
    /// 1-based position of the variant.
    pub variant: u32,
    pub spawns: Vec<Pose>,
    /// Laps for this entry of the rotation; `None` takes the server default.
    pub laps: Option<u32>,
    /// Where the phantom host parks, one pose per grid slot.
    pub parking: Option<Parking>,
}

/// What a [`Track`] holds; parking as the number of poses there should be, and
/// the poses.
#[verifier::ext_equal]
pub struct TrackView {
    pub name: Seq<char>,
    pub variant: u32,
    pub spawns: Seq<Pose>,
    pub laps: Option<u32>,
    pub parking: Option<(nat, Seq<Pose>)>,
}

impl View for Track {
    type V = TrackView;

    open spec fn view(&self) -> TrackView {
        TrackView {
            name: self.name@,
            variant: self.variant,
            spawns: self.spawns@,
            laps: self.laps,
            parking: match self.parking {
                Some(p) => Some((p.count as nat, p.poses@)),
                None => None,
            },
        }
    }
}

impl TrackView {
    /// A real variant, with a grid, and with at least one place in a car park.
    pub open spec fn wf(self) -> bool {
        &&& 1 <= self.variant <= VARIANTS
        &&& self.spawns.len() > 0
        &&& self.parking matches Some((count, _)) ==> count > 0
    }

    /// `name | Variant`, the way the game's chat line names a track.
    pub open spec fn label(self) -> Seq<char> {
        self.name + " | "@ + variant_text(self.variant)
    }

    /// A lobby larger than the grid wraps onto the first points.
    pub open spec fn grid_pose(self, slot: nat) -> Pose {
        self.spawns[(slot % self.spawns.len()) as int]
    }

    /// Where the phantom host parks when `slot` cars race; wraps like the grid.
    pub open spec fn parking_pose(self, slot: nat) -> Option<Pose> {
        match self.parking {
            None => None,
            Some((count, poses)) => {
                let i = (slot % count) as int;
                if i < poses.len() {
                    Some(poses[i])
                } else {
                    None
                }
            },
        }
    }
}

impl Track {
    /// `name | Variant`, the way the game's chat line names a track.
    pub fn label(&self) -> (s: String)
        requires
            self@.wf(),
        ensures
            s@ == self@.label(),
    {
        let mut s = String::new();
        push_text(&mut s, self.name.as_str());
        push_text(&mut s, " | ");
        push_text(&mut s, variant_name(self.variant));
        assert(s@ =~= self@.label());
        s
    }

    /// A lobby larger than the grid wraps onto the first points; the game
    /// itself caps lobbies per map.
    pub fn grid_pose(&self, slot: usize) -> (p: Pose)
        requires
            self@.wf(),
        ensures
            p == self@.grid_pose(slot as nat),
    {
        self.spawns[slot % self.spawns.len()]
    }

    /// Where the phantom host parks when `slot` cars race: an off-road shoulder
    /// pose at normal height, or nothing when the scene has no computed
    /// shoulder.
    pub fn parking_pose(&self, slot: usize) -> (p: Option<Pose>)
        requires
            self@.wf(),
        ensures
            p == self@.parking_pose(slot as nat),
    {
        match &self.parking {
            None => None,
            Some(parking) => {
                let i: usize = slot % parking.count;
                if i < parking.poses.len() {
                    Some(parking.poses[i])
                } else {
                    None
                }
            },
        }
    }
}

// ---------------------------------------------------------------------------
// Laws
// ---------------------------------------------------------------------------

/// Grids and car parks wrap: as many slots further stands the same pose.
pub proof fn law_poses_wrap(t: TrackView, slot: nat)
    requires
        t.wf(),
    ensures
        t.grid_pose(slot + t.spawns.len()) == t.grid_pose(slot),
        t.parking matches Some((count, _)) ==> t.parking_pose(slot + count) == t.parking_pose(slot),
{
    vstd::arithmetic::div_mod::lemma_mod_add_multiples_vanish(slot as int, t.spawns.len() as int);
    if let Some((count, _)) = t.parking {
        vstd::arithmetic::div_mod::lemma_mod_add_multiples_vanish(slot as int, count as int);
    }
}

/// A variant is found by its name in small letters, and no other is.
pub proof fn law_variant_names_are_found(variant: u32)
    requires
        1 <= variant <= VARIANTS,
    ensures
        variant_of(text::lower(variant_text(variant))) == Some(variant),
        variant_of(variant_text(variant)) == Some(variant),
{
    lemma_variant_letters(variant);
    let name = variant_text(variant);
    let small = text::lower(name);
    assert(text::lower(small) =~= small);
    assert forall|v: u32| 1 <= v < variant implies text::lower(#[trigger] variant_text(v)) != small by {
        lemma_variant_letters(v);
        assert(text::lower(variant_text(v)).len() == variant_text(v).len());
        assert(text::lower(variant_text(v))[0] == text::lower_char(variant_text(v)[0]));
        assert(small[0] == text::lower_char(name[0]));
    }
    assert(names_variant(small, variant));
    assert(names_variant(name, variant));
    lemma_one_variant(small, variant);
    lemma_one_variant(name, variant);
}

proof fn lemma_variant_letters(v: u32)
    requires
        1 <= v <= VARIANTS,
    ensures
        forall|i: int|
            0 <= i < variant_text(v).len() ==> is_letter(#[trigger] variant_text(v)[i]),
        v == 1 ==> variant_text(v).len() == 7 && variant_text(v)[0] == 'D',
        v == 2 ==> variant_text(v).len() == 7 && variant_text(v)[0] == 'R',
        v == 3 ==> variant_text(v).len() == 11,
        v == 4 ==> variant_text(v).len() == 10,
        v == 5 ==> variant_text(v).len() == 17,
{
    reveal_strlit("Default");
    reveal_strlit("Reverse");
    reveal_strlit("Alternative");
    reveal_strlit("TimeAttack");
    reveal_strlit("TimeAttackReverse");
}

/// Every `name:variant` that a table lists can be picked by that name, and
/// finds the rows behind the first header that carries it.
pub proof fn law_listed_track_loads(lines: Seq<Seq<char>>, i: int, variant: u32)
    requires
        0 <= i < lines.len(),
        1 <= variant <= VARIANTS,
        listed(lines[i]) is Some,
        text::words(lines[i])[1] == variant_text(variant),
        forall|k: int|
            0 <= k < text::words(lines[i])[0].len() ==> (#[trigger] text::words(lines[i])[0][k])
                != ':' && text::words(lines[i])[0][k] != '@',
        block(lines, text::words(lines[i])[0], variant_text(variant)) is Some,
    ensures
        all_listed(lines).contains(listed(lines[i])->Some_0),
        looked_up(lines, listed(lines[i])->Some_0) == Some(
            EntryView {
                name: text::words(lines[i])[0],
                variant,
                laps: None,
                rows: block(
                    lines,
                    text::words(lines[i])[0],
                    variant_text(variant),
                )->Some_0.1,
            },
        ),
{
    lemma_listed_is_kept(lines, i);
    let name = text::words(lines[i])[0];
    let small = text::lower(variant_text(variant));
    let pick = listed(lines[i])->Some_0;
    reveal_strlit(":");
    lemma_variant_letters(variant);
    assert(pick =~= name + seq![':'] + small);
    assert forall|k: int| 0 <= k < small.len() implies small[k] != ':' && small[k] != '@' by {
        assert(is_letter(variant_text(variant)[k]));
    }
    text::lemma_place(pick, '@');
    assert(forall|k: int| 0 <= k < name.len() ==> pick[k] == name[k]);
    assert(pick[name.len() as int] == ':');
    assert(forall|k: int|
        name.len() < k < pick.len() ==> #[trigger] pick[k] == small[k - name.len() - 1]);
    assert(text::place(pick, '@') == pick.len());
    text::lemma_place(pick, ':');
    assert(text::place(pick, ':') == name.len());
    assert(pick.take(name.len() as int) =~= name);
    assert(pick.skip(name.len() as int + 1) =~= small);
    law_variant_names_are_found(variant);
}

proof fn lemma_listed_is_kept(lines: Seq<Seq<char>>, i: int)
    requires
        0 <= i < lines.len(),
        listed(lines[i]) is Some,
    ensures
        all_listed(lines).contains(listed(lines[i])->Some_0),
    decreases lines.len(),
{
    let name = listed(lines[i])->Some_0;
    if i == lines.len() - 1 {
        let all = all_listed(lines);
        assert(all[all.len() - 1] == name);
    } else {
        lemma_listed_is_kept(lines.drop_last(), i);
        let init = all_listed(lines.drop_last());
        let k = choose|k: int| 0 <= k < init.len() && init[k] == name;
        assert(all_listed(lines)[k] == name);
    }
}

/// The first cars stand on the grid's own points, in order, and so do parked
/// ones on theirs.
pub proof fn law_first_slots_are_the_points(t: TrackView, slot: nat)
    requires
        t.wf(),
    ensures
        slot < t.spawns.len() ==> t.grid_pose(slot) == t.spawns[slot as int],
        t.parking matches Some((count, poses)) ==> (slot < count && slot < poses.len()
            ==> t.parking_pose(slot) == Some(poses[slot as int])),
        t.parking is None ==> t.parking_pose(slot) is None,
{
    if slot < t.spawns.len() {
        vstd::arithmetic::div_mod::lemma_small_mod(slot, t.spawns.len());
    }
    if let Some((count, poses)) = t.parking {
        if slot < count {
            vstd::arithmetic::div_mod::lemma_small_mod(slot, count);
        }
    }
}

proof fn lemma_header(lines: Seq<Seq<char>>, name: Seq<char>, variant: Seq<char>)
    ensures
        0 <= header_at(lines, name, variant) <= lines.len(),
        header_at(lines, name, variant) < lines.len() ==> heads(
            lines[header_at(lines, name, variant)],
            name,
            variant,
        ),
        forall|i: int|
            0 <= i < header_at(lines, name, variant) ==> !heads(#[trigger] lines[i], name, variant),
    decreases lines.len(),
{
    if lines.len() > 0 && !heads(lines[0], name, variant) {
        let rest = lines.skip(1);
        lemma_header(rest, name, variant);
        let h = header_at(rest, name, variant);
        assert forall|i: int| 0 <= i < 1 + h implies !heads(#[trigger] lines[i], name, variant) by {
            if i > 0 {
                assert(rest[i - 1] == lines[i]);
            }
        }
        if h < rest.len() {
            assert(rest[h] == lines[1 + h]);
        }
    }
}

/// A track's rows are the lines right behind the first header of its name and
/// variant, as many as the header says, or as there are.
pub proof fn law_rows_are_behind_their_header(
    lines: Seq<Seq<char>>,
    name: Seq<char>,
    variant: Seq<char>,
    h: int,
    count: nat,
)
    requires
        0 <= h < lines.len(),
        text::words(lines[h]).len() >= 3,
        text::words(lines[h])[0] == name,
        text::words(lines[h])[1] == variant,
        text::words(lines[h])[2] == text::decimal(count),
        count <= usize::MAX,
        forall|i: int|
            0 <= i < h ==> !(text::words(#[trigger] lines[i]).len() >= 2 && text::words(lines[i])[0]
                == name && text::words(lines[i])[1] == variant),
    ensures
        ({
            let left = lines.len() - h - 1;
            &&& block(lines, name, variant) is Some
            &&& block(lines, name, variant)->Some_0.0 == count
            &&& block(lines, name, variant)->Some_0.1.len() == if count <= left {
                count as int
            } else {
                left
            }
            &&& forall|k: int|
                0 <= k < block(lines, name, variant)->Some_0.1.len() ==> (#[trigger] block(
                    lines,
                    name,
                    variant,
                )->Some_0.1[k]) == lines[h + 1 + k]
        }),
{
    lemma_header(lines, name, variant);
    let at = header_at(lines, name, variant);
    assert(heads(lines[h], name, variant));
    if at < h {
        assert(heads(lines[at], name, variant));
    }
    assert(at == h);
    text::law_decimal_reads_back(count, usize::MAX as nat);
}

/// Laps behind an `@` are those of the pick; without one the pick has none, and
/// no laps are no pick.
pub proof fn law_laps_are_behind_the_at_sign(scene: Seq<char>, n: nat)
    requires
        forall|i: int| 0 <= i < scene.len() ==> (#[trigger] scene[i]) != '@',
        n <= u32::MAX,
    ensures
        spec_parts(scene) == Some((scene, None::<u32>)),
        spec_parts(scene + seq!['@'] + text::decimal(n)) == if n == 0 {
            None
        } else {
            Some((scene, Some(n as u32)))
        },
{
    let pick = scene + seq!['@'] + text::decimal(n);
    let k = scene.len() as int;
    text::lemma_place(scene, '@');
    text::lemma_place(pick, '@');
    if text::place(scene, '@') < k {
        assert(scene[text::place(scene, '@')] == '@');
    }
    assert(pick[k] == '@');
    assert(forall|i: int| 0 <= i < k ==> pick[i] == scene[i]);
    if text::place(pick, '@') < k {
        assert(scene[text::place(pick, '@')] == '@');
    }
    assert(text::place(pick, '@') == k);
    assert(pick.take(k) =~= scene);
    assert(pick.skip(k + 1) =~= text::decimal(n));
    text::law_decimal_reads_back(n, u32::MAX as nat);
}

/// The variants by the number they travel under.
pub proof fn law_variants_are_numbered(variant: u32)
    requires
        1 <= variant <= 5,
    ensures
        variant_text(variant) == (if variant == 1 {
            "Default"@
        } else if variant == 2 {
            "Reverse"@
        } else if variant == 3 {
            "Alternative"@
        } else if variant == 4 {
            "TimeAttack"@
        } else {
            "TimeAttackReverse"@
        }),
        variant_of(text::lower(variant_text(variant))) == Some(variant),
{
    law_variant_names_are_found(variant);
}

/// A pick without a variant is the scene's default; laps behind it change nothing
/// but the laps.
pub proof fn law_pick_without_variant_is_the_default(
    lines: Seq<Seq<char>>,
    scene: Seq<char>,
    variant: Seq<char>,
    laps: nat,
)
    requires
        !scene.contains(':'),
        !scene.contains('@'),
        !variant.contains('@'),
        0 < laps <= u32::MAX,
    ensures
        looked_up(lines, scene) == looked_up(lines, scene + seq![':'] + "default"@),
        looked_up(lines, scene + seq![':'] + variant + seq!['@'] + text::decimal(laps)) == (
        match looked_up(lines, scene + seq![':'] + variant) {
            Some(e) => Some(EntryView { laps: Some(laps as u32), ..e }),
            None => None,
        }),
        looked_up(lines, scene) matches Some(e) ==> e.name == scene && e.variant == 1 && e.laps
            is None,
{
    reveal_strlit("Default");
    reveal_strlit("default");
    law_variant_names_are_found(1);
    assert(text::lower("Default"@) =~= "default"@);
    assert(variant_text(1) == "Default"@);
    let small = "default"@;
    assert(!small.contains('@')) by {
        assert(forall|i: int| 0 <= i < small.len() ==> small[i] != '@');
    }
    lemma_no_at(scene, small);
    lemma_no_at(scene, variant);
    crate::text_laws::law_split_joins_back(scene, '@', Seq::empty());
    crate::text_laws::law_split_joins_back(scene, ':', small);
    crate::text_laws::law_split_joins_back(scene, ':', variant);
    let pick = scene + seq![':'] + variant;
    crate::text_laws::law_split_joins_back(pick, '@', Seq::empty());
    crate::text_laws::law_split_joins_back(scene + seq![':'] + small, '@', Seq::empty());
    crate::text_laws::law_split_joins_back(pick, '@', text::decimal(laps));
    text::law_decimal_reads_back(laps, u32::MAX as nat);
}

proof fn lemma_no_at(scene: Seq<char>, variant: Seq<char>)
    requires
        !scene.contains('@'),
        !variant.contains('@'),
    ensures
        !(scene + seq![':'] + variant).contains('@'),
{
    let s = scene + seq![':'] + variant;
    if s.contains('@') {
        let i = choose|i: int| 0 <= i < s.len() && s[i] == '@';
        if i < scene.len() {
            assert(scene[i] == '@');
        } else if i > scene.len() {
            assert(variant[i - scene.len() - 1] == '@');
        }
    }
}

/// A table lists what it heads blocks with, line by line: `name Variant` as
/// `name:variant`; a line that starts with anything but a letter is a row.
pub proof fn law_headers_are_listed_in_order(
    above: Seq<Seq<char>>,
    below: Seq<Seq<char>>,
    name: Seq<char>,
    variant: Seq<char>,
    tail: Seq<char>,
    row: Seq<char>,
)
    requires
        name.len() > 0,
        'a' <= name[0] <= 'z' || 'A' <= name[0] <= 'Z',
        !name.contains(' '),
        !variant.contains(' '),
        row.len() > 0 ==> !('a' <= row[0] <= 'z' || 'A' <= row[0] <= 'Z'),
    ensures
        all_listed(above + below) == all_listed(above) + all_listed(below),
        all_listed(seq![name + seq![' '] + variant + seq![' '] + tail]) == seq![
            name + seq![':'] + text::lower(variant),
        ],
        all_listed(seq![row]) == Seq::<Seq<char>>::empty(),
    decreases below.len(),
{
    let none = Seq::<Seq<char>>::empty();
    assert(all_listed(none) =~= none);
    if below.len() == 0 {
        assert(above + below =~= above);
        assert(all_listed(above) + all_listed(below) =~= all_listed(above));
    } else {
        law_headers_are_listed_in_order(above, below.drop_last(), name, variant, tail, row);
        let all = above + below;
        assert(all.drop_last() =~= above + below.drop_last());
        assert(all.last() == below.last());
        assert(all_listed(all) =~= all_listed(above) + all_listed(below));
    }
    let line = name + seq![' '] + variant + seq![' '] + tail;
    let rest = variant + seq![' '] + tail;
    assert(line =~= name + seq![' '] + rest);
    crate::text_laws::law_split_joins_back(name, ' ', rest);
    crate::text_laws::law_split_joins_back(variant, ' ', tail);
    text::lemma_place(line, ' ');
    text::lemma_place(rest, ' ');
    assert(text::words(line) == seq![name] + text::words(rest));
    assert(text::words(rest) == seq![variant] + text::words(tail));
    assert(text::words(line)[0] == name);
    assert(text::words(line)[1] == variant);
    reveal_strlit(":");
    assert(line[0] == name[0]);
    assert(":"@ =~= seq![':']);
    assert(seq![line].drop_last() =~= none);
    assert(seq![row].drop_last() =~= none);
    assert(all_listed(seq![line]) =~= seq![name + seq![':'] + text::lower(variant)]);
    assert(all_listed(seq![row]) =~= none);
}

} // verus!
