//! The rotation: what is raced next, and what the players vote for.

use vstd::prelude::*;

use crate::messages::RaceSettings;
use crate::seqs;
use crate::server::client::ClientView;
use crate::server::state::{Server, ServerView};
use crate::text;
use crate::text::{
    chars_of, contains, parse_number, push_decimal, push_text, quoted, string_of, to_lower,
};
use crate::track::{Track, TrackView};

verus! {

impl ServerView {
    /// The track the lobby is on.
    pub open spec fn map(self) -> TrackView {
        self.maps[self.map_index]
    }

    /// Settings for a race on rotation entry `index`.
    pub open spec fn settings_for(self, index: int) -> RaceSettings {
        RaceSettings {
            laps: match self.maps[index].laps {
                Some(laps) => laps,
                None => self.settings.laps,
            },
            ..self.settings
        }
    }

    /// `name | Variant (N laps)`, for chat and logs.
    pub open spec fn describe(self, index: int) -> Seq<char> {
        let laps = self.settings_for(index).laps;
        self.maps[index].label() + " ("@ + text::decimal(laps as nat) + " lap"@ + (if laps == 1 {
            ""@
        } else {
            "s"@
        }) + ")"@
    }

    /// Votes for rotation entry `index` from everyone in the lobby.
    pub open spec fn votes_for(self, index: int) -> nat {
        self.clients.filter(|c: ClientView| c.wants(index)).len()
    }

    /// Rotation entry `index` has the most votes, and more than every entry
    /// before it.
    pub open spec fn leads(self, index: int) -> bool {
        &&& 0 <= index < self.maps.len()
        &&& self.votes_for(index) > 0
        &&& forall|j: int|
            0 <= j < self.maps.len() ==> #[trigger] self.votes_for(j) <= self.votes_for(index)
        &&& forall|j: int| 0 <= j < index ==> #[trigger] self.votes_for(j) < self.votes_for(index)
    }

    /// The rotation entry with the most votes, if anyone voted; a tie goes to
    /// the earlier entry.
    pub open spec fn leader(self) -> Option<int> {
        if exists|i: int| self.leads(i) {
            Some(choose|i: int| self.leads(i))
        } else {
            None
        }
    }

    /// The entry behind the current one.
    pub open spec fn following(self) -> int {
        (self.map_index + 1) % self.maps.len() as int
    }

    /// The rotation entry the next race will run on: the lobby's track, or
    /// during a race whatever its end will switch to.
    pub open spec fn upcoming(self) -> int {
        if !self.racing {
            self.map_index
        } else {
            match self.leader() {
                Some(index) => index,
                None => self.following(),
            }
        }
    }

    /// The first `k` rotation entries whose label holds `part` in any case.
    pub open spec fn matching(self, part: Seq<char>, k: int) -> Seq<int>
        decreases k,
    {
        if k <= 0 {
            Seq::empty()
        } else if text::occurs(text::lower(self.maps[k - 1].label()), text::lower(part)) {
            self.matching(part, k - 1).push(k - 1)
        } else {
            self.matching(part, k - 1)
        }
    }

    /// A rotation entry named by 1-based number or by a unique case-insensitive
    /// fragment of its label, or why there is none; `shown` is the fragment as
    /// it stands in the answer.
    pub open spec fn pick(self, query: Seq<char>, shown: Seq<char>) -> Result<int, Seq<char>> {
        match text::number(query, usize::MAX as nat) {
            Some(n) => if 1 <= n <= self.maps.len() {
                Ok(n - 1)
            } else {
                Err("No map number "@ + text::decimal(n) + "; see !maps"@)
            },
            None => {
                let found = self.matching(query, self.maps.len() as int);
                if found.len() == 1 {
                    Ok(found[0])
                } else if found.len() == 0 {
                    Err("No map matches "@ + shown + "; see !maps"@)
                } else {
                    Err(
                        text::decimal(found.len()) + " maps match "@ + shown
                            + "; vote by number, see !maps"@,
                    )
                }
            },
        }
    }

    /// A rotation entry named by 1-based number or by a unique case-insensitive
    /// fragment of its label, or why there is none.
    pub open spec fn find_map(self, query: Seq<char>) -> Result<int, Seq<char>> {
        self.pick(query, text::debug_form(text::lower(query)))
    }
}

/// At most one entry leads.
pub proof fn lemma_one_leader(s: ServerView, index: int)
    requires
        s.leads(index),
    ensures
        s.leader() == Some(index),
{
    let i = choose|i: int| s.leads(i);
    if i < index {
        assert(s.votes_for(i) < s.votes_for(index));
    } else if index < i {
        assert(s.votes_for(index) < s.votes_for(i));
    }
}

/// Nobody leads where nobody voted.
pub proof fn lemma_no_leader(s: ServerView)
    requires
        forall|i: int| 0 <= i < s.maps.len() ==> #[trigger] s.votes_for(i) == 0,
    ensures
        s.leader() is None,
{
    assert forall|i: int| !s.leads(i) by {
        if s.leads(i) {
            assert(s.votes_for(i) == 0);
        }
    }
}

/// The entries found are in the rotation, and no more than it has.
pub proof fn lemma_matching_is_inside(s: ServerView, part: Seq<char>, k: int)
    requires
        0 <= k,
    ensures
        s.matching(part, k).len() <= k,
        forall|j: int|
            0 <= j < s.matching(part, k).len() ==> 0 <= #[trigger] s.matching(part, k)[j] < k,
    decreases k,
{
    if k > 0 {
        lemma_matching_is_inside(s, part, k - 1);
    }
}

impl Server {
    /// The track the lobby is on.
    pub fn map(&self) -> (t: &Track)
        requires
            self@.rotation_wf(),
        ensures
            t@ == self@.map(),
            t@.wf(),
    {
        assert(self@.maps[self.map_index as int].wf());
        &self.maps[self.map_index]
    }

    /// The track of rotation entry `index`.
    pub fn track(&self, index: usize) -> (t: &Track)
        requires
            self@.rotation_wf(),
            index < self@.maps.len(),
        ensures
            t@ == self@.maps[index as int],
            t@.wf(),
    {
        assert(self@.maps[index as int].wf());
        &self.maps[index]
    }

    /// Settings for a race on rotation entry `index`.
    pub fn settings_for(&self, index: usize) -> (r: RaceSettings)
        requires
            self@.rotation_wf(),
            index < self@.maps.len(),
        ensures
            r == self@.settings_for(index as int),
    {
        let laps: u32 = match self.track(index).laps {
            Some(laps) => laps,
            None => self.settings.laps,
        };
        RaceSettings { laps, night: self.settings.night, rain: self.settings.rain }
    }

    /// `name | Variant (N laps)`, for chat and logs.
    pub fn describe(&self, index: usize) -> (s: String)
        requires
            self@.rotation_wf(),
            index < self@.maps.len(),
        ensures
            s@ == self@.describe(index as int),
    {
        let laps: u32 = self.settings_for(index).laps;
        let mut s = self.track(index).label();
        push_text(&mut s, " (");
        push_decimal(&mut s, laps as u64);
        push_text(&mut s, " lap");
        push_text(&mut s, if laps == 1 { "" } else { "s" });
        push_text(&mut s, ")");
        assert(s@ =~= self@.describe(index as int));
        s
    }

    /// The rotation entry the next race will run on: the lobby's track, or
    /// during a race whatever its end will switch to.
    pub fn upcoming(&self) -> (index: usize)
        requires
            self@.wf(),
        ensures
            index == self@.upcoming(),
            index < self@.maps.len(),
    {
        assert(self.maps@.len() == self@.maps.len());
        if !self.racing {
            return self.map_index;
        }
        match self.vote_leader() {
            Some((index, _)) => index,
            None => self.following(),
        }
    }

    /// The entry behind the current one.
    pub fn following(&self) -> (index: usize)
        requires
            self@.rotation_wf(),
        ensures
            index == self@.following(),
            index < self@.maps.len(),
    {
        assert(self.maps@.len() == self@.maps.len());
        (self.map_index + 1) % self.maps.len()
    }

    /// Votes for rotation entry `index` from everyone in the lobby.
    pub fn votes_for(&self, index: usize) -> (n: usize)
        ensures
            n == self@.votes_for(index as int),
    {
        let ghost wants = |c: ClientView| c.wants(index as int);
        let mut n: usize = 0;
        let mut i: usize = 0;
        proof {
            seqs::lemma_filter_none(self@.clients, wants);
        }
        while i < self.clients.len()
            invariant
                wants == (|c: ClientView| c.wants(index as int)),
                n <= i <= self.clients@.len(),
                self.clients@.len() == self@.clients.len(),
                n == self@.clients.take(i as int).filter(wants).len(),
            decreases self.clients@.len() - i,
        {
            assert(self.clients@[i as int]@ == self@.clients[i as int]);
            proof {
                seqs::lemma_filter_step(self@.clients, wants, i as int);
            }
            if self.clients[i].in_lobby() {
                if let Some(v) = self.clients[i].vote {
                    if v == index {
                        n = n + 1;
                    }
                }
            }
            i = i + 1;
        }
        assert(self@.clients.take(i as int) =~= self@.clients);
        n
    }

    /// Votes per rotation entry from everyone in the lobby.
    pub fn tally(&self) -> (counts: Vec<usize>)
        ensures
            counts@.len() == self@.maps.len(),
            forall|i: int|
                0 <= i < counts@.len() ==> (#[trigger] counts@[i]) as nat == self@.votes_for(i),
    {
        let mut counts: Vec<usize> = Vec::new();
        let mut i: usize = 0;
        while i < self.maps.len()
            invariant
                i <= self.maps@.len(),
                self.maps@.len() == self@.maps.len(),
                counts@.len() == i,
                forall|j: int|
                    0 <= j < i ==> (#[trigger] counts@[j]) as nat == self@.votes_for(j),
            decreases self.maps@.len() - i,
        {
            counts.push(self.votes_for(i));
            i = i + 1;
        }
        counts
    }

    /// The rotation entry with the most votes and its count, if anyone voted; a
    /// tie goes to the earlier entry.
    pub fn vote_leader(&self) -> (r: Option<(usize, usize)>)
        ensures
            match r {
                Some((index, n)) => self@.leader() == Some(index as int) && n == self@.votes_for(
                    index as int,
                ) && self@.leads(index as int),
                None => self@.leader() is None,
            },
    {
        let counts = self.tally();
        let mut best: usize = 0;
        let mut most: usize = 0;
        let mut i: usize = 0;
        while i < counts.len()
            invariant
                i <= counts@.len(),
                counts@.len() == self@.maps.len(),
                forall|j: int|
                    0 <= j < counts@.len() ==> (#[trigger] counts@[j]) as nat == self@.votes_for(j),
                forall|j: int| 0 <= j < i ==> counts@[j] <= most,
                most > 0 ==> best < i && counts@[best as int] == most && (forall|j: int|
                    0 <= j < best ==> counts@[j] < most),
            decreases counts@.len() - i,
        {
            if counts[i] > most {
                best = i;
                most = counts[i];
            }
            i = i + 1;
        }
        if most > 0 {
            proof {
                assert(counts@[best as int] as nat == self@.votes_for(best as int));
                assert forall|j: int| 0 <= j < self@.maps.len() implies #[trigger] self@.votes_for(
                    j,
                ) <= self@.votes_for(best as int) by {
                    assert(counts@[j] <= most);
                }
                assert forall|j: int| 0 <= j < best implies #[trigger] self@.votes_for(j)
                    < self@.votes_for(best as int) by {
                    assert(counts@[j] < most);
                }
                lemma_one_leader(self@, best as int);
            }
            Some((best, most))
        } else {
            proof {
                assert forall|j: int| 0 <= j < self@.maps.len() implies #[trigger] self@.votes_for(
                    j,
                ) == 0 by {
                    assert(counts@[j] <= most);
                }
                lemma_no_leader(self@);
            }
            None
        }
    }

    /// The rotation entries whose label holds `part` in any case.
    fn matching(&self, part: &[char]) -> (found: Vec<usize>)
        requires
            self@.rotation_wf(),
        ensures
            found@.map_values(|i: usize| i as int) == self@.matching(
                part@,
                self@.maps.len() as int,
            ),
    {
        let wanted = to_lower(part);
        let mut found: Vec<usize> = Vec::new();
        let mut i: usize = 0;
        assert(found@.map_values(|i: usize| i as int) =~= self@.matching(part@, 0));
        while i < self.maps.len()
            invariant
                i <= self.maps@.len(),
                self.maps@.len() == self@.maps.len(),
                self@.rotation_wf(),
                wanted@ == text::lower(part@),
                found@.map_values(|i: usize| i as int) == self@.matching(part@, i as int),
            decreases self.maps@.len() - i,
        {
            let ghost before = found@.map_values(|i: usize| i as int);
            let label = to_lower(chars_of(self.track(i).label().as_str()).as_slice());
            if contains(label.as_slice(), wanted.as_slice()) {
                found.push(i);
                assert(found@.map_values(|i: usize| i as int) =~= before.push(i as int));
            }
            i = i + 1;
        }
        found
    }

    /// A rotation entry named by 1-based number or by a unique case-insensitive
    /// fragment of its label; `Err` carries the reason. `shown` is the fragment
    /// as it stands there.
    pub fn pick(&self, query: &[char], shown: &str) -> (r: Result<usize, String>)
        requires
            self@.rotation_wf(),
        ensures
            match r {
                Ok(index) => self@.pick(query@, shown@) == Ok::<int, Seq<char>>(index as int)
                    && index < self@.maps.len(),
                Err(why) => self@.pick(query@, shown@) == Err::<int, Seq<char>>(why@),
            },
    {
        assert(self.maps@.len() == self@.maps.len());
        let mut why = String::new();
        match parse_number(query, usize::MAX as u64) {
            Some(n) => {
                if 1 <= n && n <= self.maps.len() as u64 {
                    return Ok((n - 1) as usize);
                }
                push_text(&mut why, "No map number ");
                push_decimal(&mut why, n);
                push_text(&mut why, "; see !maps");
            },
            None => {
                let found = self.matching(query);
                let ghost all = self@.matching(query@, self@.maps.len() as int);
                proof {
                    lemma_matching_is_inside(self@, query@, self@.maps.len() as int);
                    assert(all.len() == found@.len());
                }
                if found.len() == 1 {
                    assert(all[0] == found@[0] as int);
                    return Ok(found[0]);
                }
                if found.len() == 0 {
                    push_text(&mut why, "No map matches ");
                    push_text(&mut why, shown);
                    push_text(&mut why, "; see !maps");
                } else {
                    push_decimal(&mut why, found.len() as u64);
                    push_text(&mut why, " maps match ");
                    push_text(&mut why, shown);
                    push_text(&mut why, "; vote by number, see !maps");
                }
            },
        }
        assert(why@ =~= self@.pick(query@, shown@)->Err_0);
        Err(why)
    }

    /// A rotation entry named by 1-based number or by a unique case-insensitive
    /// fragment of its label; `Err` carries the reason.
    pub fn find_map(&self, query: &[char]) -> (r: Result<usize, String>)
        requires
            self@.rotation_wf(),
        ensures
            match r {
                Ok(index) => self@.find_map(query@) == Ok::<int, Seq<char>>(index as int) && index
                    < self@.maps.len(),
                Err(why) => self@.find_map(query@) == Err::<int, Seq<char>>(why@),
            },
    {
        let shown = quoted(string_of(to_lower(query).as_slice()).as_str());
        self.pick(query, shown.as_str())
    }
}

} // verus!
