//! The league table: one row per team, in the order the teams were entered.

use vstd::prelude::*;
use crate::record::{Score, Tally, TeamRecord};

verus! {

/// A match still to be played, by the identifiers of its two sides.
#[derive(Clone, Copy, Debug, PartialEq, Eq)]
pub struct Fixture {
    pub home: u64,
    pub away: u64,
}

/// Goals scored and matches played at one venue only (home, or away).
#[derive(Clone, Copy, Debug, PartialEq, Eq)]
pub struct VenueSplit {
    pub goals_for: u64,
    pub matches_played: u64,
}

/// One row of the table.
#[derive(Clone, Copy, Debug, PartialEq, Eq)]
pub struct TeamEntry {
    pub team: u64,
    pub record: TeamRecord,
}

/// No two rows are of the same team.
pub open spec fn distinct_teams(rows: Seq<TeamEntry>) -> bool {
    forall|i: int, j: int| 0 <= i < j < rows.len() ==> rows[i].team != rows[j].team
}

/// Some row is of `team`.
pub open spec fn has_team(rows: Seq<TeamEntry>, team: u64) -> bool {
    exists|i: int| 0 <= i < rows.len() && #[trigger] rows[i].team == team
}

/// What one result makes of the tally of `team`: the home side's change if it
/// is the home side, then the away side's change if it is the away side.
pub open spec fn tally_after_match(team: u64, tally: Tally, fixture: Fixture, score: Score) -> Tally {
    let at_home = if fixture.home == team {
        tally.after_home(score)
    } else {
        tally
    };
    if fixture.away == team {
        at_home.after_away(score)
    } else {
        at_home
    }
}

/// The standings of a league, with each team's optional venue splits.
#[derive(Debug)]
pub struct LeagueTable {
    entries: Vec<TeamEntry>,
    home_splits: Vec<Option<VenueSplit>>,
    away_splits: Vec<Option<VenueSplit>>,
}

impl LeagueTable {
    /// The rows, in table order.
    pub closed spec fn rows(&self) -> Seq<TeamEntry> {
        self.entries@
    }

    /// The home split of each row, where one was given.
    pub closed spec fn home_splits(&self) -> Seq<Option<VenueSplit>> {
        self.home_splits@
    }

    /// The away split of each row, where one was given.
    pub closed spec fn away_splits(&self) -> Seq<Option<VenueSplit>> {
        self.away_splits@
    }

    /// Each row has its two split slots, and no team has two rows.
    pub open spec fn wf(&self) -> bool {
        &&& self.home_splits().len() == self.rows().len()
        &&& self.away_splits().len() == self.rows().len()
        &&& distinct_teams(self.rows())
    }

    /// Every row can still take the results of `fixtures` fixtures.
    pub open spec fn has_room(&self, fixtures: nat) -> bool {
        forall|i: int| 0 <= i < self.rows().len() ==> (#[trigger] self.rows()[i]).record.has_room(fixtures)
    }

    /// The same teams and splits as `before`, row by row.
    pub open spec fn same_league(&self, before: &LeagueTable) -> bool {
        &&& self.rows().len() == before.rows().len()
        &&& self.home_splits() == before.home_splits()
        &&& self.away_splits() == before.away_splits()
        &&& forall|i: int| 0 <= i < self.rows().len() ==> (#[trigger] self.rows()[i]).team == before.rows()[i].team
    }

    /// A table without rows.
    pub fn new() -> (table: LeagueTable)
        ensures
            table.wf(),
            table.rows().len() == 0,
    {
        LeagueTable { entries: Vec::new(), home_splits: Vec::new(), away_splits: Vec::new() }
    }

    /// The number of rows.
    pub fn len(&self) -> (n: usize)
        ensures
            n == self.rows().len(),
    {
        self.entries.len()
    }

    /// The row at `index`.
    pub fn row(&self, index: usize) -> (entry: TeamEntry)
        requires
            index < self.rows().len(),
        ensures
            entry == self.rows()[index as int],
    {
        self.entries[index]
    }

    /// The row of `team`, if it has one.
    pub fn position(&self, team: u64) -> (found: Option<usize>)
        ensures
            match found {
                Some(index) => index < self.rows().len() && self.rows()[index as int].team == team,
                None => !has_team(self.rows(), team),
            },
    {
        let mut index: usize = 0;
        while index < self.entries.len()
            invariant
                index <= self.entries.len(),
                forall|j: int| 0 <= j < index ==> self.entries@[j].team != team,
            decreases self.entries.len() - index,
        {
            if self.entries[index].team == team {
                return Some(index);
            }
            index = index + 1;
        }
        None
    }

    /// The record of `team`, if it has a row.
    pub fn record_of(&self, team: u64) -> (found: Option<TeamRecord>)
        ensures
            match found {
                Some(record) => exists|i: int|
                    0 <= i < self.rows().len() && #[trigger] self.rows()[i].team == team
                        && self.rows()[i].record == record,
                None => !has_team(self.rows(), team),
            },
    {
        match self.position(team) {
            Some(index) => Some(self.entries[index].record),
            None => None,
        }
    }

    /// Enters `record` for `team`: in its row if it has one, which keeps its
    /// place and its splits, else in a new last row without splits.
    pub fn insert(&mut self, team: u64, record: TeamRecord)
        requires
            old(self).wf(),
        ensures
            final(self).wf(),
            has_team(old(self).rows(), team) ==> final(self).same_league(old(self)),
            !has_team(old(self).rows(), team) ==> {
                &&& final(self).rows() == old(self).rows().push(TeamEntry { team, record })
                &&& final(self).home_splits() == old(self).home_splits().push(None)
                &&& final(self).away_splits() == old(self).away_splits().push(None)
            },
            forall|i: int|
                0 <= i < old(self).rows().len() ==> #[trigger] final(self).rows()[i] == (
                if old(self).rows()[i].team == team {
                    TeamEntry { team, record }
                } else {
                    old(self).rows()[i]
                }),
    {
        match self.position(team) {
            Some(index) => {
                self.entries.set(index, TeamEntry { team, record });
            },
            None => {
                self.entries.push(TeamEntry { team, record });
                self.home_splits.push(None);
                self.away_splits.push(None);
            },
        }
    }

    /// Gives `team` its home split. Returns whether the team has a row; nothing
    /// changes if it has none.
    pub fn set_home_split(&mut self, team: u64, split: VenueSplit) -> (known: bool)
        requires
            old(self).wf(),
        ensures
            final(self).wf(),
            known == has_team(old(self).rows(), team),
            final(self).rows() == old(self).rows(),
            final(self).away_splits() == old(self).away_splits(),
            final(self).home_splits().len() == old(self).home_splits().len(),
            forall|i: int|
                0 <= i < old(self).rows().len() ==> #[trigger] final(self).home_splits()[i] == (
                if old(self).rows()[i].team == team {
                    Some(split)
                } else {
                    old(self).home_splits()[i]
                }),
    {
        match self.position(team) {
            Some(index) => {
                self.home_splits.set(index, Some(split));
                true
            },
            None => false,
        }
    }

    /// Gives `team` its away split. Returns whether the team has a row; nothing
    /// changes if it has none.
    pub fn set_away_split(&mut self, team: u64, split: VenueSplit) -> (known: bool)
        requires
            old(self).wf(),
        ensures
            final(self).wf(),
            known == has_team(old(self).rows(), team),
            final(self).rows() == old(self).rows(),
            final(self).home_splits() == old(self).home_splits(),
            final(self).away_splits().len() == old(self).away_splits().len(),
            forall|i: int|
                0 <= i < old(self).rows().len() ==> #[trigger] final(self).away_splits()[i] == (
                if old(self).rows()[i].team == team {
                    Some(split)
                } else {
                    old(self).away_splits()[i]
                }),
    {
        match self.position(team) {
            Some(index) => {
                self.away_splits.set(index, Some(split));
                true
            },
            None => false,
        }
    }

    /// Whether every row can still take the results of `fixtures` fixtures.
    pub fn room_for(&self, fixtures: usize) -> (enough: bool)
        ensures
            enough == self.has_room(fixtures as nat),
    {
        let mut index: usize = 0;
        while index < self.entries.len()
            invariant
                index <= self.entries.len(),
                forall|j: int| 0 <= j < index ==> (#[trigger] self.entries@[j]).record.has_room(fixtures as nat),
            decreases self.entries.len() - index,
        {
            if !self.entries[index].record.room_for(fixtures) {
                assert(!self.rows()[index as int].record.has_room(fixtures as nat));
                return false;
            }
            index = index + 1;
        }
        true
    }

    /// A copy that shares nothing with this table.
    pub fn duplicate(&self) -> (copy: LeagueTable)
        ensures
            copy.rows() == self.rows(),
            copy.home_splits() == self.home_splits(),
            copy.away_splits() == self.away_splits(),
    {
        let mut entries: Vec<TeamEntry> = Vec::new();
        let mut index: usize = 0;
        while index < self.entries.len()
            invariant
                index <= self.entries.len(),
                entries@ == self.entries@.take(index as int),
            decreases self.entries.len() - index,
        {
            entries.push(self.entries[index]);
            index = index + 1;
        }
        let mut home_splits: Vec<Option<VenueSplit>> = Vec::new();
        let mut index: usize = 0;
        while index < self.home_splits.len()
            invariant
                index <= self.home_splits.len(),
                home_splits@ == self.home_splits@.take(index as int),
            decreases self.home_splits.len() - index,
        {
            home_splits.push(self.home_splits[index]);
            index = index + 1;
        }
        let mut away_splits: Vec<Option<VenueSplit>> = Vec::new();
        let mut index: usize = 0;
        while index < self.away_splits.len()
            invariant
                index <= self.away_splits.len(),
                away_splits@ == self.away_splits@.take(index as int),
            decreases self.away_splits.len() - index,
        {
            away_splits.push(self.away_splits[index]);
            index = index + 1;
        }
        LeagueTable { entries, home_splits, away_splits }
    }

    /// The home split of the row at `index`, if it has one.
    pub fn home_split_at(&self, index: usize) -> (split: Option<VenueSplit>)
        requires
            self.wf(),
            index < self.rows().len(),
        ensures
            split == self.home_splits()[index as int],
    {
        self.home_splits[index]
    }

    /// The away split of the row at `index`, if it has one.
    pub fn away_split_at(&self, index: usize) -> (split: Option<VenueSplit>)
        requires
            self.wf(),
            index < self.rows().len(),
        ensures
            split == self.away_splits()[index as int],
    {
        self.away_splits[index]
    }

    /// Books `score` for `fixture`: the home side's row takes the home change,
    /// then the away side's row the away change. Fails on the first side
    /// without a row, the home side first, and then changes nothing.
    pub fn record_result(&mut self, fixture: &Fixture, score: &Score) -> (booked: Result<(), u64>)
        requires
            old(self).wf(),
            old(self).has_room(1),
        ensures
            final(self).wf(),
            final(self).same_league(old(self)),
            match booked {
                Ok(()) => {
                    &&& has_team(old(self).rows(), fixture.home)
                    &&& has_team(old(self).rows(), fixture.away)
                    &&& forall|i: int|
                        0 <= i < old(self).rows().len() ==> (#[trigger] final(self).rows()[i]).record@
                            == tally_after_match(
                            old(self).rows()[i].team,
                            old(self).rows()[i].record@,
                            *fixture,
                            *score,
                        )
                },
                Err(team) => {
                    &&& final(self).rows() == old(self).rows()
                    &&& !has_team(old(self).rows(), team)
                    &&& team == (if has_team(old(self).rows(), fixture.home) {
                        fixture.away
                    } else {
                        fixture.home
                    })
                },
            },
            forall|k: nat| old(self).has_room(k + 1) ==> final(self).has_room(k),
    {
        let home_row = match self.position(fixture.home) {
            Some(index) => index,
            None => {
                return Err(fixture.home);
            },
        };
        let away_row = match self.position(fixture.away) {
            Some(index) => index,
            None => {
                return Err(fixture.away);
            },
        };
        self.book(home_row, away_row, fixture, score);
        Ok(())
    }

    /// Books `score` in the rows of the two sides of `fixture`.
    pub(crate) fn book(&mut self, home_row: usize, away_row: usize, fixture: &Fixture, score: &Score)
        requires
            old(self).wf(),
            old(self).has_room(1),
            home_row < old(self).rows().len(),
            away_row < old(self).rows().len(),
            old(self).rows()[home_row as int].team == fixture.home,
            old(self).rows()[away_row as int].team == fixture.away,
        ensures
            final(self).wf(),
            final(self).same_league(old(self)),
            forall|i: int|
                0 <= i < old(self).rows().len() ==> (#[trigger] final(self).rows()[i]).record@
                    == tally_after_match(
                    old(self).rows()[i].team,
                    old(self).rows()[i].record@,
                    *fixture,
                    *score,
                ),
            forall|k: nat| old(self).has_room(k + 1) ==> final(self).has_room(k),
    {
        let ghost before = self.entries@;
        assert(before[home_row as int].record.has_room(1));
        let home_next = self.entries[home_row].record.after_home(score);
        self.entries.set(home_row, TeamEntry { team: fixture.home, record: home_next });
        assert(before[away_row as int].record.has_room(1));
        let away_next = self.entries[away_row].record.after_away(score);
        self.entries.set(away_row, TeamEntry { team: fixture.away, record: away_next });
        assert forall|k: nat| old(self).has_room(k + 1) implies self.has_room(k) by {
            assert forall|i: int| 0 <= i < self.rows().len() implies (#[trigger] self.rows()[i]).record.has_room(k) by {
                assert(before[i].record.has_room(k + 1));
            }
        }
    }
}

} // verus!
