//! A team's cumulative record and the rules by which one result changes it.

use vstd::prelude::*;

verus! {

/// Points for a win.
pub const WIN_POINTS: u64 = 3;

/// Points for a draw.
pub const DRAW_POINTS: u64 = 1;

/// The final score of one match.
#[derive(Clone, Copy, Debug, PartialEq, Eq)]
pub struct Score {
    pub home_goals: u32,
    pub away_goals: u32,
}

/// What a team has gathered so far in the season.
#[derive(Clone, Copy, Debug, PartialEq, Eq)]
pub struct TeamRecord {
    pub points: u64,
    pub goals_for: u64,
    pub goals_against: u64,
    pub matches_played: u64,
}

/// The mathematical value of a [`TeamRecord`]: four unbounded counters.
pub struct Tally {
    pub points: int,
    pub goals_for: int,
    pub goals_against: int,
    pub matches_played: int,
}

impl View for TeamRecord {
    type V = Tally;

    open spec fn view(&self) -> Tally {
        Tally {
            points: self.points as int,
            goals_for: self.goals_for as int,
            goals_against: self.goals_against as int,
            matches_played: self.matches_played as int,
        }
    }
}

/// Points the home side earns from `score`.
pub open spec fn home_points(score: Score) -> int {
    if score.home_goals > score.away_goals {
        3
    } else if score.home_goals == score.away_goals {
        1
    } else {
        0
    }
}

/// Points the away side earns from `score`.
pub open spec fn away_points(score: Score) -> int {
    if score.away_goals > score.home_goals {
        3
    } else if score.home_goals == score.away_goals {
        1
    } else {
        0
    }
}

impl Tally {
    /// The tally after one more match played at home.
    pub open spec fn after_home(self, score: Score) -> Tally {
        Tally {
            points: self.points + home_points(score),
            goals_for: self.goals_for + score.home_goals,
            goals_against: self.goals_against + score.away_goals,
            matches_played: self.matches_played + 1,
        }
    }

    /// The tally after one more match played away.
    pub open spec fn after_away(self, score: Score) -> Tally {
        Tally {
            points: self.points + away_points(score),
            goals_for: self.goals_for + score.away_goals,
            goals_against: self.goals_against + score.home_goals,
            matches_played: self.matches_played + 1,
        }
    }

    /// Goals scored minus goals conceded.
    pub open spec fn goal_difference(self) -> int {
        self.goals_for - self.goals_against
    }

    /// `wins` wins and `draws` draws among the matches played give the points.
    pub open spec fn explained_by(self, wins: int, draws: int) -> bool {
        0 <= wins && 0 <= draws && wins + draws <= self.matches_played && self.points == 3 * wins
            + draws
    }

    /// The points are three per win and one per draw, for some number of wins
    /// and draws among the matches played.
    pub open spec fn points_explained(self) -> bool {
        exists|wins: int, draws: int| self.explained_by(wins, draws)
    }
}

/// The most that one fixture can add to any counter of a record, whichever
/// sides of it the team takes.
pub const FIXTURE_ROOM: u64 = 0x2_0000_0000;

impl TeamRecord {
    /// A record with nothing played.
    pub fn new() -> (record: TeamRecord)
        ensures
            record@ == (Tally { points: 0, goals_for: 0, goals_against: 0, matches_played: 0 }),
    {
        TeamRecord { points: 0, goals_for: 0, goals_against: 0, matches_played: 0 }
    }

    /// Every counter can still grow by what `fixtures` fixtures may add.
    pub open spec fn has_room(&self, fixtures: nat) -> bool {
        &&& self.points + fixtures * FIXTURE_ROOM <= u64::MAX
        &&& self.goals_for + fixtures * FIXTURE_ROOM <= u64::MAX
        &&& self.goals_against + fixtures * FIXTURE_ROOM <= u64::MAX
        &&& self.matches_played + fixtures * FIXTURE_ROOM <= u64::MAX
    }

    /// Whether every counter can still grow by what `fixtures` fixtures may add.
    pub fn room_for(&self, fixtures: usize) -> (enough: bool)
        ensures
            enough == self.has_room(fixtures as nat),
    {
        assert(fixtures * 0x2_0000_0000 <= 0xffff_ffff_ffff_ffff * 0x2_0000_0000)
            by (nonlinear_arith)
            requires
                fixtures <= 0xffff_ffff_ffff_ffff,
        ;
        let need: u128 = (fixtures as u128) * (FIXTURE_ROOM as u128);
        let top: u128 = u64::MAX as u128;
        self.points as u128 + need <= top && self.goals_for as u128 + need <= top
            && self.goals_against as u128 + need <= top && self.matches_played as u128 + need
            <= top
    }

    /// The record after one more match played at home that ended in `score`.
    pub fn after_home(&self, score: &Score) -> (next: TeamRecord)
        requires
            self.points + 3 <= u64::MAX,
            self.goals_for + score.home_goals <= u64::MAX,
            self.goals_against + score.away_goals <= u64::MAX,
            self.matches_played + 1 <= u64::MAX,
        ensures
            next@ == self@.after_home(*score),
    {
        let earned: u64 = if score.home_goals > score.away_goals {
            WIN_POINTS
        } else if score.home_goals == score.away_goals {
            DRAW_POINTS
        } else {
            0
        };
        TeamRecord {
            points: self.points + earned,
            goals_for: self.goals_for + score.home_goals as u64,
            goals_against: self.goals_against + score.away_goals as u64,
            matches_played: self.matches_played + 1,
        }
    }

    /// The record after one more match played away that ended in `score`.
    pub fn after_away(&self, score: &Score) -> (next: TeamRecord)
        requires
            self.points + 3 <= u64::MAX,
            self.goals_for + score.away_goals <= u64::MAX,
            self.goals_against + score.home_goals <= u64::MAX,
            self.matches_played + 1 <= u64::MAX,
        ensures
            next@ == self@.after_away(*score),
    {
        let earned: u64 = if score.away_goals > score.home_goals {
            WIN_POINTS
        } else if score.home_goals == score.away_goals {
            DRAW_POINTS
        } else {
            0
        };
        TeamRecord {
            points: self.points + earned,
            goals_for: self.goals_for + score.away_goals as u64,
            goals_against: self.goals_against + score.home_goals as u64,
            matches_played: self.matches_played + 1,
        }
    }
}

} // verus!
