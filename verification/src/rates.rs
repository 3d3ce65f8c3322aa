//! Expected goals of the two sides of a fixture, as exact ratios of counters.

use vstd::prelude::*;
use crate::record::TeamRecord;
use crate::table::VenueSplit;

verus! {

/// Goals per match.
#[derive(Clone, Copy, Debug, PartialEq, Eq)]
pub struct Ratio {
    pub goals: u64,
    pub matches: u64,
}

/// The rate of a team of which nothing is known yet: one goal per match.
pub open spec fn default_rate() -> Ratio {
    Ratio { goals: 1, matches: 1 }
}

/// The home side's rate is this many ...
pub const HOME_ADVANTAGE_NUM: u64 = 5;

/// ... of these parts of what the counters alone give: a factor of 1.25.
pub const HOME_ADVANTAGE_DEN: u64 = 4;

/// The scoring rate over all matches: goals per match played, or the default
/// rate before the first match.
pub open spec fn overall_rate_of(record: TeamRecord) -> Ratio {
    if record.matches_played > 0 {
        Ratio { goals: record.goals_for, matches: record.matches_played }
    } else {
        default_rate()
    }
}

/// The scoring rate at one venue: goals per match there, or the overall rate
/// where no match was played there or nothing is recorded.
pub open spec fn venue_rate_of(split: Option<VenueSplit>, overall: Ratio) -> Ratio {
    match split {
        Some(at_venue) => if at_venue.matches_played > 0 {
            Ratio { goals: at_venue.goals_for, matches: at_venue.matches_played }
        } else {
            overall
        },
        None => overall,
    }
}

/// The expected goals of one side: the mean of its overall and its venue rate,
/// times the home advantage for the home side.
#[derive(Clone, Copy, Debug, PartialEq, Eq)]
pub struct ExpectedGoals {
    pub overall: Ratio,
    pub venue: Ratio,
    pub home_side: bool,
}

impl ExpectedGoals {
    /// Both ratios have a match to divide by.
    pub open spec fn wf(self) -> bool {
        self.overall.matches > 0 && self.venue.matches > 0
    }

    /// Numerator of the expected goals as a fraction.
    pub open spec fn numerator(self) -> int {
        let sum = self.overall.goals * self.venue.matches + self.venue.goals * self.overall.matches;
        if self.home_side {
            HOME_ADVANTAGE_NUM * sum
        } else {
            sum
        }
    }

    /// Denominator of the expected goals as a fraction.
    pub open spec fn denominator(self) -> int {
        let twice = 2 * (self.overall.matches * self.venue.matches);
        if self.home_side {
            HOME_ADVANTAGE_DEN * twice
        } else {
            twice
        }
    }

    /// Whether the expected goals exceed zero.
    pub fn is_positive(&self) -> (positive: bool)
        requires
            self.wf(),
        ensures
            positive == (self.numerator() > 0),
            self.denominator() > 0,
    {
        proof {
            let og = self.overall.goals as int;
            let om = self.overall.matches as int;
            let vg = self.venue.goals as int;
            let vm = self.venue.matches as int;
            assert(om * vm > 0) by (nonlinear_arith)
                requires
                    om > 0,
                    vm > 0,
            ;
            assert((og * vm + vg * om > 0) == (og > 0 || vg > 0)) by (nonlinear_arith)
                requires
                    om > 0,
                    vm > 0,
                    og >= 0,
                    vg >= 0,
            ;
        }
        self.overall.goals > 0 || self.venue.goals > 0
    }
}

/// The expected goals of both sides of one fixture.
#[derive(Clone, Copy, Debug, PartialEq, Eq)]
pub struct MatchRates {
    pub home: ExpectedGoals,
    pub away: ExpectedGoals,
}

/// The rates that the records and splits of the two sides give.
pub open spec fn rates_of(
    home: TeamRecord,
    home_split: Option<VenueSplit>,
    away: TeamRecord,
    away_split: Option<VenueSplit>,
) -> MatchRates {
    MatchRates {
        home: ExpectedGoals {
            overall: overall_rate_of(home),
            venue: venue_rate_of(home_split, overall_rate_of(home)),
            home_side: true,
        },
        away: ExpectedGoals {
            overall: overall_rate_of(away),
            venue: venue_rate_of(away_split, overall_rate_of(away)),
            home_side: false,
        },
    }
}

/// The scoring rate of `record` over all its matches.
pub fn overall_rate(record: &TeamRecord) -> (rate: Ratio)
    ensures
        rate == overall_rate_of(*record),
        rate.matches > 0,
{
    if record.matches_played > 0 {
        Ratio { goals: record.goals_for, matches: record.matches_played }
    } else {
        Ratio { goals: 1, matches: 1 }
    }
}

/// The scoring rate at the venue of `split`, falling back to `overall`.
pub fn venue_rate(split: Option<VenueSplit>, overall: Ratio) -> (rate: Ratio)
    ensures
        rate == venue_rate_of(split, overall),
        overall.matches > 0 ==> rate.matches > 0,
{
    match split {
        Some(at_venue) => {
            if at_venue.matches_played > 0 {
                Ratio { goals: at_venue.goals_for, matches: at_venue.matches_played }
            } else {
                overall
            }
        },
        None => overall,
    }
}

/// Estimates the expected goals of both sides of a fixture from their records
/// and, where given, from the home side's home split and the away side's away
/// split.
pub fn calculate_lambdas(
    home: &TeamRecord,
    home_split: Option<VenueSplit>,
    away: &TeamRecord,
    away_split: Option<VenueSplit>,
) -> (rates: MatchRates)
    ensures
        rates == rates_of(*home, home_split, *away, away_split),
        rates.home.wf(),
        rates.away.wf(),
{
    let home_overall = overall_rate(home);
    let away_overall = overall_rate(away);
    MatchRates {
        home: ExpectedGoals {
            overall: home_overall,
            venue: venue_rate(home_split, home_overall),
            home_side: true,
        },
        away: ExpectedGoals {
            overall: away_overall,
            venue: venue_rate(away_split, away_overall),
            home_side: false,
        },
    }
}

/// Before a team's first match and without venue data, it is expected to score
/// 1.25 goals at home and 1.0 away, whoever the opponent is.
pub proof fn lemma_cold_start_rates(
    fresh: TeamRecord,
    opponent: TeamRecord,
    opponent_split: Option<VenueSplit>,
)
    requires
        fresh.matches_played == 0,
    ensures
        ({
            let at_home = rates_of(fresh, None, opponent, opponent_split).home;
            4 * at_home.numerator() == 5 * at_home.denominator() && at_home.denominator() > 0
        }),
        ({
            let away = rates_of(opponent, opponent_split, fresh, None).away;
            away.numerator() == away.denominator() && away.denominator() > 0
        }),
{
}

/// Without venue data the expected goals are the overall rate itself, times
/// the home advantage for the home side.
pub proof fn lemma_rates_without_splits(home: TeamRecord, away: TeamRecord)
    ensures
        ({
            let rates = rates_of(home, None, away, None);
            let h = overall_rate_of(home);
            let a = overall_rate_of(away);
            &&& rates.home.numerator() * (HOME_ADVANTAGE_DEN * h.matches) == (HOME_ADVANTAGE_NUM
                * h.goals) * rates.home.denominator()
            &&& rates.away.numerator() * a.matches == a.goals * rates.away.denominator()
        }),
{
    let h = overall_rate_of(home);
    let a = overall_rate_of(away);
    let hg = h.goals as int;
    let hm = h.matches as int;
    let ag = a.goals as int;
    let am = a.matches as int;
    assert((5 * (hg * hm + hg * hm)) * (4 * hm) == (5 * hg) * (4 * (2 * (hm * hm))))
        by (nonlinear_arith);
    assert((ag * am + ag * am) * am == ag * (2 * (am * am))) by (nonlinear_arith);
}

} // verus!
