//! One season: the fixtures in their given order, each with a drawn score.

use vstd::prelude::*;
use rand_chacha::ChaCha8Rng;
use crate::distribution::ModelError;
use crate::ranking::{final_ranking, is_ranking_of};
use crate::rates::{calculate_lambdas, rates_of, MatchRates};
use crate::record::{Score, Tally};
use crate::table::{has_team, tally_after_match, Fixture, LeagueTable, TeamEntry, VenueSplit};

verus! {

/// Why a fixture could not be played.
#[derive(Clone, Copy, Debug, PartialEq, Eq)]
pub enum SimulationError {
    /// A side of the fixture has no row in the table.
    MissingTeam(u64),
    /// No score could be drawn.
    Model(ModelError),
}

/// A season that stopped early: the index of the fixture that could not be
/// played, and why.
#[derive(Clone, Copy, Debug, PartialEq, Eq)]
pub struct SeasonAbort {
    pub fixture: usize,
    pub cause: SimulationError,
}

/// Some row of `rows` that is of `team`.
pub open spec fn row_of(rows: Seq<TeamEntry>, team: u64) -> int {
    choose|i: int| 0 <= i < rows.len() && #[trigger] rows[i].team == team
}

/// The side of `fixture` that is looked up first and has no row in `rows`.
pub open spec fn first_missing(rows: Seq<TeamEntry>, fixture: Fixture) -> u64 {
    if has_team(rows, fixture.home) {
        fixture.away
    } else {
        fixture.home
    }
}

/// Both sides of each of the first `played` fixtures have a row.
pub open spec fn all_known(rows: Seq<TeamEntry>, fixtures: Seq<Fixture>, played: int) -> bool {
    forall|i: int|
        0 <= i < played ==> has_team(rows, (#[trigger] fixtures[i]).home) && has_team(
            rows,
            fixtures[i].away,
        )
}

/// What the first `played` fixtures, with their scores, make of the tally of
/// `team`.
pub open spec fn tally_after(
    team: u64,
    start: Tally,
    fixtures: Seq<Fixture>,
    scores: Seq<Score>,
    played: int,
) -> Tally
    decreases played,
{
    if played <= 0 {
        start
    } else {
        tally_after_match(
            team,
            tally_after(team, start, fixtures, scores, played - 1),
            fixtures[played - 1],
            scores[played - 1],
        )
    }
}

/// `after` is `before` with the first `played` fixtures booked, at the scores
/// `scores`: the same teams row by row, each with its tally after them.
pub open spec fn played_out(
    before: Seq<TeamEntry>,
    after: Seq<TeamEntry>,
    fixtures: Seq<Fixture>,
    scores: Seq<Score>,
    played: int,
) -> bool {
    &&& after.len() == before.len()
    &&& forall|i: int|
        0 <= i < before.len() ==> (#[trigger] after[i]).team == before[i].team && after[i].record@
            == tally_after(before[i].team, before[i].record@, fixtures, scores, played)
}

/// `draw` accepts every pair of well-formed rates.
pub open spec fn draws_any_rates<F: Fn(&MatchRates, &mut ChaCha8Rng) -> Result<Score, ModelError>>(
    draw: &F,
) -> bool {
    forall|rates: &MatchRates, rng: &mut ChaCha8Rng|
        rates.home.wf() && rates.away.wf() ==> call_requires(draw, (rates, rng))
}

/// `outcome` is what `draw` may return for `rates`, from some state of the
/// random source.
pub open spec fn drawn_by<F: Fn(&MatchRates, &mut ChaCha8Rng) -> Result<Score, ModelError>>(
    draw: &F,
    rates: MatchRates,
    outcome: Result<Score, ModelError>,
) -> bool {
    exists|rng: &mut ChaCha8Rng| call_ensures(draw, (&rates, rng), outcome)
}

/// The rates of `fixture` for the given rows and splits: from the record and
/// the home split of the home side, and the record and the away split of the
/// away side.
pub open spec fn rates_in(
    rows: Seq<TeamEntry>,
    home_splits: Seq<Option<VenueSplit>>,
    away_splits: Seq<Option<VenueSplit>>,
    fixture: Fixture,
) -> MatchRates {
    let home_row = row_of(rows, fixture.home);
    let away_row = row_of(rows, fixture.away);
    rates_of(
        rows[home_row].record,
        home_splits[home_row],
        rows[away_row].record,
        away_splits[away_row],
    )
}

impl LeagueTable {
    /// The rates of `fixture` as the table stands.
    pub open spec fn rates_for(&self, fixture: Fixture) -> MatchRates {
        rates_in(self.rows(), self.home_splits(), self.away_splits(), fixture)
    }
}

/// The score of the fixture at `turn` is one that `draw` gave for the rates
/// that the fixtures before it, at their scores, had left.
pub open spec fn drawn_in_turn<F: Fn(&MatchRates, &mut ChaCha8Rng) -> Result<Score, ModelError>>(
    draw: &F,
    start: &LeagueTable,
    fixtures: Seq<Fixture>,
    scores: Seq<Score>,
    turn: int,
) -> bool {
    exists|rows: Seq<TeamEntry>|
        #[trigger] played_out(start.rows(), rows, fixtures, scores, turn) && drawn_by(
            draw,
            rates_in(rows, start.home_splits(), start.away_splits(), fixtures[turn]),
            Ok(scores[turn]),
        )
}

/// From `start`, the first `played` fixtures were played in their order, each
/// at a score that `draw` gave for the rates of its moment, and left the rows
/// `end`.
pub open spec fn season_of<F: Fn(&MatchRates, &mut ChaCha8Rng) -> Result<Score, ModelError>>(
    draw: &F,
    start: &LeagueTable,
    end: Seq<TeamEntry>,
    fixtures: Seq<Fixture>,
    scores: Seq<Score>,
    played: int,
) -> bool {
    &&& played <= scores.len()
    &&& played_out(start.rows(), end, fixtures, scores, played)
    &&& forall|turn: int|
        0 <= turn < played ==> #[trigger] drawn_in_turn(draw, start, fixtures, scores, turn)
}

/// Plays one fixture: looks up both sides, the home side first; estimates
/// their rates; has `draw` give the score; books it. Nothing is booked when a
/// side is missing or `draw` fails.
pub fn play_fixture<F>(
    table: &mut LeagueTable,
    fixture: &Fixture,
    rng: &mut ChaCha8Rng,
    draw: &F,
) -> (played: Result<Score, SimulationError>) where
    F: Fn(&MatchRates, &mut ChaCha8Rng) -> Result<Score, ModelError>,

    requires
        old(table).wf(),
        old(table).has_room(1),
        draws_any_rates(draw),
    ensures
        final(table).wf(),
        final(table).same_league(old(table)),
        forall|k: nat| old(table).has_room(k + 1) ==> final(table).has_room(k),
        match played {
            Ok(score) => {
                &&& has_team(old(table).rows(), fixture.home)
                &&& has_team(old(table).rows(), fixture.away)
                &&& drawn_by(draw, old(table).rates_for(*fixture), Ok(score))
                &&& forall|i: int|
                    0 <= i < old(table).rows().len() ==> (#[trigger] final(table).rows()[i]).record@
                        == tally_after_match(
                        old(table).rows()[i].team,
                        old(table).rows()[i].record@,
                        *fixture,
                        score,
                    )
            },
            Err(SimulationError::MissingTeam(team)) => {
                &&& final(table).rows() == old(table).rows()
                &&& team == first_missing(old(table).rows(), *fixture)
                &&& !has_team(old(table).rows(), team)
            },
            Err(SimulationError::Model(error)) => {
                &&& final(table).rows() == old(table).rows()
                &&& has_team(old(table).rows(), fixture.home)
                &&& has_team(old(table).rows(), fixture.away)
                &&& drawn_by(draw, old(table).rates_for(*fixture), Err(error))
            },
        },
{
    let home_row = match table.position(fixture.home) {
        Some(index) => index,
        None => {
            return Err(SimulationError::MissingTeam(fixture.home));
        },
    };
    let away_row = match table.position(fixture.away) {
        Some(index) => index,
        None => {
            return Err(SimulationError::MissingTeam(fixture.away));
        },
    };
    let home = table.row(home_row);
    let away = table.row(away_row);
    let rates = calculate_lambdas(
        &home.record,
        table.home_split_at(home_row),
        &away.record,
        table.away_split_at(away_row),
    );
    assert(row_of(table.rows(), fixture.home) == home_row);
    assert(row_of(table.rows(), fixture.away) == away_row);
    assert(rates == table.rates_for(*fixture));
    let ghost before = *table;
    let outcome = draw(&rates, rng);
    assert(drawn_by(draw, before.rates_for(*fixture), outcome));
    match outcome {
        Ok(score) => {
            table.book(home_row, away_row, fixture, &score);
            assert(has_team(before.rows(), fixture.home));
            assert(has_team(before.rows(), fixture.away));
            Ok(score)
        },
        Err(error) => Err(SimulationError::Model(error)),
    }
}

/// The tally after some fixtures depends on the scores of those fixtures only.
pub proof fn lemma_tally_after_prefix(
    team: u64,
    start: Tally,
    fixtures: Seq<Fixture>,
    scores: Seq<Score>,
    longer: Seq<Score>,
    played: int,
)
    requires
        played <= scores.len() <= longer.len(),
        forall|i: int| 0 <= i < played ==> scores[i] == longer[i],
    ensures
        tally_after(team, start, fixtures, scores, played) == tally_after(
            team,
            start,
            fixtures,
            longer,
            played,
        ),
    decreases played,
{
    if played > 0 {
        lemma_tally_after_prefix(team, start, fixtures, scores, longer, played - 1);
    }
}

/// Tables with the same teams row by row know the same teams.
pub proof fn lemma_same_teams(a: Seq<TeamEntry>, b: Seq<TeamEntry>, team: u64)
    requires
        a.len() == b.len(),
        forall|i: int| 0 <= i < a.len() ==> (#[trigger] a[i]).team == b[i].team,
    ensures
        has_team(a, team) == has_team(b, team),
{
    if has_team(a, team) {
        let i = choose|i: int| 0 <= i < a.len() && #[trigger] a[i].team == team;
        assert(b[i].team == team);
    }
    if has_team(b, team) {
        let i = choose|i: int| 0 <= i < b.len() && #[trigger] b[i].team == team;
        assert(a[i].team == team);
    }
}

/// Rows that were played out at some scores were so at any scores that begin
/// with the same.
pub proof fn lemma_played_out_prefix(
    before: Seq<TeamEntry>,
    after: Seq<TeamEntry>,
    fixtures: Seq<Fixture>,
    scores: Seq<Score>,
    longer: Seq<Score>,
    played: int,
)
    requires
        played <= scores.len() <= longer.len(),
        forall|i: int| 0 <= i < played ==> scores[i] == longer[i],
        played_out(before, after, fixtures, scores, played),
    ensures
        played_out(before, after, fixtures, longer, played),
{
    assert forall|i: int| 0 <= i < before.len() implies (#[trigger] after[i]).team == before[i].team
        && after[i].record@ == tally_after(
        before[i].team,
        before[i].record@,
        fixtures,
        longer,
        played,
    ) by {
        lemma_tally_after_prefix(
            before[i].team,
            before[i].record@,
            fixtures,
            scores,
            longer,
            played,
        );
    }
}

/// Plays the fixtures in their given order, each at the score that `draw`
/// gives for the rates at that moment, and returns the scores. Stops at the
/// first fixture that cannot be played; what was booked before it stays.
pub fn play_season<F>(
    table: &mut LeagueTable,
    fixtures: &Vec<Fixture>,
    rng: &mut ChaCha8Rng,
    draw: &F,
) -> (played: Result<Vec<Score>, SeasonAbort>) where
    F: Fn(&MatchRates, &mut ChaCha8Rng) -> Result<Score, ModelError>,

    requires
        old(table).wf(),
        old(table).has_room(fixtures@.len()),
        draws_any_rates(draw),
    ensures
        final(table).wf(),
        final(table).same_league(old(table)),
        match played {
            Ok(scores) => {
                &&& scores@.len() == fixtures@.len()
                &&& all_known(old(table).rows(), fixtures@, fixtures@.len() as int)
                &&& season_of(
                    draw,
                    old(table),
                    final(table).rows(),
                    fixtures@,
                    scores@,
                    fixtures@.len() as int,
                )
            },
            Err(abort) => {
                &&& abort.fixture < fixtures@.len()
                &&& all_known(old(table).rows(), fixtures@, abort.fixture as int)
                &&& exists|scores: Seq<Score>| #[trigger]
                    season_of(
                        draw,
                        old(table),
                        final(table).rows(),
                        fixtures@,
                        scores,
                        abort.fixture as int,
                    )
                &&& match abort.cause {
                    SimulationError::MissingTeam(team) => team == first_missing(
                        old(table).rows(),
                        fixtures@[abort.fixture as int],
                    ) && !has_team(old(table).rows(), team),
                    SimulationError::Model(error) => {
                        &&& has_team(old(table).rows(), fixtures@[abort.fixture as int].home)
                        &&& has_team(old(table).rows(), fixtures@[abort.fixture as int].away)
                        &&& drawn_by(
                            draw,
                            final(table).rates_for(fixtures@[abort.fixture as int]),
                            Err(error),
                        )
                    },
                }
            },
        },
{
    let ghost before = *table;
    let mut scores: Vec<Score> = Vec::new();
    let mut index: usize = 0;
    while index < fixtures.len()
        invariant
            index <= fixtures@.len(),
            before == *old(table),
            table.wf(),
            table.same_league(&before),
            table.has_room((fixtures@.len() - index) as nat),
            draws_any_rates(draw),
            scores@.len() == index,
            all_known(before.rows(), fixtures@, index as int),
            season_of(draw, &before, table.rows(), fixtures@, scores@, index as int),
        decreases fixtures@.len() - index,
    {
        let ghost earlier = *table;
        let ghost earlier_scores = scores@;
        let fixture = fixtures[index];
        proof {
            let left = (fixtures@.len() - index) as nat;
            assert forall|i: int| 0 <= i < table.rows().len() implies (#[trigger] table.rows()[i]).record.has_room(1) by {
                assert(table.rows()[i].record.has_room(left));
                assert(left * crate::record::FIXTURE_ROOM >= 1 * crate::record::FIXTURE_ROOM)
                    by (nonlinear_arith)
                    requires
                        left >= 1,
                ;
            }
            lemma_same_teams(before.rows(), earlier.rows(), fixture.home);
            lemma_same_teams(before.rows(), earlier.rows(), fixture.away);
        }
        match play_fixture(table, &fixture, rng, draw) {
            Ok(score) => {
                scores.push(score);
                proof {
                    assert(earlier.has_room(((fixtures@.len() - index - 1) as nat) + 1));
                    assert forall|i: int| 0 <= i < before.rows().len() implies (
                    #[trigger] table.rows()[i]).team == before.rows()[i].team && table.rows()[i].record@
                        == tally_after(
                        before.rows()[i].team,
                        before.rows()[i].record@,
                        fixtures@,
                        scores@,
                        index + 1,
                    ) by {
                        assert(earlier.rows()[i].team == before.rows()[i].team);
                        lemma_tally_after_prefix(
                            before.rows()[i].team,
                            before.rows()[i].record@,
                            fixtures@,
                            earlier_scores,
                            scores@,
                            index as int,
                        );
                    }
                    assert forall|turn: int| 0 <= turn < index + 1 implies #[trigger] drawn_in_turn(
                        draw,
                        &before,
                        fixtures@,
                        scores@,
                        turn,
                    ) by {
                        if turn < index {
                            assert(drawn_in_turn(draw, &before, fixtures@, earlier_scores, turn));
                            let rows = choose|rows: Seq<TeamEntry>|
                                #[trigger] played_out(
                                    before.rows(),
                                    rows,
                                    fixtures@,
                                    earlier_scores,
                                    turn,
                                ) && drawn_by(
                                    draw,
                                    rates_in(
                                        rows,
                                        before.home_splits(),
                                        before.away_splits(),
                                        fixtures@[turn],
                                    ),
                                    Ok(earlier_scores[turn]),
                                );
                            lemma_played_out_prefix(
                                before.rows(),
                                rows,
                                fixtures@,
                                earlier_scores,
                                scores@,
                                turn,
                            );
                        } else {
                            lemma_played_out_prefix(
                                before.rows(),
                                earlier.rows(),
                                fixtures@,
                                earlier_scores,
                                scores@,
                                index as int,
                            );
                            assert(earlier.rates_for(fixture) == rates_in(
                                earlier.rows(),
                                before.home_splits(),
                                before.away_splits(),
                                fixtures@[turn],
                            ));
                        }
                    }
                }
            },
            Err(cause) => {
                proof {
                    assert(season_of(
                        draw,
                        &before,
                        table.rows(),
                        fixtures@,
                        earlier_scores,
                        index as int,
                    ));
                }
                return Err(SeasonAbort { fixture: index, cause });
            },
        }
        index = index + 1;
    }
    Ok(scores)
}

/// `ranking` ranks the rows that a whole season from `start` left: every side
/// of every fixture has a row, and the fixtures were played in their order,
/// each at a score that `draw` gave for the rates of its moment.
pub open spec fn season_ranked<F: Fn(&MatchRates, &mut ChaCha8Rng) -> Result<Score, ModelError>>(
    draw: &F,
    start: &LeagueTable,
    fixtures: Seq<Fixture>,
    ranking: Seq<TeamEntry>,
) -> bool {
    &&& all_known(start.rows(), fixtures, fixtures.len() as int)
    &&& exists|scores: Seq<Score>, rows: Seq<TeamEntry>|
        #[trigger] season_of(draw, start, rows, fixtures, scores, fixtures.len() as int)
            && is_ranking_of(ranking, rows)
}

/// A season from `start` stops as `abort` says: the fixtures before
/// `abort.fixture` were played, each at a score that `draw` gave; then either
/// a side of that fixture, the home side first, has no row, or `draw` failed
/// for its rates with the error named.
pub open spec fn season_stops<F: Fn(&MatchRates, &mut ChaCha8Rng) -> Result<Score, ModelError>>(
    draw: &F,
    start: &LeagueTable,
    fixtures: Seq<Fixture>,
    abort: SeasonAbort,
) -> bool {
    &&& abort.fixture < fixtures.len()
    &&& all_known(start.rows(), fixtures, abort.fixture as int)
    &&& exists|scores: Seq<Score>, rows: Seq<TeamEntry>|
        {
            &&& #[trigger] season_of(draw, start, rows, fixtures, scores, abort.fixture as int)
            &&& abort.cause matches SimulationError::Model(error) ==> drawn_by(
                draw,
                rates_in(
                    rows,
                    start.home_splits(),
                    start.away_splits(),
                    fixtures[abort.fixture as int],
                ),
                Err(error),
            )
        }
    &&& match abort.cause {
        SimulationError::MissingTeam(team) => team == first_missing(
            start.rows(),
            fixtures[abort.fixture as int],
        ) && !has_team(start.rows(), team),
        SimulationError::Model(_) => has_team(start.rows(), fixtures[abort.fixture as int].home)
            && has_team(start.rows(), fixtures[abort.fixture as int].away),
    }
}

/// Simulates one season from `start`, which is left as it is: plays the
/// fixtures on a copy and ranks the copy.
pub fn simulate_season<F>(
    start: &LeagueTable,
    fixtures: &Vec<Fixture>,
    rng: &mut ChaCha8Rng,
    draw: &F,
) -> (ranked: Result<Vec<TeamEntry>, SeasonAbort>) where
    F: Fn(&MatchRates, &mut ChaCha8Rng) -> Result<Score, ModelError>,

    requires
        start.wf(),
        start.has_room(fixtures@.len()),
        draws_any_rates(draw),
    ensures
        match ranked {
            Ok(ranking) => season_ranked(draw, start, fixtures@, ranking@),
            Err(abort) => season_stops(draw, start, fixtures@, abort),
        },
{
    let mut table = start.duplicate();
    let ghost copy = table;
    match play_season(&mut table, fixtures, rng, draw) {
        Ok(scores) => {
            let ranking = final_ranking(&table);
            proof {
                lemma_season_of_same_start(
                    draw,
                    &copy,
                    start,
                    table.rows(),
                    fixtures@,
                    scores@,
                    fixtures@.len() as int,
                );
                assert(season_of(
                    draw,
                    start,
                    table.rows(),
                    fixtures@,
                    scores@,
                    fixtures@.len() as int,
                ) && is_ranking_of(ranking@, table.rows()));
            }
            Ok(ranking)
        },
        Err(abort) => {
            proof {
                let scores = choose|scores: Seq<Score>| #[trigger]
                    season_of(draw, &copy, table.rows(), fixtures@, scores, abort.fixture as int);
                lemma_season_of_same_start(
                    draw,
                    &copy,
                    start,
                    table.rows(),
                    fixtures@,
                    scores,
                    abort.fixture as int,
                );
                assert(season_of(draw, start, table.rows(), fixtures@, scores, abort.fixture as int));
            }
            Err(abort)
        },
    }
}

/// What holds of a season from one table holds of it from any table with the
/// same rows and splits.
pub proof fn lemma_season_of_same_start<F: Fn(&MatchRates, &mut ChaCha8Rng) -> Result<
    Score,
    ModelError,
>>(
    draw: &F,
    copy: &LeagueTable,
    start: &LeagueTable,
    end: Seq<TeamEntry>,
    fixtures: Seq<Fixture>,
    scores: Seq<Score>,
    played: int,
)
    requires
        copy.rows() == start.rows(),
        copy.home_splits() == start.home_splits(),
        copy.away_splits() == start.away_splits(),
        season_of(draw, copy, end, fixtures, scores, played),
    ensures
        season_of(draw, start, end, fixtures, scores, played),
{
    assert forall|turn: int| 0 <= turn < played implies #[trigger] drawn_in_turn(
        draw,
        start,
        fixtures,
        scores,
        turn,
    ) by {
        assert(drawn_in_turn(draw, copy, fixtures, scores, turn));
    }
}

/// How many sides of `fixture` are `team` and won at `score`.
pub open spec fn wins_in(team: u64, fixture: Fixture, score: Score) -> int {
    (if fixture.home == team && score.home_goals > score.away_goals {
        1int
    } else {
        0int
    }) + (if fixture.away == team && score.away_goals > score.home_goals {
        1int
    } else {
        0int
    })
}

/// How many sides of `fixture` are `team` and drew at `score`.
pub open spec fn draws_in(team: u64, fixture: Fixture, score: Score) -> int {
    (if fixture.home == team && score.home_goals == score.away_goals {
        1int
    } else {
        0int
    }) + (if fixture.away == team && score.home_goals == score.away_goals {
        1int
    } else {
        0int
    })
}

/// How many sides of `fixture` are `team`.
pub open spec fn sides_in(team: u64, fixture: Fixture) -> int {
    (if fixture.home == team {
        1int
    } else {
        0int
    }) + (if fixture.away == team {
        1int
    } else {
        0int
    })
}

/// `team` is a side of `fixture`.
pub open spec fn involves(fixture: Fixture, team: u64) -> bool {
    fixture.home == team || fixture.away == team
}

/// Wins of `team` in the first `played` fixtures.
pub open spec fn wins_of(team: u64, fixtures: Seq<Fixture>, scores: Seq<Score>, played: int) -> int
    decreases played,
{
    if played <= 0 {
        0
    } else {
        wins_of(team, fixtures, scores, played - 1) + wins_in(
            team,
            fixtures[played - 1],
            scores[played - 1],
        )
    }
}

/// Draws of `team` in the first `played` fixtures.
pub open spec fn draws_of(team: u64, fixtures: Seq<Fixture>, scores: Seq<Score>, played: int) -> int
    decreases played,
{
    if played <= 0 {
        0
    } else {
        draws_of(team, fixtures, scores, played - 1) + draws_in(
            team,
            fixtures[played - 1],
            scores[played - 1],
        )
    }
}

/// Sides that `team` takes in the first `played` fixtures.
pub open spec fn sides_of(team: u64, fixtures: Seq<Fixture>, played: int) -> int
    decreases played,
{
    if played <= 0 {
        0
    } else {
        sides_of(team, fixtures, played - 1) + sides_in(team, fixtures[played - 1])
    }
}

/// How many of the first `played` fixtures involve `team`.
pub open spec fn fixtures_involving(team: u64, fixtures: Seq<Fixture>, played: int) -> int
    decreases played,
{
    if played <= 0 {
        0
    } else {
        fixtures_involving(team, fixtures, played - 1) + (if involves(fixtures[played - 1], team) {
            1int
        } else {
            0int
        })
    }
}

/// A season adds to a team's points exactly three for each of its wins and one
/// for each of its draws, and to its matches played one for each side it took;
/// wins and draws are among those matches.
pub proof fn lemma_points_are_wins_and_draws(
    team: u64,
    start: Tally,
    fixtures: Seq<Fixture>,
    scores: Seq<Score>,
    played: int,
)
    ensures
        ({
            let end = tally_after(team, start, fixtures, scores, played);
            let wins = wins_of(team, fixtures, scores, played);
            let draws = draws_of(team, fixtures, scores, played);
            &&& end.points == start.points + 3 * wins + draws
            &&& end.matches_played == start.matches_played + sides_of(team, fixtures, played)
            &&& 0 <= wins
            &&& 0 <= draws
            &&& wins + draws <= sides_of(team, fixtures, played)
        }),
    decreases played,
{
    if played > 0 {
        lemma_points_are_wins_and_draws(team, start, fixtures, scores, played - 1);
    }
}

/// If a team's points were wins and draws among its matches before a season,
/// they are so after it.
pub proof fn lemma_points_stay_explained(
    team: u64,
    start: Tally,
    fixtures: Seq<Fixture>,
    scores: Seq<Score>,
    played: int,
)
    requires
        start.points_explained(),
    ensures
        tally_after(team, start, fixtures, scores, played).points_explained(),
{
    let (wins, draws) = choose|wins: int, draws: int| start.explained_by(wins, draws);
    lemma_points_are_wins_and_draws(team, start, fixtures, scores, played);
    let end = tally_after(team, start, fixtures, scores, played);
    assert(end.explained_by(
        wins + wins_of(team, fixtures, scores, played),
        draws + draws_of(team, fixtures, scores, played),
    ));
}

/// Where no fixture sets a team against itself, a season adds to a team's
/// matches played the number of fixtures that involve it.
pub proof fn lemma_matches_played(
    team: u64,
    start: Tally,
    fixtures: Seq<Fixture>,
    scores: Seq<Score>,
    played: int,
)
    requires
        forall|i: int| 0 <= i < played ==> (#[trigger] fixtures[i]).home != fixtures[i].away,
    ensures
        tally_after(team, start, fixtures, scores, played).matches_played == start.matches_played
            + fixtures_involving(team, fixtures, played),
    decreases played,
{
    if played > 0 {
        lemma_matches_played(team, start, fixtures, scores, played - 1);
        assert(fixtures[played - 1].home != fixtures[played - 1].away);
    }
}

} // verus!
