//! Many seasons from the same start, counted by final rank.

use vstd::prelude::*;
use vstd::seq_lib::to_multiset_contains;
use rand_chacha::ChaCha8Rng;
use crate::aggregate::{counted, is_order_of, lemma_counted_prefix, no_counts, team_order, RankCountTable, RankCounts};
use crate::distribution::ModelError;
use crate::ranking::is_ranking_of;
use crate::rates::MatchRates;
use crate::record::Score;
use crate::rng::seeded_rng;
use crate::season::{
    draws_any_rates,
    season_of,
    season_ranked,
    season_stops,
    simulate_season,
    SeasonAbort,
};
use crate::table::{Fixture, LeagueTable, TeamEntry};

verus! {

/// A batch that stopped: the index of the season that failed, and how.
#[derive(Clone, Copy, Debug, PartialEq, Eq)]
pub struct BatchAbort {
    pub trial: usize,
    pub abort: SeasonAbort,
}

/// The ranking of a played-out season lists each team of the league once.
pub proof fn lemma_ranking_orders_teams(
    start: Seq<TeamEntry>,
    rows: Seq<TeamEntry>,
    ranked: Seq<TeamEntry>,
)
    requires
        rows.len() == start.len(),
        forall|i: int| 0 <= i < start.len() ==> (#[trigger] rows[i]).team == start[i].team,
        is_ranking_of(ranked, rows),
    ensures
        is_order_of(team_order(ranked), team_order(start)),
{
    let order = team_order(ranked);
    let teams = team_order(start);
    assert forall|rank: int| 0 <= rank < order.len() implies teams.contains(#[trigger] order[rank]) by {
        assert(ranked.contains(ranked[rank]));
        to_multiset_contains(ranked, ranked[rank]);
        to_multiset_contains(rows, ranked[rank]);
        assert(rows.contains(ranked[rank]));
        let i = choose|i: int| 0 <= i < rows.len() && rows[i] == ranked[rank];
        assert(teams[i] == order[rank]);
    }
    assert forall|row: int| 0 <= row < teams.len() implies order.contains(#[trigger] teams[row]) by {
        assert(rows.contains(rows[row]));
        to_multiset_contains(rows, rows[row]);
        to_multiset_contains(ranked, rows[row]);
        assert(ranked.contains(rows[row]));
        let r = choose|r: int| 0 <= r < ranked.len() && ranked[r] == rows[row];
        assert(order[r] == teams[row]);
    }
}

/// `order` lists the teams as some whole season from `start` ranked them.
pub open spec fn is_season_order<F: Fn(&MatchRates, &mut ChaCha8Rng) -> Result<Score, ModelError>>(
    draw: &F,
    start: &LeagueTable,
    fixtures: Seq<Fixture>,
    order: Seq<u64>,
) -> bool {
    exists|ranking: Seq<TeamEntry>|
        #[trigger] season_ranked(draw, start, fixtures, ranking) && order == team_order(ranking)
}

/// `counts` holds the final ranks of `trials` whole seasons from `start`, and
/// nothing else.
pub open spec fn counts_seasons<F: Fn(&MatchRates, &mut ChaCha8Rng) -> Result<Score, ModelError>>(
    draw: &F,
    start: &LeagueTable,
    fixtures: Seq<Fixture>,
    counts: RankCounts,
    trials: int,
) -> bool {
    exists|orders: Seq<Seq<u64>>|
        {
            &&& orders.len() == trials
            &&& forall|trial: int|
                0 <= trial < trials ==> is_season_order(draw, start, fixtures, #[trigger] orders[trial])
            &&& counts == #[trigger] counted(no_counts(team_order(start.rows())), orders, trials)
        }
}

/// Simulates `trials` seasons, each from its own copy of `start` and with its
/// own random source, seeded with `seed` plus the season's index, and counts
/// the final ranks. The first season that fails ends the batch, and nothing
/// counted so far is returned.
pub fn simulate_bulk<F>(
    start: &LeagueTable,
    fixtures: &Vec<Fixture>,
    trials: usize,
    seed: u64,
    draw: &F,
) -> (counted: Result<RankCountTable, BatchAbort>) where
    F: Fn(&MatchRates, &mut ChaCha8Rng) -> Result<Score, ModelError>,

    requires
        start.wf(),
        start.has_room(fixtures@.len()),
        draws_any_rates(draw),
    ensures
        match counted {
            Ok(table) => {
                &&& table@.wf()
                &&& table@.trials == trials
                &&& table@.teams == team_order(start.rows())
                &&& counts_seasons(draw, start, fixtures@, table@, trials as int)
            },
            Err(batch) => batch.trial < trials && season_stops(draw, start, fixtures@, batch.abort),
        },
{
    let mut table = RankCountTable::new(start);
    let ghost zero = table@;
    let ghost mut orders: Seq<Seq<u64>> = Seq::empty();
    let mut trial: usize = 0;
    while trial < trials
        invariant
            trial <= trials,
            start.wf(),
            start.has_room(fixtures@.len()),
            draws_any_rates(draw),
            zero == no_counts(team_order(start.rows())),
            table@.wf(),
            table@.trials == trial,
            table@.teams == team_order(start.rows()),
            orders.len() == trial,
            forall|t: int|
                0 <= t < trial ==> is_season_order(draw, start, fixtures@, #[trigger] orders[t]),
            table@ == counted(zero, orders, trial as int),
        decreases trials - trial,
    {
        let mut rng = seeded_rng(seed.wrapping_add(trial as u64));
        match simulate_season(start, fixtures, &mut rng, draw) {
            Ok(ranked) => {
                proof {
                    let (scores, rows) = choose|scores: Seq<Score>, rows: Seq<TeamEntry>|
                        #[trigger] season_of(
                            draw,
                            start,
                            rows,
                            fixtures@,
                            scores,
                            fixtures@.len() as int,
                        ) && is_ranking_of(ranked@, rows);
                    lemma_ranking_orders_teams(start.rows(), rows, ranked@);
                }
                let ghost earlier = orders;
                table.record(&ranked);
                proof {
                    orders = earlier.push(team_order(ranked@));
                    lemma_counted_prefix(zero, earlier, orders, trial as int);
                    assert(orders[trial as int] == team_order(ranked@));
                    assert(is_season_order(draw, start, fixtures@, orders[trial as int]));
                    assert forall|t: int| 0 <= t < trial + 1 implies is_season_order(
                        draw,
                        start,
                        fixtures@,
                        #[trigger] orders[t],
                    ) by {
                        if t < trial {
                            assert(orders[t] == earlier[t]);
                        }
                    }
                }
            },
            Err(abort) => {
                return Err(BatchAbort { trial, abort });
            },
        }
        trial = trial + 1;
    }
    Ok(table)
}

} // verus!
