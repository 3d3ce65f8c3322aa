use league_outcome_simulator::aggregate::RankCountTable;
use league_outcome_simulator::batch::{simulate_bulk, BatchAbort};
use league_outcome_simulator::cache::{CacheKey, DistributionCache};
use league_outcome_simulator::distribution::ModelError;
use league_outcome_simulator::model::{joint_masses, LowScoreCorrection};
use league_outcome_simulator::rates::{ExpectedGoals, MatchRates};
use league_outcome_simulator::record::{Score, TeamRecord};
use league_outcome_simulator::season::{play_season, SeasonAbort, SimulationError};
use league_outcome_simulator::table::{Fixture, LeagueTable, TeamEntry};
use rand::{Rng, SeedableRng};
use rand_chacha::ChaCha8Rng;
use std::cell::RefCell;

fn record(points: u64, goals_for: u64, goals_against: u64, matches_played: u64) -> TeamRecord {
    TeamRecord { points, goals_for, goals_against, matches_played }
}

fn league(teams: u64) -> LeagueTable {
    let mut table = LeagueTable::new();
    for team in 1..=teams {
        table.insert(team * 10, record(0, 0, 0, 0));
    }
    table
}

fn round_robin(teams: u64) -> Vec<Fixture> {
    let mut fixtures = Vec::new();
    for home in 1..=teams {
        for away in 1..=teams {
            if home != away {
                fixtures.push(Fixture { home: home * 10, away: away * 10 });
            }
        }
    }
    fixtures
}

fn ranking(teams: &[u64]) -> Vec<TeamEntry> {
    teams.iter().map(|team| TeamEntry { team: *team, record: record(0, 0, 0, 0) }).collect()
}

fn rows(table: &RankCountTable) -> Vec<Vec<u64>> {
    (0..table.len())
        .map(|row| (0..table.len()).map(|rank| table.count_at(row, rank)).collect())
        .collect()
}

fn by_chance(_: &MatchRates, rng: &mut ChaCha8Rng) -> Result<Score, ModelError> {
    Ok(Score { home_goals: rng.gen_range(0..4), away_goals: rng.gen_range(0..4) })
}

fn home_wins(_: &MatchRates, _: &mut ChaCha8Rng) -> Result<Score, ModelError> {
    Ok(Score { home_goals: 1, away_goals: 0 })
}

fn never(_: &MatchRates, _: &mut ChaCha8Rng) -> Result<Score, ModelError> {
    Err(ModelError::Shape)
}

fn lambda(goals: &ExpectedGoals) -> f64 {
    let overall = goals.overall.goals as f64 / goals.overall.matches as f64;
    let venue = goals.venue.goals as f64 / goals.venue.matches as f64;
    let mean = (overall + venue) / 2.0;
    if goals.home_side {
        mean * 1.25
    } else {
        mean
    }
}

fn poisson_pmf(k: i64, lambda: f64) -> f64 {
    if lambda <= 0.0 || k < 0 {
        return 0.0;
    }
    let log_factorial: f64 = (1..=k).map(|i| (i as f64).ln()).sum();
    (-lambda + k as f64 * lambda.ln() - log_factorial).exp()
}

fn marginal(lambda: f64, max_goals: u8) -> Vec<u32> {
    (0..=max_goals as i64).map(|k| (poisson_pmf(k, lambda) * 4294967296.0) as u32).collect()
}

fn correction(lambda_home: f64, lambda_away: f64, rho: f64) -> LowScoreCorrection {
    let units = |tau: f64| (tau * 16777216.0) as u32;
    LowScoreCorrection {
        nil_nil: units(1.0 - lambda_home * lambda_away * rho),
        nil_one: units(1.0 + lambda_home * rho),
        one_nil: units(1.0 + lambda_away * rho),
        one_one: units(1.0 - rho),
    }
}

fn masses(lambda_home: f64, lambda_away: f64, rho: f64, max_goals: u8) -> Vec<u128> {
    joint_masses(
        &marginal(lambda_home, max_goals),
        &marginal(lambda_away, max_goals),
        &correction(lambda_home, lambda_away, rho),
    )
}

#[test]
fn new_table_counts_nothing() {
    let table = RankCountTable::new(&league(3));
    assert_eq!(table.trials(), 0);
    assert_eq!(table.len(), 3);
    assert_eq!((table.team_at(0), table.team_at(1), table.team_at(2)), (10, 20, 30));
    assert_eq!(rows(&table), vec![vec![0, 0, 0]; 3]);
    assert_eq!(RankCountTable::new(&LeagueTable::new()).len(), 0);
}

#[test]
fn record_counts_each_team_at_its_rank() {
    let mut table = RankCountTable::new(&league(3));
    table.record(&ranking(&[30, 10, 20]));
    table.record(&ranking(&[30, 20, 10]));
    table.record(&ranking(&[10, 20, 30]));
    assert_eq!(table.trials(), 3);
    assert_eq!(rows(&table), vec![vec![1, 1, 1], vec![0, 2, 1], vec![2, 0, 1]]);
}

#[test]
fn merge_adds_cell_by_cell() {
    let mut a = RankCountTable::new(&league(2));
    let mut b = RankCountTable::new(&league(2));
    a.record(&ranking(&[10, 20]));
    a.record(&ranking(&[20, 10]));
    b.record(&ranking(&[20, 10]));
    a.merge(&b);
    assert_eq!(a.trials(), 3);
    assert_eq!(rows(&a), vec![vec![1, 2], vec![2, 1]]);
    assert_eq!(b.trials(), 1);
    assert_eq!(rows(&b), vec![vec![0, 1], vec![1, 0]]);
}

#[test]
fn merge_does_not_depend_on_the_order() {
    let orders: [[u64; 3]; 6] =
        [[10, 20, 30], [10, 30, 20], [20, 10, 30], [20, 30, 10], [30, 10, 20], [30, 20, 10]];
    let part = |picks: &[usize]| {
        let mut table = RankCountTable::new(&league(3));
        for pick in picks {
            table.record(&ranking(&orders[*pick]));
        }
        table
    };
    let parts = [vec![0, 1, 1, 5], vec![2], vec![], vec![3, 4, 4, 4, 0]];
    let mut forward = RankCountTable::new(&league(3));
    for picks in parts.iter() {
        forward.merge(&part(picks));
    }
    let mut backward = RankCountTable::new(&league(3));
    for picks in parts.iter().rev() {
        backward.merge(&part(picks));
    }
    let mut nested = part(&parts[2]);
    nested.merge(&part(&parts[3]));
    let mut left = part(&parts[0]);
    left.merge(&part(&parts[1]));
    left.merge(&nested);
    let all: Vec<usize> = parts.iter().flatten().copied().collect();
    let whole = part(&all);
    assert_eq!(rows(&forward), rows(&whole));
    assert_eq!(rows(&backward), rows(&whole));
    assert_eq!(rows(&left), rows(&whole));
    assert_eq!((forward.trials(), backward.trials(), left.trials()), (10, 10, 10));
    assert_eq!(rows(&whole), vec![vec![4, 4, 2], vec![2, 3, 5], vec![4, 3, 3]]);
}

#[test]
fn bulk_counts_add_up_by_team_and_by_rank() {
    let start = league(6);
    let fixtures = round_robin(6);
    let table = simulate_bulk(&start, &fixtures, 300, 2024, &by_chance).unwrap();
    assert_eq!(table.trials(), 300);
    assert_eq!(table.len(), 6);
    let counts = rows(&table);
    for row in 0..6 {
        assert_eq!(table.team_at(row), (row as u64 + 1) * 10);
        assert_eq!(counts[row].iter().sum::<u64>(), 300);
    }
    for rank in 0..6 {
        assert_eq!(counts.iter().map(|row| row[rank]).sum::<u64>(), 300);
    }
    assert!(counts.iter().all(|row| row.iter().filter(|count| **count > 0).count() > 1));
    assert_eq!(start.record_of(10), Some(record(0, 0, 0, 0)));
}

#[test]
fn bulk_with_a_fixed_outcome_puts_every_team_at_one_rank() {
    let fixtures = vec![Fixture { home: 20, away: 10 }, Fixture { home: 30, away: 10 }, Fixture { home: 20, away: 30 }];
    let table = simulate_bulk(&league(3), &fixtures, 25, 1, &home_wins).unwrap();
    assert_eq!(rows(&table), vec![vec![0, 0, 25], vec![25, 0, 0], vec![0, 25, 0]]);
}

#[test]
fn bulk_is_repeatable_for_a_seed_and_seeds_each_season_apart() {
    let start = league(5);
    let fixtures = round_robin(5);
    let a = simulate_bulk(&start, &fixtures, 40, 7, &by_chance).unwrap();
    let b = simulate_bulk(&start, &fixtures, 40, 7, &by_chance).unwrap();
    assert_eq!(rows(&a), rows(&b));
    let mut parts = simulate_bulk(&start, &fixtures, 15, 7, &by_chance).unwrap();
    parts.merge(&simulate_bulk(&start, &fixtures, 25, 22, &by_chance).unwrap());
    assert_eq!(rows(&parts), rows(&a));
    let wrapped = simulate_bulk(&start, &fixtures, 3, u64::MAX, &by_chance).unwrap();
    let mut pieces = simulate_bulk(&start, &fixtures, 1, u64::MAX, &by_chance).unwrap();
    pieces.merge(&simulate_bulk(&start, &fixtures, 2, 0, &by_chance).unwrap());
    assert_eq!(rows(&wrapped), rows(&pieces));
    let first = simulate_bulk(&start, &fixtures, 1, 7, &by_chance).unwrap();
    let mut table = start.duplicate();
    play_season(&mut table, &fixtures, &mut ChaCha8Rng::seed_from_u64(7), &by_chance).unwrap();
    let mut best = table.row(0);
    for row in 1..table.len() {
        if league_outcome_simulator::ranking::stands_above(&table.row(row), &best) {
            best = table.row(row);
        }
    }
    let winner = (0..5).find(|row| first.count_at(*row, 0) == 1).unwrap();
    assert_eq!(first.team_at(winner), best.team);
}

#[test]
fn bulk_without_trials_counts_nothing() {
    let fixtures = vec![Fixture { home: 10, away: 99 }];
    let table = simulate_bulk(&league(2), &fixtures, 0, 0, &never).unwrap();
    assert_eq!(table.trials(), 0);
    assert_eq!(rows(&table), vec![vec![0, 0]; 2]);
}

#[test]
fn bulk_stops_at_the_first_failed_season() {
    let fixtures = vec![Fixture { home: 10, away: 20 }, Fixture { home: 10, away: 99 }];
    let failed = simulate_bulk(&league(2), &fixtures, 5, 0, &home_wins).unwrap_err();
    assert_eq!(
        failed,
        BatchAbort { trial: 0, abort: SeasonAbort { fixture: 1, cause: SimulationError::MissingTeam(99) } }
    );
    let calls = RefCell::new(0);
    let draw = |_: &MatchRates, _: &mut ChaCha8Rng| -> Result<Score, ModelError> {
        *calls.borrow_mut() += 1;
        if *calls.borrow() == 8 {
            Err(ModelError::ZeroMass)
        } else {
            Ok(Score { home_goals: 0, away_goals: 0 })
        }
    };
    let failed = bulk(&league(2), &round_robin(2), 10, &draw).unwrap_err();
    assert_eq!(
        failed,
        BatchAbort {
            trial: 3,
            abort: SeasonAbort { fixture: 1, cause: SimulationError::Model(ModelError::ZeroMass) }
        }
    );
}

fn bulk<F>(
    start: &LeagueTable,
    fixtures: &Vec<Fixture>,
    trials: usize,
    draw: &F,
) -> Result<RankCountTable, BatchAbort>
where
    F: Fn(&MatchRates, &mut ChaCha8Rng) -> Result<Score, ModelError>,
{
    simulate_bulk(start, fixtures, trials, 0, draw)
}

fn sampler<'a>(
    cache: &'a RefCell<DistributionCache>,
) -> impl Fn(&MatchRates, &mut ChaCha8Rng) -> Result<Score, ModelError> + 'a {
    move |rates: &MatchRates, rng: &mut ChaCha8Rng| {
        assert!(rates.home.is_positive() && rates.away.is_positive());
        let (home, away, rho) = (lambda(&rates.home), lambda(&rates.away), -0.1f64);
        let key = CacheKey { lambda_home: home.to_bits(), lambda_away: away.to_bits(), rho: rho.to_bits() };
        let dist = cache.borrow_mut().get_or_build(key, 10, |_, max_goals| masses(home, away, rho, max_goals))?;
        Ok(dist.sample(rng))
    }
}

#[test]
fn two_team_league_end_to_end() {
    let mut table = LeagueTable::new();
    table.insert(1, record(3, 2, 1, 1));
    table.insert(2, record(0, 1, 2, 1));
    let fixtures = vec![Fixture { home: 1, away: 2 }];
    let cache = RefCell::new(DistributionCache::new());
    let draw = sampler(&cache);
    let mut rng = ChaCha8Rng::seed_from_u64(42);
    let scores = play_season(&mut table, &fixtures, &mut rng, &draw).unwrap();
    assert_eq!(cache.borrow().len(), 1);
    let key = CacheKey { lambda_home: 2.5f64.to_bits(), lambda_away: 1.0f64.to_bits(), rho: (-0.1f64).to_bits() };
    assert!(cache.borrow().get(&key).is_some());
    assert_eq!(scores, vec![Score { home_goals: 3, away_goals: 1 }]);
    assert_eq!(table.record_of(1), Some(record(6, 5, 2, 2)));
    assert_eq!(table.record_of(2), Some(record(0, 2, 5, 2)));
}

#[test]
fn dixon_coles_distribution_has_the_expected_shares() {
    let cache = RefCell::new(DistributionCache::new());
    let key = CacheKey { lambda_home: 2.5f64.to_bits(), lambda_away: 1.0f64.to_bits(), rho: (-0.1f64).to_bits() };
    let dist = cache.borrow_mut().get_or_build(key, 10, |_, max_goals| masses(2.5, 1.0, -0.1, max_goals)).unwrap();
    assert_eq!(dist.cells(), 121);
    assert_eq!(dist.cumulative_at(120), 1u64 << 53);
    let mut exact = vec![0.0f64; 121];
    let mut total = 0.0;
    for h in 0..11i64 {
        for a in 0..11i64 {
            let tau = match (h, a) {
                (0, 0) => 1.0 + 2.5 * 0.1,
                (0, 1) => 1.0 - 2.5 * 0.1,
                (1, 0) => 1.0 - 0.1,
                (1, 1) => 1.0 + 0.1,
                _ => 1.0,
            };
            exact[(h * 11 + a) as usize] = poisson_pmf(h, 2.5) * poisson_pmf(a, 1.0) * tau;
            total += exact[(h * 11 + a) as usize];
        }
    }
    let mut running = 0.0;
    for cell in 0..121 {
        running += exact[cell] / total;
        let share = dist.cumulative_at(cell) as f64 / (1u64 << 53) as f64;
        assert!((share - running).abs() < 1e-7, "cell {}: {} against {}", cell, share, running);
    }
}
