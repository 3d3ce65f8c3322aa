use league_outcome_simulator::distribution::{unit_draw, ModelError, ProbabilityDistribution, MASS_LIMIT, UNIT};
use league_outcome_simulator::model::{joint_masses, LowScoreCorrection, CORRECTION_UNIT};
use league_outcome_simulator::record::Score;
use rand::{Rng, SeedableRng};
use rand_chacha::ChaCha8Rng;

fn table(dist: &ProbabilityDistribution) -> Vec<u64> {
    (0..dist.cells()).map(|index| dist.cumulative_at(index)).collect()
}

#[test]
fn equal_masses_give_equal_steps() {
    let dist = ProbabilityDistribution::from_masses(&vec![1, 1, 1, 1], 1).unwrap();
    assert_eq!(dist.max_goals(), 1);
    assert_eq!(dist.cells(), 4);
    assert_eq!(
        table(&dist),
        vec![2251799813685248, 4503599627370496, 6755399441055744, 9007199254740992]
    );
}

#[test]
fn shares_are_rounded_down() {
    let dist = ProbabilityDistribution::from_masses(&vec![1, 1, 1, 0], 1).unwrap();
    assert_eq!(
        table(&dist),
        vec![3002399751580330, 6004799503160661, 9007199254740992, 9007199254740992]
    );
}

#[test]
fn scale_of_the_masses_does_not_matter() {
    let small = ProbabilityDistribution::from_masses(&vec![3, 0, 5, 7, 11, 0, 0, 2, 1], 2).unwrap();
    let factor: u128 = 1 << 90;
    let large = ProbabilityDistribution::from_masses(
        &vec![3 * factor, 0, 5 * factor, 7 * factor, 11 * factor, 0, 0, 2 * factor, factor],
        2,
    )
    .unwrap();
    assert_eq!(table(&small), table(&large));
    assert_eq!(*table(&small).last().unwrap(), UNIT);
}

#[test]
fn total_mass_is_exactly_one() {
    let masses: Vec<u128> = (0..121).map(|cell| (cell * cell + 1) as u128).collect();
    let dist = ProbabilityDistribution::from_masses(&masses, 10).unwrap();
    let cumulative = table(&dist);
    assert_eq!(cumulative.len(), 121);
    assert_eq!(cumulative[120], UNIT);
    assert_eq!(UNIT, 1u64 << 53);
    assert!(cumulative.windows(2).all(|pair| pair[0] <= pair[1]));
}

#[test]
fn single_cell_grid_holds_everything() {
    let dist = ProbabilityDistribution::from_masses(&vec![5], 0).unwrap();
    assert_eq!(table(&dist), vec![UNIT]);
    assert_eq!(dist.scoreline_for(0), Score { home_goals: 0, away_goals: 0 });
    assert_eq!(dist.scoreline_for(UNIT - 1), Score { home_goals: 0, away_goals: 0 });
}

#[test]
fn wrong_shape_is_refused() {
    assert_eq!(ProbabilityDistribution::from_masses(&vec![1, 1, 1], 1).unwrap_err(), ModelError::Shape);
    assert_eq!(ProbabilityDistribution::from_masses(&vec![], 0).unwrap_err(), ModelError::Shape);
    assert_eq!(ProbabilityDistribution::from_masses(&vec![0; 121], 9).unwrap_err(), ModelError::Shape);
}

#[test]
fn zero_mass_is_refused() {
    assert_eq!(ProbabilityDistribution::from_masses(&vec![0; 121], 10).unwrap_err(), ModelError::ZeroMass);
    assert_eq!(ProbabilityDistribution::from_masses(&vec![0], 0).unwrap_err(), ModelError::ZeroMass);
}

#[test]
fn too_much_mass_is_refused() {
    let half = MASS_LIMIT / 2;
    assert_eq!(
        ProbabilityDistribution::from_masses(&vec![half, half, 0, 0], 1).unwrap_err(),
        ModelError::MassOverflow
    );
    assert_eq!(
        ProbabilityDistribution::from_masses(&vec![u128::MAX, u128::MAX, 1, 1], 1).unwrap_err(),
        ModelError::MassOverflow
    );
    let dist = ProbabilityDistribution::from_masses(&vec![half, half - 1, 0, 0], 1).unwrap();
    assert_eq!(dist.cumulative_at(3), UNIT);
    assert_eq!(dist.cumulative_at(0), 4503599627370496);
}

#[test]
fn locate_finds_the_first_cell_that_reaches_the_draw() {
    let dist = ProbabilityDistribution::from_masses(&vec![1, 1, 1, 1], 1).unwrap();
    assert_eq!(dist.locate(0), 0);
    assert_eq!(dist.locate(2251799813685248), 0);
    assert_eq!(dist.locate(2251799813685249), 1);
    assert_eq!(dist.locate(4503599627370496), 1);
    assert_eq!(dist.locate(6755399441055745), 3);
    assert_eq!(dist.locate(UNIT - 1), 3);
    assert_eq!(dist.locate(UNIT), 3);
    assert_eq!(dist.locate(UNIT + 1), 4);
}

#[test]
fn locate_skips_to_the_first_of_equal_cells() {
    let dist = ProbabilityDistribution::from_masses(&vec![1, 0, 0, 1], 1).unwrap();
    assert_eq!(table(&dist), vec![UNIT / 2, UNIT / 2, UNIT / 2, UNIT]);
    assert_eq!(dist.locate(UNIT / 2), 0);
    assert_eq!(dist.locate(UNIT / 2 + 1), 3);
    let late = ProbabilityDistribution::from_masses(&vec![0, 0, 1, 0], 1).unwrap();
    assert_eq!(late.locate(0), 0);
    assert_eq!(late.locate(1), 2);
}

#[test]
fn decode_reads_rows_as_home_goals() {
    let dist = ProbabilityDistribution::from_masses(&vec![1; 9], 2).unwrap();
    assert_eq!(dist.decode(0), Score { home_goals: 0, away_goals: 0 });
    assert_eq!(dist.decode(2), Score { home_goals: 0, away_goals: 2 });
    assert_eq!(dist.decode(3), Score { home_goals: 1, away_goals: 0 });
    assert_eq!(dist.decode(7), Score { home_goals: 2, away_goals: 1 });
    assert_eq!(dist.decode(9), Score { home_goals: 3, away_goals: 0 });
}

#[test]
fn scoreline_follows_the_draw() {
    let dist = ProbabilityDistribution::from_masses(&vec![0, 1, 0, 0, 0, 0, 0, 0, 3], 2).unwrap();
    assert_eq!(dist.scoreline_for(1), Score { home_goals: 0, away_goals: 1 });
    assert_eq!(dist.scoreline_for(UNIT / 4), Score { home_goals: 0, away_goals: 1 });
    assert_eq!(dist.scoreline_for(UNIT / 4 + 1), Score { home_goals: 2, away_goals: 2 });
    assert_eq!(dist.scoreline_for(UNIT - 1), Score { home_goals: 2, away_goals: 2 });
}

#[test]
fn draw_is_the_high_53_bits() {
    assert_eq!(unit_draw(0), 0);
    assert_eq!(unit_draw(2047), 0);
    assert_eq!(unit_draw(2048), 1);
    assert_eq!(unit_draw(u64::MAX), UNIT - 1);
    assert_eq!(unit_draw(0x8000_0000_0000_0000), UNIT / 2);
}

#[test]
fn sample_is_repeatable_and_stays_on_the_grid() {
    let masses: Vec<u128> = (0..121).map(|cell| (121 - cell) as u128).collect();
    let dist = ProbabilityDistribution::from_masses(&masses, 10).unwrap();
    let mut first = ChaCha8Rng::seed_from_u64(7);
    let mut second = ChaCha8Rng::seed_from_u64(7);
    let mut seen = std::collections::HashSet::new();
    for _ in 0..500 {
        let score = dist.sample(&mut first);
        assert_eq!(score, dist.sample(&mut second));
        assert!(score.home_goals <= 10 && score.away_goals <= 10);
        seen.insert((score.home_goals, score.away_goals));
    }
    assert!(seen.len() > 20);
}

#[test]
fn sample_uses_the_word_that_the_generator_gives() {
    let masses: Vec<u128> = vec![1; 121];
    let dist = ProbabilityDistribution::from_masses(&masses, 10).unwrap();
    let mut sampling = ChaCha8Rng::seed_from_u64(99);
    let mut words = ChaCha8Rng::seed_from_u64(99);
    for _ in 0..200 {
        let word: u64 = words.gen();
        assert_eq!(dist.sample(&mut sampling), dist.scoreline_for(unit_draw(word)));
    }
}

#[test]
fn sample_never_picks_a_cell_without_mass_after_the_first() {
    let dist = ProbabilityDistribution::from_masses(&vec![1, 0, 0, 1], 1).unwrap();
    let mut rng = ChaCha8Rng::seed_from_u64(3);
    let mut nil_nil = 0;
    let mut one_one = 0;
    for _ in 0..2000 {
        let score = dist.sample(&mut rng);
        if score == (Score { home_goals: 0, away_goals: 0 }) {
            nil_nil += 1;
        } else {
            assert_eq!(score, Score { home_goals: 1, away_goals: 1 });
            one_one += 1;
        }
    }
    assert!(nil_nil > 800 && one_one > 800);
}

#[test]
fn copy_holds_the_same_table() {
    let dist = ProbabilityDistribution::from_masses(&vec![4, 3, 2, 1], 1).unwrap();
    let copy = dist.duplicate();
    assert_eq!(table(&dist), table(&copy));
    assert_eq!(copy.max_goals(), 1);
}

#[test]
fn correction_applies_to_the_four_lowest_scorelines_only() {
    let correction = LowScoreCorrection { nil_nil: 1, nil_one: 2, one_nil: 3, one_one: 4 };
    assert_eq!(correction.factor(0, 0), 1);
    assert_eq!(correction.factor(0, 1), 2);
    assert_eq!(correction.factor(1, 0), 3);
    assert_eq!(correction.factor(1, 1), 4);
    assert_eq!(correction.factor(0, 2), CORRECTION_UNIT);
    assert_eq!(correction.factor(2, 0), CORRECTION_UNIT);
    assert_eq!(correction.factor(2, 2), CORRECTION_UNIT);
    assert_eq!(correction.factor(10, 1), CORRECTION_UNIT);
    assert_eq!(CORRECTION_UNIT, 1 << 24);
}

#[test]
fn joint_masses_are_products_row_by_row() {
    let correction = LowScoreCorrection { nil_nil: 2, nil_one: 3, one_nil: 5, one_one: 7 };
    let unit = CORRECTION_UNIT as u128;
    let masses = joint_masses(&vec![10, 20, 30], &vec![1, 2, 4], &correction);
    assert_eq!(
        masses,
        vec![20, 60, 40 * unit, 100, 280, 80 * unit, 30 * unit, 60 * unit, 120 * unit]
    );
}

#[test]
fn joint_masses_take_the_largest_inputs() {
    let top = u32::MAX;
    let correction = LowScoreCorrection { nil_nil: top, nil_one: top, one_nil: top, one_one: top };
    let masses = joint_masses(&vec![top], &vec![top], &correction);
    let cube = (top as u128) * (top as u128) * (top as u128);
    assert_eq!(masses, vec![cube]);
    assert!(joint_masses(&vec![], &vec![1, 2], &correction).is_empty());
    assert!(joint_masses(&vec![1, 2], &vec![], &correction).is_empty());
}

#[test]
fn neutral_correction_gives_the_product_distribution() {
    let home: Vec<u32> = vec![1000, 3000, 2500, 400];
    let away: Vec<u32> = vec![7, 900, 12, 1];
    let joint = joint_masses(&home, &away, &LowScoreCorrection::neutral());
    let mut plain: Vec<u128> = Vec::new();
    for h in &home {
        for a in &away {
            plain.push(*h as u128 * *a as u128);
        }
    }
    let corrected = ProbabilityDistribution::from_masses(&joint, 3).unwrap();
    let product = ProbabilityDistribution::from_masses(&plain, 3).unwrap();
    assert_eq!(table(&corrected), table(&product));
}
