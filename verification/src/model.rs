//! The joint grid of scoreline masses: two independent marginals, corrected
//! on the four lowest scorelines.

use vstd::prelude::*;
use vstd::arithmetic::div_mod::{
    lemma_div_multiples_vanish_quotient,
    lemma_fundamental_div_mod_converse,
};
use crate::distribution::{normalized, prefix_mass, total_mass, UNIT};

verus! {

/// The correction factor that changes nothing: one, with 24 binary places.
pub const CORRECTION_UNIT: u32 = 0x100_0000;

/// The factors by which the masses of 0-0, 0-1, 1-0 and 1-1 are corrected, in
/// units of 2^-24. Every other scoreline keeps its mass.
#[derive(Clone, Copy, Debug, PartialEq, Eq)]
pub struct LowScoreCorrection {
    /// For 0-0.
    pub nil_nil: u32,
    /// For no home goal and one away goal.
    pub nil_one: u32,
    /// For one home goal and no away goal.
    pub one_nil: u32,
    /// For 1-1.
    pub one_one: u32,
}

impl LowScoreCorrection {
    /// The factor for the scoreline `home_goals`-`away_goals`.
    pub open spec fn factor_at(self, home_goals: int, away_goals: int) -> int {
        if home_goals == 0 && away_goals == 0 {
            self.nil_nil as int
        } else if home_goals == 0 && away_goals == 1 {
            self.nil_one as int
        } else if home_goals == 1 && away_goals == 0 {
            self.one_nil as int
        } else if home_goals == 1 && away_goals == 1 {
            self.one_one as int
        } else {
            CORRECTION_UNIT as int
        }
    }

    /// All four factors are one.
    pub open spec fn is_neutral(self) -> bool {
        self.nil_nil == CORRECTION_UNIT && self.nil_one == CORRECTION_UNIT && self.one_nil
            == CORRECTION_UNIT && self.one_one == CORRECTION_UNIT
    }

    /// The correction that changes nothing.
    pub fn neutral() -> (correction: LowScoreCorrection)
        ensures
            correction.is_neutral(),
    {
        LowScoreCorrection {
            nil_nil: CORRECTION_UNIT,
            nil_one: CORRECTION_UNIT,
            one_nil: CORRECTION_UNIT,
            one_one: CORRECTION_UNIT,
        }
    }

    /// The factor for the scoreline `home_goals`-`away_goals`.
    pub fn factor(&self, home_goals: usize, away_goals: usize) -> (factor: u32)
        ensures
            factor == self.factor_at(home_goals as int, away_goals as int),
    {
        if home_goals == 0 && away_goals == 0 {
            self.nil_nil
        } else if home_goals == 0 && away_goals == 1 {
            self.nil_one
        } else if home_goals == 1 && away_goals == 0 {
            self.one_nil
        } else if home_goals == 1 && away_goals == 1 {
            self.one_one
        } else {
            CORRECTION_UNIT
        }
    }
}

/// The mass of the scoreline of cell `index`, on a grid with one row per home
/// goal count and one column per away goal count: the product of the two
/// marginal masses and the correction factor.
pub open spec fn joint_mass_at(
    home: Seq<u32>,
    away: Seq<u32>,
    correction: LowScoreCorrection,
    index: int,
) -> int {
    let home_goals = index / (away.len() as int);
    let away_goals = index % (away.len() as int);
    home[home_goals] * away[away_goals] * correction.factor_at(home_goals, away_goals)
}

/// The corrected joint grid, row by row.
pub open spec fn joint_grid(home: Seq<u32>, away: Seq<u32>, correction: LowScoreCorrection) -> Seq<
    u128,
> {
    Seq::new(
        (home.len() * away.len()) as nat,
        |index: int| joint_mass_at(home, away, correction, index) as u128,
    )
}

/// The grid of the two marginals alone: each cell the product of its two
/// marginal masses.
pub open spec fn product_grid(home: Seq<u32>, away: Seq<u32>) -> Seq<u128> {
    Seq::new(
        (home.len() * away.len()) as nat,
        |index: int|
            (home[index / (away.len() as int)] * away[index % (away.len() as int)]) as u128,
    )
}

/// The product of three 32-bit numbers fits in 128 bits.
proof fn lemma_mass_fits(a: u32, b: u32, c: u32)
    ensures
        0 <= a * b * c <= u128::MAX,
        0 <= a * b <= u64::MAX,
{
    assert(0 <= a * b <= 0xffff_ffff * 0xffff_ffff) by (nonlinear_arith)
        requires
            0 <= a <= 0xffff_ffff,
            0 <= b <= 0xffff_ffff,
    ;
    let ab = a * b;
    assert(0 <= ab * c <= (0xffff_ffff * 0xffff_ffff) * 0xffff_ffff) by (nonlinear_arith)
        requires
            0 <= ab <= 0xffff_ffff * 0xffff_ffff,
            0 <= c <= 0xffff_ffff,
    ;
}

/// The joint grid of masses for the marginals `home` and `away`: cell by cell
/// the product of the home side's mass, the away side's mass and the
/// correction factor of the scoreline.
pub fn joint_masses(home: &Vec<u32>, away: &Vec<u32>, correction: &LowScoreCorrection) -> (masses:
    Vec<u128>)
    ensures
        masses@ == joint_grid(home@, away@, *correction),
{
    let mut masses: Vec<u128> = Vec::new();
    let width = away.len();
    let mut home_goals: usize = 0;
    while home_goals < home.len()
        invariant
            home_goals <= home.len(),
            width == away@.len(),
            masses@.len() == home_goals * width,
            forall|i: int|
                0 <= i < masses@.len() ==> #[trigger] masses@[i] == joint_mass_at(
                    home@,
                    away@,
                    *correction,
                    i,
                ) as u128,
        decreases home.len() - home_goals,
    {
        let mut away_goals: usize = 0;
        while away_goals < width
            invariant
                home_goals < home.len(),
                away_goals <= width,
                width == away@.len(),
                masses@.len() == home_goals * width + away_goals,
                forall|i: int|
                    0 <= i < masses@.len() ==> #[trigger] masses@[i] == joint_mass_at(
                        home@,
                        away@,
                        *correction,
                        i,
                    ) as u128,
            decreases width - away_goals,
        {
            let factor = correction.factor(home_goals, away_goals);
            proof {
                lemma_mass_fits(home@[home_goals as int], away@[away_goals as int], factor);
                lemma_fundamental_div_mod_converse(
                    home_goals * width + away_goals,
                    width as int,
                    home_goals as int,
                    away_goals as int,
                );
            }
            let pair: u64 = home[home_goals] as u64 * away[away_goals] as u64;
            let mass: u128 = pair as u128 * factor as u128;
            masses.push(mass);
            away_goals = away_goals + 1;
        }
        proof {
            assert(home_goals * width + width == (home_goals + 1) * width) by (nonlinear_arith);
        }
        home_goals = home_goals + 1;
    }
    proof {
        assert(masses@.len() == home@.len() * away@.len());
        assert(masses@ =~= joint_grid(home@, away@, *correction));
    }
    masses
}

/// Where every mass of `scaled` is `factor` times that of `masses`, so is
/// every running sum.
pub proof fn lemma_prefix_mass_scales(masses: Seq<u128>, scaled: Seq<u128>, factor: int, n: int)
    requires
        masses.len() == scaled.len(),
        0 <= n <= masses.len(),
        forall|i: int| 0 <= i < masses.len() ==> scaled[i] == factor * masses[i],
    ensures
        prefix_mass(scaled, n) == factor * prefix_mass(masses, n),
    decreases n,
{
    if n > 0 {
        lemma_prefix_mass_scales(masses, scaled, factor, n - 1);
        assert(factor * prefix_mass(masses, n - 1) + factor * masses[n - 1] == factor * (prefix_mass(
            masses,
            n - 1,
        ) + masses[n - 1])) by (nonlinear_arith);
    }
}

/// Multiplying every mass by the same factor changes no cumulative share.
pub proof fn lemma_normalized_scales(masses: Seq<u128>, scaled: Seq<u128>, factor: int)
    requires
        masses.len() == scaled.len(),
        factor > 0,
        total_mass(masses) > 0,
        forall|i: int| 0 <= i < masses.len() ==> scaled[i] == factor * masses[i],
    ensures
        normalized(scaled) == normalized(masses),
{
    let total = total_mass(masses);
    lemma_prefix_mass_scales(masses, scaled, factor, masses.len() as int);
    assert forall|i: int| 0 <= i < masses.len() implies normalized(scaled)[i] == normalized(
        masses,
    )[i] by {
        lemma_prefix_mass_scales(masses, scaled, factor, i + 1);
        let part = prefix_mass(masses, i + 1);
        crate::distribution::lemma_prefix_mass_grows(masses, 0, i + 1);
        assert(0 <= part * UNIT) by (nonlinear_arith)
            requires
                0 <= part,
        ;
        lemma_div_multiples_vanish_quotient(factor, part * UNIT, total);
        assert((factor * part) * UNIT == factor * (part * UNIT)) by (nonlinear_arith);
    }
    assert(normalized(scaled) =~= normalized(masses));
}

/// With the correction that changes nothing, the joint grid has the same
/// cumulative shares as the plain product of the two marginals.
pub proof fn lemma_neutral_correction(home: Seq<u32>, away: Seq<u32>, correction: LowScoreCorrection)
    requires
        correction.is_neutral(),
        total_mass(product_grid(home, away)) > 0,
    ensures
        normalized(joint_grid(home, away, correction)) == normalized(product_grid(home, away)),
{
    let plain = product_grid(home, away);
    let joint = joint_grid(home, away, correction);
    assert forall|i: int| 0 <= i < plain.len() implies joint[i] == CORRECTION_UNIT * plain[i] by {
        let h = i / (away.len() as int);
        let a = i % (away.len() as int);
        lemma_mass_fits(home[h], away[a], CORRECTION_UNIT);
        assert(home[h] * away[a] * CORRECTION_UNIT == CORRECTION_UNIT * (home[h] * away[a]))
            by (nonlinear_arith);
    }
    lemma_normalized_scales(plain, joint, CORRECTION_UNIT as int);
}

} // verus!
