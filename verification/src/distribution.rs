//! A normalized cumulative distribution over a square grid of scorelines, and
//! drawing from it.
//!
//! Probabilities are counted in units of 2^-53, the step of the random draws:
//! a draw is a number below 2^53, and the table's last entry is 2^53.

use vstd::prelude::*;
use vstd::arithmetic::div_mod::{
    lemma_div_by_multiple,
    lemma_div_is_ordered,
    lemma_fundamental_div_mod_converse,
};
use vstd::arithmetic::mul::lemma_mul_inequality;
use rand_chacha::ChaCha8Rng;
use crate::record::Score;
use crate::rng::next_word;

verus! {

/// The cumulative weight of a whole table, and the number of distinct draws.
pub const UNIT: u64 = 0x20_0000_0000_0000;

/// The total mass of a grid must stay below this.
pub const MASS_LIMIT: u128 = 0x8000_0000_0000_0000_0000_0000_0000_0000;

/// Why no distribution could be made of a grid of masses.
#[derive(Clone, Copy, Debug, PartialEq, Eq)]
pub enum ModelError {
    /// The grid does not have one cell for each pair of goal counts.
    Shape,
    /// The cells add up to nothing, so there is nothing to divide by.
    ZeroMass,
    /// The cells add up to `MASS_LIMIT` or more.
    MassOverflow,
}

/// The sum of the first `n` masses.
pub open spec fn prefix_mass(masses: Seq<u128>, n: int) -> int
    decreases n,
{
    if n <= 0 {
        0
    } else {
        prefix_mass(masses, n - 1) + masses[n - 1]
    }
}

/// The sum of all masses.
pub open spec fn total_mass(masses: Seq<u128>) -> int {
    prefix_mass(masses, masses.len() as int)
}

/// The cumulative table of `masses`: at each cell, the share of the total that
/// lies at or before it, in units of 2^-53, rounded down.
pub open spec fn normalized(masses: Seq<u128>) -> Seq<int> {
    Seq::new(masses.len(), |i: int| (prefix_mass(masses, i + 1) * UNIT) / total_mass(masses))
}

/// The first index at or after `start` whose entry reaches `draw`, or the
/// length of `cumulative` where none does.
pub open spec fn first_reaching(cumulative: Seq<u64>, draw: u64, start: int) -> int
    decreases cumulative.len() - start,
{
    if start < 0 || start >= cumulative.len() {
        cumulative.len() as int
    } else if cumulative[start] >= draw {
        start
    } else {
        first_reaching(cumulative, draw, start + 1)
    }
}

/// The scoreline that a cell index stands for on a grid `width` wide: rows are
/// home goals, columns away goals.
pub open spec fn scoreline_at(index: int, width: int) -> Score {
    Score { home_goals: (index / width) as u32, away_goals: (index % width) as u32 }
}

/// The 53 high bits of a random word: the draw it stands for.
pub open spec fn draw_of(word: u64) -> u64 {
    word / 0x800
}

/// A cumulative distribution over the scorelines from 0-0 to `max`-`max`, row
/// by row. It never changes once made.
#[derive(Debug)]
pub struct ProbabilityDistribution {
    cdf: Vec<u64>,
    dim: usize,
}

/// The mathematical value of a [`ProbabilityDistribution`].
pub struct GridTable {
    /// At each cell, the cumulative weight up to and including it.
    pub cumulative: Seq<u64>,
    /// The number of goal counts per side.
    pub width: int,
}

impl View for ProbabilityDistribution {
    type V = GridTable;

    open spec fn view(&self) -> GridTable {
        GridTable { cumulative: self.cumulative(), width: self.width() }
    }
}

/// Why no distribution can be made of `masses` for goals up to `max_goals`, if
/// none can.
pub open spec fn rejection(masses: Seq<u128>, max_goals: u8) -> Option<ModelError> {
    if masses.len() != (max_goals + 1) * (max_goals + 1) {
        Some(ModelError::Shape)
    } else if total_mass(masses) >= MASS_LIMIT {
        Some(ModelError::MassOverflow)
    } else if total_mass(masses) == 0 {
        Some(ModelError::ZeroMass)
    } else {
        None
    }
}

/// `table` is the cumulative table of `masses`, for goals up to `max_goals`.
pub open spec fn made_of(table: GridTable, masses: Seq<u128>, max_goals: u8) -> bool {
    &&& table.width == max_goals + 1
    &&& table.cumulative.len() == masses.len()
    &&& forall|i: int|
        0 <= i < masses.len() ==> #[trigger] table.cumulative[i] == normalized(masses)[i]
}

pub proof fn lemma_prefix_mass_grows(masses: Seq<u128>, m: int, n: int)
    requires
        0 <= m <= n,
    ensures
        0 <= prefix_mass(masses, m) <= prefix_mass(masses, n),
    decreases n,
{
    if m < n {
        lemma_prefix_mass_grows(masses, m, n - 1);
    } else if n > 0 {
        lemma_prefix_mass_grows(masses, m - 1, n - 1);
    }
}

/// The first index that reaches a draw is the one before which no entry
/// reaches it and which itself does.
pub proof fn lemma_first_reaching(cumulative: Seq<u64>, draw: u64, start: int, index: int)
    requires
        0 <= start <= index <= cumulative.len(),
        forall|j: int| start <= j < index ==> cumulative[j] < draw,
        index < cumulative.len() ==> cumulative[index] >= draw,
    ensures
        first_reaching(cumulative, draw, start) == index,
    decreases index - start,
{
    if start < index {
        lemma_first_reaching(cumulative, draw, start + 1, index);
    }
}

spec fn two_to(n: nat) -> int
    decreases n,
{
    if n == 0 {
        1
    } else {
        2 * two_to((n - 1) as nat)
    }
}

/// `part * 2^53 / whole`, rounded down, by long division.
fn share(part: u128, whole: u128) -> (units: u64)
    requires
        0 < whole < MASS_LIMIT,
        part <= whole,
    ensures
        units == (part * UNIT) / (whole as int),
        units <= UNIT,
{
    let mut quotient: u64 = if part == whole { 1 } else { 0 };
    let mut rest: u128 = if part == whole { 0 } else { part };
    let mut bits: u32 = 0;
    let ghost mut scale: int = 1;
    assert(part * 1 == quotient * whole + rest) by (nonlinear_arith)
        requires
            quotient == (if part == whole { 1int } else { 0int }),
            rest == (if part == whole { 0int } else { part as int }),
    ;
    while bits < 53
        invariant
            bits <= 53,
            scale == two_to(bits as nat),
            0 < scale,
            bits < 53 ==> scale <= 0x10_0000_0000_0000,
            part * scale == quotient * whole + rest,
            rest < whole,
            quotient <= scale,
            0 < whole < MASS_LIMIT,
            part <= whole,
        decreases 53 - bits,
    {
        let ghost q0 = quotient as int;
        let ghost r0 = rest as int;
        rest = rest * 2;
        quotient = quotient * 2;
        if rest >= whole {
            rest = rest - whole;
            quotient = quotient + 1;
        }
        bits = bits + 1;
        proof {
            assert(part * (2 * scale) == quotient * whole + rest) by (nonlinear_arith)
                requires
                    part * scale == q0 * whole + r0,
                    (quotient == 2 * q0 && rest == 2 * r0) || (quotient == 2 * q0 + 1 && rest == 2
                        * r0 - whole),
            ;
            scale = 2 * scale;
            assert(quotient <= scale) by (nonlinear_arith)
                requires
                    part * scale == quotient * whole + rest,
                    0 <= rest,
                    0 <= part <= whole,
                    0 < whole,
                    0 < scale,
            ;
            reveal_with_fuel(two_to, 2);
            if bits < 53 {
                assert(two_to(52) == 0x10_0000_0000_0000) by {
                    reveal_with_fuel(two_to, 53);
                }
                lemma_two_to_grows(bits as nat, 52);
            }
        }
    }
    proof {
        assert(two_to(53) == 0x20_0000_0000_0000) by {
            reveal_with_fuel(two_to, 54);
        }
        lemma_fundamental_div_mod_converse(part * UNIT, whole as int, quotient as int, rest as int);
    }
    quotient
}

proof fn lemma_two_to_grows(m: nat, n: nat)
    requires
        m <= n,
    ensures
        0 < two_to(m) <= two_to(n),
    decreases n,
{
    if m < n {
        lemma_two_to_grows(m, (n - 1) as nat);
    } else if n > 0 {
        lemma_two_to_grows((m - 1) as nat, (n - 1) as nat);
    }
}

impl ProbabilityDistribution {
    /// The table: at each cell, the cumulative weight up to and including it.
    pub closed spec fn cumulative(&self) -> Seq<u64> {
        self.cdf@
    }

    /// The number of goal counts per side: one more than the largest.
    pub closed spec fn width(&self) -> int {
        self.dim as int
    }

    /// The table has one cell per scoreline, never falls, and ends at `UNIT`:
    /// the total probability is exactly one.
    pub open spec fn wf(&self) -> bool {
        &&& 1 <= self.width() <= 256
        &&& self.cumulative().len() == self.width() * self.width()
        &&& forall|i: int, j: int|
            0 <= i <= j < self.cumulative().len() ==> self.cumulative()[i] <= self.cumulative()[j]
        &&& self.cumulative().last() == UNIT
    }

    /// Makes the distribution of a grid of masses, given row by row: divides
    /// each running sum by the total. Fails if the grid is not square of side
    /// `max_goals + 1`, if its total is zero, or if its total is too large.
    pub fn from_masses(masses: &Vec<u128>, max_goals: u8) -> (made: Result<
        ProbabilityDistribution,
        ModelError,
    >)
        ensures
            match made {
                Ok(dist) => rejection(masses@, max_goals) is None && dist.wf() && made_of(
                    dist@,
                    masses@,
                    max_goals,
                ),
                Err(error) => rejection(masses@, max_goals) == Some(error),
            },
    {
        let dim: usize = max_goals as usize + 1;
        assert(dim * dim <= 65536) by (nonlinear_arith)
            requires
                dim <= 256,
        ;
        if masses.len() != dim * dim {
            return Err(ModelError::Shape);
        }
        let mut total: u128 = 0;
        let mut index: usize = 0;
        while index < masses.len()
            invariant
                index <= masses.len(),
                masses@.len() == (max_goals + 1) * (max_goals + 1),
                total == prefix_mass(masses@, index as int),
                total < MASS_LIMIT,
            decreases masses.len() - index,
        {
            let mass = masses[index];
            if mass >= MASS_LIMIT - total {
                proof {
                    assert(prefix_mass(masses@, index + 1) == total + mass);
                    lemma_prefix_mass_grows(masses@, index + 1, masses@.len() as int);
                }
                return Err(ModelError::MassOverflow);
            }
            total = total + mass;
            index = index + 1;
        }
        proof {
            lemma_prefix_mass_grows(masses@, 0, masses@.len() as int);
        }
        if total == 0 {
            return Err(ModelError::ZeroMass);
        }
        let mut cdf: Vec<u64> = Vec::new();
        let mut running: u128 = 0;
        let mut index: usize = 0;
        while index < masses.len()
            invariant
                index <= masses.len(),
                masses@.len() == dim * dim,
                1 <= dim <= 256,
                0 < total < MASS_LIMIT,
                total == total_mass(masses@),
                running == prefix_mass(masses@, index as int),
                running <= total,
                cdf@.len() == index,
                forall|i: int| 0 <= i < index ==> #[trigger] cdf@[i] == normalized(masses@)[i],
                forall|i: int| 0 <= i < index ==> #[trigger] cdf@[i] <= UNIT,
            decreases masses.len() - index,
        {
            proof {
                lemma_prefix_mass_grows(masses@, index + 1, masses@.len() as int);
            }
            running = running + masses[index];
            let units = share(running, total);
            cdf.push(units);
            index = index + 1;
        }
        let dist = ProbabilityDistribution { cdf, dim };
        proof {
            assert(dim * dim >= 1) by (nonlinear_arith)
                requires
                    dim >= 1,
            ;
            assert forall|i: int, j: int| 0 <= i <= j < dist.cumulative().len() implies dist.cumulative()[i]
                <= dist.cumulative()[j] by {
                lemma_prefix_mass_grows(masses@, i + 1, j + 1);
                lemma_mul_inequality(
                    prefix_mass(masses@, i + 1),
                    prefix_mass(masses@, j + 1),
                    UNIT as int,
                );
                lemma_div_is_ordered(
                    prefix_mass(masses@, i + 1) * UNIT,
                    prefix_mass(masses@, j + 1) * UNIT,
                    total as int,
                );
                assert(dist.cumulative()[i] == normalized(masses@)[i]);
                assert(dist.cumulative()[j] == normalized(masses@)[j]);
            }
            let last = masses@.len() - 1;
            assert(dist.cumulative()[last] == normalized(masses@)[last]);
            assert((total * UNIT) / (total as int) == UNIT) by {
                lemma_div_by_multiple(UNIT as int, total as int);
                assert(total * UNIT == UNIT * total) by (nonlinear_arith);
            }
        }
        Ok(dist)
    }

    /// The largest number of goals per side that the table covers.
    pub fn max_goals(&self) -> (max: u8)
        requires
            self.wf(),
        ensures
            max == self.width() - 1,
    {
        (self.dim - 1) as u8
    }

    /// The number of cells.
    pub fn cells(&self) -> (n: usize)
        ensures
            n == self@.cumulative.len(),
    {
        self.cdf.len()
    }

    /// The cumulative weight up to and including the cell at `index`.
    pub fn cumulative_at(&self, index: usize) -> (units: u64)
        requires
            index < self@.cumulative.len(),
        ensures
            units == self@.cumulative[index as int],
    {
        self.cdf[index]
    }

    /// A copy of this distribution.
    pub fn duplicate(&self) -> (copy: ProbabilityDistribution)
        ensures
            copy.cumulative() == self.cumulative(),
            copy.width() == self.width(),
    {
        let mut cdf: Vec<u64> = Vec::new();
        let mut index: usize = 0;
        while index < self.cdf.len()
            invariant
                index <= self.cdf.len(),
                cdf@ == self.cdf@.take(index as int),
            decreases self.cdf.len() - index,
        {
            cdf.push(self.cdf[index]);
            index = index + 1;
        }
        ProbabilityDistribution { cdf, dim: self.dim }
    }

    /// The first cell whose cumulative weight reaches `draw`, or the number of
    /// cells where none does, which no draw below `UNIT` can give.
    pub fn locate(&self, draw: u64) -> (index: usize)
        requires
            self.wf(),
        ensures
            index == first_reaching(self.cumulative(), draw, 0),
            index <= self.cumulative().len(),
            draw <= UNIT ==> index < self.cumulative().len(),
    {
        let mut low: usize = 0;
        let mut high: usize = self.cdf.len();
        while low < high
            invariant
                self.wf(),
                low <= high <= self.cdf.len(),
                forall|j: int| 0 <= j < low ==> self.cdf@[j] < draw,
                high < self.cdf.len() ==> self.cdf@[high as int] >= draw,
            decreases high - low,
        {
            let middle = low + (high - low) / 2;
            if self.cdf[middle] < draw {
                low = middle + 1;
            } else {
                high = middle;
            }
        }
        proof {
            lemma_first_reaching(self.cumulative(), draw, 0, low as int);
            assert(self.dim * self.dim >= 1) by (nonlinear_arith)
                requires
                    self.dim >= 1,
            ;
            if draw <= UNIT && low == self.cdf.len() {
                assert(self.cdf@[self.cdf.len() - 1] < draw);
            }
        }
        low
    }

    /// The scoreline of the cell at `index`.
    pub fn decode(&self, index: usize) -> (score: Score)
        requires
            self.wf(),
            index <= self.cumulative().len(),
        ensures
            score == scoreline_at(index as int, self.width()),
            index < self.cumulative().len() ==> score.home_goals < self.width()
                && score.away_goals < self.width(),
    {
        assert(self.dim * self.dim <= 65536) by (nonlinear_arith)
            requires
                self.dim <= 256,
        ;
        let home = index / self.dim;
        let away = index % self.dim;
        proof {
            if index < self.cdf.len() {
                assert(index / self.dim < self.dim) by (nonlinear_arith)
                    requires
                        index < self.dim * self.dim,
                        self.dim > 0,
                ;
            }
        }
        Score { home_goals: home as u32, away_goals: away as u32 }
    }

    /// The scoreline that a draw stands for: that of the first cell whose
    /// cumulative weight reaches it.
    pub fn scoreline_for(&self, draw: u64) -> (score: Score)
        requires
            self.wf(),
        ensures
            score == scoreline_at(first_reaching(self.cumulative(), draw, 0), self.width()),
            draw <= UNIT ==> score.home_goals < self.width() && score.away_goals < self.width(),
    {
        let index = self.locate(draw);
        self.decode(index)
    }

    /// Draws one scoreline: takes one word from `rng`, keeps its 53 high bits as
    /// the draw, and returns the scoreline that the draw stands for.
    pub fn sample(&self, rng: &mut ChaCha8Rng) -> (score: Score)
        requires
            self.wf(),
        ensures
            exists|word: u64|
                score == scoreline_at(
                    first_reaching(self@.cumulative, #[trigger] draw_of(word), 0),
                    self@.width,
                ),
            score.home_goals < self.width(),
            score.away_goals < self.width(),
    {
        let word = next_word(rng);
        let draw = unit_draw(word);
        self.scoreline_for(draw)
    }
}

/// The draw that a random word stands for: its 53 high bits, a number below
/// `UNIT`. Over `UNIT` it is a uniform fraction in [0, 1).
pub fn unit_draw(word: u64) -> (draw: u64)
    ensures
        draw == draw_of(word),
        draw < UNIT,
{
    let draw = word >> 11;
    assert(word >> 11 == word / 0x800 && word >> 11 < 0x20_0000_0000_0000u64) by (bit_vector);
    draw
}

/// The cumulative table of a grid with a total above zero ends at `UNIT`: the
/// probabilities add up to exactly one.
pub proof fn lemma_total_is_one(masses: Seq<u128>)
    requires
        masses.len() > 0,
        total_mass(masses) > 0,
    ensures
        normalized(masses).last() == UNIT,
{
    let total = total_mass(masses);
    lemma_div_by_multiple(UNIT as int, total);
    assert(total * UNIT == UNIT * total) by (nonlinear_arith);
}

/// Rounding down loses nothing that a draw could see: the cumulative weight of
/// a cell reaches `draw` exactly when its running sum, as a share of the
/// total, is at least `draw` over `UNIT`.
pub proof fn lemma_reaches_iff_share(masses: Seq<u128>, index: int, draw: u64)
    requires
        0 <= index < masses.len(),
        total_mass(masses) > 0,
    ensures
        (normalized(masses)[index] >= draw) == (prefix_mass(masses, index + 1) * UNIT >= draw
            * total_mass(masses)),
{
    let total = total_mass(masses);
    let scaled = prefix_mass(masses, index + 1) * UNIT;
    let quotient = scaled / total;
    vstd::arithmetic::div_mod::lemma_fundamental_div_mod(scaled, total);
    vstd::arithmetic::div_mod::lemma_mod_bound(scaled, total);
    assert((quotient >= draw) == (scaled >= draw * total)) by (nonlinear_arith)
        requires
            scaled == total * quotient + scaled % total,
            0 <= scaled % total < total,
            total > 0,
    ;
}

} // verus!
