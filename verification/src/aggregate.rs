//! How often each team finished at each rank, over many seasons.

use vstd::prelude::*;
use crate::table::{distinct_teams, LeagueTable, TeamEntry};

verus! {

/// The sum of the first `n` entries of `s`.
pub open spec fn sum_to(s: Seq<int>, n: int) -> int
    decreases n,
{
    if n <= 0 {
        0
    } else {
        sum_to(s, n - 1) + s[n - 1]
    }
}

/// The sum of all entries of `s`.
pub open spec fn sum(s: Seq<int>) -> int {
    sum_to(s, s.len() as int)
}

/// The teams of a ranking, from first to last.
pub open spec fn team_order(ranked: Seq<TeamEntry>) -> Seq<u64> {
    Seq::new(ranked.len(), |rank: int| ranked[rank].team)
}

/// `order` lists each of `teams` once and nothing else.
pub open spec fn is_order_of(order: Seq<u64>, teams: Seq<u64>) -> bool {
    &&& order.len() == teams.len()
    &&& order.no_duplicates()
    &&& forall|rank: int| 0 <= rank < order.len() ==> teams.contains(#[trigger] order[rank])
    &&& forall|row: int| 0 <= row < teams.len() ==> order.contains(#[trigger] teams[row])
}

/// The mathematical value of a [`RankCountTable`]: for the team of each row,
/// how often it finished at each rank, and the number of seasons counted.
pub struct RankCounts {
    pub teams: Seq<u64>,
    pub cells: Seq<Seq<int>>,
    pub trials: int,
}

impl RankCounts {
    /// One row per team and one cell per rank in each row.
    pub open spec fn square(self) -> bool {
        &&& self.cells.len() == self.teams.len()
        &&& forall|row: int|
            0 <= row < self.cells.len() ==> (#[trigger] self.cells[row]).len() == self.teams.len()
    }

    /// The counts at `rank`, one per team.
    pub open spec fn column(self, rank: int) -> Seq<int> {
        Seq::new(self.cells.len(), |row: int| self.cells[row][rank])
    }

    /// The table is square, no team has two rows, no count is negative, and
    /// the counts of each team, like the counts at each rank, add up to the
    /// number of seasons counted.
    pub open spec fn wf(self) -> bool {
        &&& self.square()
        &&& self.teams.no_duplicates()
        &&& 0 <= self.trials
        &&& forall|row: int, rank: int|
            0 <= row < self.teams.len() && 0 <= rank < self.teams.len() ==> 0 <= (
            #[trigger] self.cells[row][rank])
        &&& forall|row: int| 0 <= row < self.teams.len() ==> sum(#[trigger] self.cells[row]) == self.trials
        &&& forall|rank: int|
            0 <= rank < self.teams.len() ==> sum(#[trigger] self.column(rank)) == self.trials
    }

    /// The counts after one more season that ended in `order`: one more at
    /// each team's rank.
    pub open spec fn recorded(self, order: Seq<u64>) -> RankCounts {
        RankCounts {
            teams: self.teams,
            cells: Seq::new(
                self.teams.len(),
                |row: int|
                    Seq::new(
                        self.teams.len(),
                        |rank: int|
                            self.cells[row][rank] + (if order[rank] == self.teams[row] {
                                1int
                            } else {
                                0int
                            }),
                    ),
            ),
            trials: self.trials + 1,
        }
    }

    /// The counts of both tables together: cell by cell the sum.
    pub open spec fn merged(self, other: RankCounts) -> RankCounts {
        RankCounts {
            teams: self.teams,
            cells: Seq::new(
                self.teams.len(),
                |row: int|
                    Seq::new(
                        self.teams.len(),
                        |rank: int| self.cells[row][rank] + other.cells[row][rank],
                    ),
            ),
            trials: self.trials + other.trials,
        }
    }
}

/// The counts for `teams` before any season: all zero.
pub open spec fn no_counts(teams: Seq<u64>) -> RankCounts {
    RankCounts {
        teams,
        cells: Seq::new(teams.len(), |row: int| Seq::new(teams.len(), |rank: int| 0int)),
        trials: 0,
    }
}

/// The counts after the first `n` of the seasons that ended in `orders`, one
/// after the other, on top of `start`.
pub open spec fn counted(start: RankCounts, orders: Seq<Seq<u64>>, n: int) -> RankCounts
    decreases n,
{
    if n <= 0 {
        start
    } else {
        counted(start, orders, n - 1).recorded(orders[n - 1])
    }
}

/// What was counted after some seasons depends on those seasons only.
pub proof fn lemma_counted_prefix(
    start: RankCounts,
    orders: Seq<Seq<u64>>,
    longer: Seq<Seq<u64>>,
    n: int,
)
    requires
        n <= orders.len() <= longer.len(),
        forall|i: int| 0 <= i < n ==> orders[i] == longer[i],
    ensures
        counted(start, orders, n) == counted(start, longer, n),
    decreases n,
{
    if n > 0 {
        lemma_counted_prefix(start, orders, longer, n - 1);
    }
}

/// Where each entry of `c` is the sum of those of `a` and `b`, so are the sums.
pub proof fn lemma_sum_pointwise(a: Seq<int>, b: Seq<int>, c: Seq<int>, n: int)
    requires
        0 <= n <= a.len(),
        n <= b.len(),
        n <= c.len(),
        forall|k: int| 0 <= k < n ==> c[k] == a[k] + b[k],
    ensures
        sum_to(c, n) == sum_to(a, n) + sum_to(b, n),
    decreases n,
{
    if n > 0 {
        lemma_sum_pointwise(a, b, c, n - 1);
    }
}

/// No entry of a sequence without negative entries exceeds its sum.
pub proof fn lemma_entry_within_sum(s: Seq<int>, n: int, k: int)
    requires
        0 <= k < n <= s.len(),
        forall|j: int| 0 <= j < s.len() ==> 0 <= s[j],
    ensures
        0 <= s[k] <= sum_to(s, n),
        0 <= sum_to(s, n - 1),
    decreases n,
{
    if k < n - 1 {
        lemma_entry_within_sum(s, n - 1, k);
    } else if n > 1 {
        lemma_entry_within_sum(s, n - 1, n - 2);
    }
}

/// Marks, along `s`, of where `x` stands.
pub open spec fn marks(s: Seq<u64>, x: u64) -> Seq<int> {
    Seq::new(s.len(), |k: int| if s[k] == x { 1int } else { 0int })
}

/// What stands once in a sequence is marked once.
pub proof fn lemma_one_mark(s: Seq<u64>, x: u64, n: int)
    requires
        s.no_duplicates(),
        0 <= n <= s.len(),
    ensures
        sum_to(marks(s, x), n) == (if exists|k: int| 0 <= k < n && s[k] == x {
            1int
        } else {
            0int
        }),
    decreases n,
{
    if n > 0 {
        lemma_one_mark(s, x, n - 1);
        if s[n - 1] == x {
            assert(!(exists|k: int| 0 <= k < n - 1 && s[k] == x));
        } else if exists|k: int| 0 <= k < n && s[k] == x {
            let k = choose|k: int| 0 <= k < n && s[k] == x;
            assert(0 <= k < n - 1 && s[k] == x);
        }
    }
}

/// Counting one more season keeps the table well formed.
pub proof fn lemma_recorded_wf(counts: RankCounts, order: Seq<u64>)
    requires
        counts.wf(),
        is_order_of(order, counts.teams),
    ensures
        counts.recorded(order).wf(),
{
    let next = counts.recorded(order);
    let n = counts.teams.len() as int;
    assert forall|row: int| 0 <= row < n implies sum(#[trigger] next.cells[row]) == next.trials by {
        let x = counts.teams[row];
        lemma_sum_pointwise(counts.cells[row], marks(order, x), next.cells[row], n);
        lemma_one_mark(order, x, n);
        assert(order.contains(x));
        let k = choose|k: int| 0 <= k < order.len() && order[k] == x;
        assert(0 <= k < n && order[k] == x);
    }
    assert forall|rank: int| 0 <= rank < n implies sum(#[trigger] next.column(rank)) == next.trials by {
        let x = order[rank];
        lemma_sum_pointwise(counts.column(rank), marks(counts.teams, x), next.column(rank), n);
        lemma_one_mark(counts.teams, x, n);
        assert(counts.teams.contains(x));
        let k = choose|k: int| 0 <= k < counts.teams.len() && counts.teams[k] == x;
        assert(0 <= k < n && counts.teams[k] == x);
    }
}

/// Two well-formed tables of the same teams merge into a well-formed table.
pub proof fn lemma_merged_wf(a: RankCounts, b: RankCounts)
    requires
        a.wf(),
        b.wf(),
        a.teams == b.teams,
    ensures
        a.merged(b).wf(),
{
    let both = a.merged(b);
    let n = a.teams.len() as int;
    assert forall|row: int| 0 <= row < n implies sum(#[trigger] both.cells[row]) == both.trials by {
        lemma_sum_pointwise(a.cells[row], b.cells[row], both.cells[row], n);
    }
    assert forall|rank: int| 0 <= rank < n implies sum(#[trigger] both.column(rank)) == both.trials by {
        lemma_sum_pointwise(a.column(rank), b.column(rank), both.column(rank), n);
    }
}

/// Merging does not depend on which table comes first.
pub proof fn lemma_merge_commutes(a: RankCounts, b: RankCounts)
    requires
        a.teams == b.teams,
    ensures
        a.merged(b) == b.merged(a),
{
    assert(a.merged(b).cells =~~= b.merged(a).cells);
}

/// Merging three tables does not depend on which two are merged first.
pub proof fn lemma_merge_associates(a: RankCounts, b: RankCounts, c: RankCounts)
    requires
        a.teams == b.teams,
        b.teams == c.teams,
    ensures
        a.merged(b).merged(c) == a.merged(b.merged(c)),
{
    assert(a.merged(b).merged(c).cells =~~= a.merged(b.merged(c)).cells);
}

/// A table in which nothing is counted yet leaves what it is merged with as
/// it was.
pub proof fn lemma_merge_identity(a: RankCounts, zero: RankCounts)
    requires
        a.square(),
        zero.teams == a.teams,
        zero.trials == 0,
        zero.square(),
        forall|row: int, rank: int|
            0 <= row < a.teams.len() && 0 <= rank < a.teams.len() ==> (
            #[trigger] zero.cells[row][rank]) == 0,
    ensures
        a.merged(zero) == a,
        zero.merged(a) == a,
{
    assert(a.merged(zero).cells =~~= a.cells);
    assert(zero.merged(a).cells =~~= a.cells);
}

/// For the team of each row of a league table, how often it finished at each
/// rank.
#[derive(Debug)]
pub struct RankCountTable {
    teams: Vec<u64>,
    counts: Vec<Vec<u64>>,
    trials: u64,
}

impl View for RankCountTable {
    type V = RankCounts;

    closed spec fn view(&self) -> RankCounts {
        RankCounts {
            teams: self.teams@,
            cells: Seq::new(
                self.counts@.len(),
                |row: int|
                    Seq::new(self.counts@[row]@.len(), |rank: int| self.counts@[row]@[rank] as int),
            ),
            trials: self.trials as int,
        }
    }
}

impl RankCountTable {
    /// A table for the teams of `league`, in its row order, with nothing
    /// counted yet.
    pub fn new(league: &LeagueTable) -> (table: RankCountTable)
        requires
            league.wf(),
        ensures
            table@.wf(),
            table@ == no_counts(team_order(league.rows())),
    {
        let size = league.len();
        let mut teams: Vec<u64> = Vec::new();
        let mut row: usize = 0;
        while row < size
            invariant
                row <= size,
                size == league.rows().len(),
                teams@ == team_order(league.rows()).take(row as int),
            decreases size - row,
        {
            teams.push(league.row(row).team);
            row = row + 1;
        }
        let mut counts: Vec<Vec<u64>> = Vec::new();
        let mut row: usize = 0;
        while row < size
            invariant
                row <= size,
                counts@.len() == row,
                forall|i: int| 0 <= i < row ==> (#[trigger] counts@[i])@.len() == size,
                forall|i: int, rank: int|
                    0 <= i < row && 0 <= rank < size ==> (#[trigger] counts@[i]@[rank]) == 0,
            decreases size - row,
        {
            let mut zeros: Vec<u64> = Vec::new();
            let mut rank: usize = 0;
            while rank < size
                invariant
                    rank <= size,
                    zeros@.len() == rank,
                    forall|k: int| 0 <= k < rank ==> zeros@[k] == 0,
                decreases size - rank,
            {
                zeros.push(0);
                rank = rank + 1;
            }
            counts.push(zeros);
            row = row + 1;
        }
        let table = RankCountTable { teams, counts, trials: 0 };
        proof {
            assert(table@.teams == team_order(league.rows()));
            assert(table@.cells =~~= no_counts(team_order(league.rows())).cells);
            assert forall|i: int| 0 <= i < size implies sum(#[trigger] table@.cells[i]) == 0 by {
                lemma_zero_sum(table@.cells[i], size as int);
            }
            assert forall|rank: int| 0 <= rank < size implies sum(#[trigger] table@.column(rank))
                == 0 by {
                lemma_zero_sum(table@.column(rank), size as int);
            }
        }
        table
    }

    /// The number of seasons counted.
    pub fn trials(&self) -> (n: u64)
        ensures
            n == self@.trials,
    {
        self.trials
    }

    /// The number of teams, which is also the number of ranks.
    pub fn len(&self) -> (n: usize)
        ensures
            n == self@.teams.len(),
    {
        self.teams.len()
    }

    /// The team of the row at `row`.
    pub fn team_at(&self, row: usize) -> (team: u64)
        requires
            row < self@.teams.len(),
        ensures
            team == self@.teams[row as int],
    {
        self.teams[row]
    }

    /// How often the team of the row at `row` finished at the place `rank`,
    /// counted from zero for the first place.
    pub fn count_at(&self, row: usize, rank: usize) -> (count: u64)
        requires
            self@.square(),
            row < self@.teams.len(),
            rank < self@.teams.len(),
        ensures
            count == self@.cells[row as int][rank as int],
    {
        assert(self@.cells[row as int].len() == self.counts@[row as int]@.len());
        self.counts[row][rank]
    }

    /// Counts one more season, which ended in the ranking `ranked`.
    pub fn record(&mut self, ranked: &Vec<TeamEntry>)
        requires
            old(self)@.wf(),
            old(self)@.trials < u64::MAX,
            is_order_of(team_order(ranked@), old(self)@.teams),
        ensures
            final(self)@ == old(self)@.recorded(team_order(ranked@)),
            final(self)@.wf(),
    {
        let size = self.teams.len();
        let ghost before = self@;
        let ghost order = team_order(ranked@);
        let mut counts: Vec<Vec<u64>> = Vec::new();
        let mut row: usize = 0;
        while row < size
            invariant
                row <= size,
                size == self.teams@.len(),
                ranked@.len() == size,
                order == team_order(ranked@),
                before == self@,
                before.wf(),
                before.trials < u64::MAX,
                counts@.len() == row,
                forall|i: int| 0 <= i < row ==> (#[trigger] counts@[i])@.len() == size,
                forall|i: int, rank: int|
                    0 <= i < row && 0 <= rank < size ==> (#[trigger] counts@[i]@[rank])
                        == before.recorded(order).cells[i][rank],
            decreases size - row,
        {
            let team = self.teams[row];
            let mut next: Vec<u64> = Vec::new();
            let mut rank: usize = 0;
            while rank < size
                invariant
                    rank <= size,
                    row < size,
                    size == self.teams@.len(),
                    ranked@.len() == size,
                    order == team_order(ranked@),
                    before == self@,
                    before.wf(),
                    before.trials < u64::MAX,
                    team == self.teams@[row as int],
                    next@.len() == rank,
                    forall|k: int|
                        0 <= k < rank ==> (#[trigger] next@[k]) == before.recorded(
                            order,
                        ).cells[row as int][k],
                decreases size - rank,
            {
                assert(before.cells[row as int].len() == self.counts@[row as int]@.len());
                let count = self.counts[row][rank];
                proof {
                    assert(before.cells[row as int].len() == size);
                    assert(count == before.cells[row as int][rank as int]);
                    assert forall|j: int| 0 <= j < size implies 0 <= before.cells[row as int][j] by {
                        assert(0 <= before.cells[row as int][j]);
                    }
                    lemma_entry_within_sum(before.cells[row as int], size as int, rank as int);
                    assert(sum(before.cells[row as int]) == before.trials);
                }
                let bumped = if ranked[rank].team == team {
                    count + 1
                } else {
                    count
                };
                next.push(bumped);
                rank = rank + 1;
            }
            counts.push(next);
            row = row + 1;
        }
        self.counts = counts;
        self.trials = self.trials + 1;
        proof {
            assert(self@.cells =~~= before.recorded(order).cells);
            lemma_recorded_wf(before, order);
        }
    }

    /// Adds the counts of `other`, a table of the same teams.
    pub fn merge(&mut self, other: &RankCountTable)
        requires
            old(self)@.wf(),
            other@.wf(),
            old(self)@.teams == other@.teams,
            old(self)@.trials + other@.trials <= u64::MAX,
        ensures
            final(self)@ == old(self)@.merged(other@),
            final(self)@.wf(),
    {
        let size = self.teams.len();
        let ghost before = self@;
        let ghost added = other@;
        let mut counts: Vec<Vec<u64>> = Vec::new();
        let mut row: usize = 0;
        while row < size
            invariant
                row <= size,
                size == self.teams@.len(),
                before == self@,
                added == other@,
                before.wf(),
                added.wf(),
                before.teams == added.teams,
                before.trials + added.trials <= u64::MAX,
                counts@.len() == row,
                forall|i: int| 0 <= i < row ==> (#[trigger] counts@[i])@.len() == size,
                forall|i: int, rank: int|
                    0 <= i < row && 0 <= rank < size ==> (#[trigger] counts@[i]@[rank])
                        == before.merged(added).cells[i][rank],
            decreases size - row,
        {
            let mut next: Vec<u64> = Vec::new();
            let mut rank: usize = 0;
            while rank < size
                invariant
                    rank <= size,
                    row < size,
                    size == self.teams@.len(),
                    before == self@,
                    added == other@,
                    before.wf(),
                    added.wf(),
                    before.teams == added.teams,
                    before.trials + added.trials <= u64::MAX,
                    next@.len() == rank,
                    forall|k: int|
                        0 <= k < rank ==> (#[trigger] next@[k]) == before.merged(
                            added,
                        ).cells[row as int][k],
                decreases size - rank,
            {
                proof {
                    assert(before.cells[row as int].len() == self.counts@[row as int]@.len());
                    assert(added.cells[row as int].len() == other.counts@[row as int]@.len());
                    assert(before.cells[row as int].len() == size);
                    assert(added.cells[row as int].len() == size);
                    assert forall|j: int| 0 <= j < size implies 0 <= before.cells[row as int][j] by {
                        assert(0 <= before.cells[row as int][j]);
                    }
                    assert forall|j: int| 0 <= j < size implies 0 <= added.cells[row as int][j] by {
                        assert(0 <= added.cells[row as int][j]);
                    }
                    lemma_entry_within_sum(before.cells[row as int], size as int, rank as int);
                    lemma_entry_within_sum(added.cells[row as int], size as int, rank as int);
                    assert(sum(before.cells[row as int]) == before.trials);
                    assert(sum(added.cells[row as int]) == added.trials);
                }
                let mine = self.counts[row][rank];
                let theirs = other.counts[row][rank];
                next.push(mine + theirs);
                rank = rank + 1;
            }
            counts.push(next);
            row = row + 1;
        }
        self.counts = counts;
        self.trials = self.trials + other.trials;
        proof {
            assert(self@.cells =~~= before.merged(added).cells);
            lemma_merged_wf(before, added);
        }
    }
}

/// A sequence of zeros adds up to zero.
pub proof fn lemma_zero_sum(s: Seq<int>, n: int)
    requires
        0 <= n <= s.len(),
        forall|k: int| 0 <= k < n ==> s[k] == 0,
    ensures
        sum_to(s, n) == 0,
    decreases n,
{
    if n > 0 {
        lemma_zero_sum(s, n - 1);
    }
}

} // verus!
