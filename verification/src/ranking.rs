//! The final ranking: points, then goal difference, then goals scored, then
//! the smaller team identifier.

use vstd::prelude::*;
use vstd::multiset::group_multiset_axioms;
use vstd::seq_lib::{to_multiset_contains, to_multiset_len, to_multiset_remove, to_multiset_update};
use crate::table::{distinct_teams, LeagueTable, TeamEntry};

verus! {

/// `a` stands above `b`: more points; or as many and a better goal difference;
/// or that equal too and more goals scored; or all three equal and the smaller
/// identifier.
pub open spec fn outranks(a: TeamEntry, b: TeamEntry) -> bool {
    let ta = a.record@;
    let tb = b.record@;
    if ta.points != tb.points {
        ta.points > tb.points
    } else if ta.goal_difference() != tb.goal_difference() {
        ta.goal_difference() > tb.goal_difference()
    } else if ta.goals_for != tb.goals_for {
        ta.goals_for > tb.goals_for
    } else {
        a.team < b.team
    }
}

/// Every row stands above all rows after it.
pub open spec fn is_ranked(rows: Seq<TeamEntry>) -> bool {
    forall|i: int, j: int| 0 <= i < j < rows.len() ==> outranks(rows[i], rows[j])
}

/// `ranked` holds the rows of `rows`, each as often, in ranking order.
pub open spec fn is_ranking_of(ranked: Seq<TeamEntry>, rows: Seq<TeamEntry>) -> bool {
    &&& ranked.to_multiset() == rows.to_multiset()
    &&& ranked.len() == rows.len()
    &&& distinct_teams(ranked)
    &&& is_ranked(ranked)
}

/// Whether `a` stands above `b`.
pub fn stands_above(a: &TeamEntry, b: &TeamEntry) -> (above: bool)
    ensures
        above == outranks(*a, *b),
{
    if a.record.points != b.record.points {
        a.record.points > b.record.points
    } else {
        let left: u128 = a.record.goals_for as u128 + b.record.goals_against as u128;
        let right: u128 = b.record.goals_for as u128 + a.record.goals_against as u128;
        if left != right {
            left > right
        } else if a.record.goals_for != b.record.goals_for {
            a.record.goals_for > b.record.goals_for
        } else {
            a.team < b.team
        }
    }
}

/// No row stands above itself, and of two rows at most one stands above the
/// other.
pub proof fn lemma_outranks_asymmetric(a: TeamEntry, b: TeamEntry)
    ensures
        !outranks(a, a),
        !(outranks(a, b) && outranks(b, a)),
{
}

/// Standing above carries over: above a row that is above a third is above
/// the third.
pub proof fn lemma_outranks_transitive(a: TeamEntry, b: TeamEntry, c: TeamEntry)
    requires
        outranks(a, b),
        outranks(b, c),
    ensures
        outranks(a, c),
{
}

/// Rows of different teams are never tied: one stands above the other.
pub proof fn lemma_outranks_total(a: TeamEntry, b: TeamEntry)
    requires
        a.team != b.team,
    ensures
        outranks(a, b) || outranks(b, a),
{
}

/// The same rows have one ranking only, in whatever order they are given.
pub proof fn lemma_ranking_is_unique(a: Seq<TeamEntry>, b: Seq<TeamEntry>)
    requires
        a.to_multiset() == b.to_multiset(),
        is_ranked(a),
        is_ranked(b),
    ensures
        a == b,
    decreases a.len(),
{
    to_multiset_len(a);
    to_multiset_len(b);
    if a.len() == 0 {
        assert(a =~= b);
    } else {
        assert(a.contains(a[0]));
        to_multiset_contains(a, a[0]);
        to_multiset_contains(b, a[0]);
        let k = choose|k: int| 0 <= k < b.len() && b[k] == a[0];
        assert(b.contains(b[0]));
        to_multiset_contains(b, b[0]);
        to_multiset_contains(a, b[0]);
        let m = choose|m: int| 0 <= m < a.len() && a[m] == b[0];
        if k > 0 {
            assert(outranks(b[0], b[k]));
            if m > 0 {
                assert(outranks(a[0], a[m]));
            }
            lemma_outranks_asymmetric(a[0], b[0]);
        }
        assert(a[0] == b[0]);
        to_multiset_remove(a, 0);
        to_multiset_remove(b, 0);
        assert(a.remove(0) =~= a.drop_first());
        assert(b.remove(0) =~= b.drop_first());
        lemma_ranking_is_unique(a.drop_first(), b.drop_first());
        assert(a =~= b) by {
            assert forall|i: int| 0 <= i < a.len() implies a[i] == b[i] by {
                if i > 0 {
                    assert(a[i] == a.drop_first()[i - 1]);
                    assert(b[i] == b.drop_first()[i - 1]);
                }
            }
        }
    }
}

/// A ranking leaves no ties: of any two places, the earlier stands above the
/// later, and the later not above the earlier.
pub proof fn lemma_ranking_is_strict(ranked: Seq<TeamEntry>, i: int, j: int)
    requires
        is_ranked(ranked),
        0 <= i < j < ranked.len(),
    ensures
        outranks(ranked[i], ranked[j]),
        !outranks(ranked[j], ranked[i]),
        ranked[i] != ranked[j],
{
}

/// The rows of `table` in ranking order.
pub fn final_ranking(table: &LeagueTable) -> (ranked: Vec<TeamEntry>)
    requires
        table.wf(),
    ensures
        is_ranking_of(ranked@, table.rows()),
{
    let mut rows: Vec<TeamEntry> = Vec::new();
    let mut index: usize = 0;
    while index < table.len()
        invariant
            index <= table.rows().len(),
            rows@ == table.rows().take(index as int),
        decreases table.rows().len() - index,
    {
        rows.push(table.row(index));
        index = index + 1;
    }
    assert(rows@ == table.rows());
    sort_rows(&mut rows);
    rows
}

/// Puts `rows` in ranking order, by insertion.
pub fn sort_rows(rows: &mut Vec<TeamEntry>)
    requires
        distinct_teams(old(rows)@),
    ensures
        is_ranking_of(final(rows)@, old(rows)@),
{
    let ghost start = rows@;
    let mut sorted: usize = 0;
    while sorted < rows.len()
        invariant
            sorted <= rows.len(),
            rows@.len() == start.len(),
            rows@.to_multiset() == start.to_multiset(),
            distinct_teams(rows@),
            forall|a: int, b: int| 0 <= a < b < sorted ==> outranks(rows@[a], rows@[b]),
        decreases rows.len() - sorted,
    {
        let mut place: usize = sorted;
        while place > 0 && stands_above(&rows[place], &rows[place - 1])
            invariant
                place <= sorted < rows.len(),
                rows@.len() == start.len(),
                rows@.to_multiset() == start.to_multiset(),
                distinct_teams(rows@),
                forall|a: int, b: int|
                    0 <= a < b <= sorted && a != place && b != place ==> outranks(
                        rows@[a],
                        rows@[b],
                    ),
                forall|b: int| place < b <= sorted ==> outranks(rows@[place as int], rows@[b]),
            decreases place,
        {
            let ghost before = rows@;
            let upper = rows[place - 1];
            let lower = rows[place];
            rows.set(place - 1, lower);
            rows.set(place, upper);
            proof {
                broadcast use {to_multiset_update, group_multiset_axioms};

                let middle = before.update(place - 1, lower);
                assert(rows@ == middle.update(place as int, upper));
                to_multiset_update(before, place - 1, lower);
                to_multiset_update(middle, place as int, upper);
                before.to_multiset_ensures();
                assert(before.contains(upper)) by {
                    assert(before[place - 1] == upper);
                }
                assert(before.contains(lower)) by {
                    assert(before[place as int] == lower);
                }
                assert(rows@.to_multiset() =~= before.to_multiset());
                let moved = rows@[place - 1];
                assert forall|b: int| place - 1 < b <= sorted implies outranks(
                    moved,
                    #[trigger] rows@[b],
                ) by {
                    if b > place {
                        assert(outranks(before[place as int], before[b]));
                    }
                }
                assert forall|a: int, b: int|
                    0 <= a < b <= sorted && a != place - 1 && b != place - 1 implies outranks(
                    rows@[a],
                    rows@[b],
                ) by {
                    if a == place {
                        assert(outranks(before[place - 1], before[b]));
                    } else if b == place {
                        assert(outranks(before[a], before[place - 1]));
                    } else {
                        assert(outranks(before[a], before[b]));
                    }
                }
            }
            place = place - 1;
        }
        proof {
            assert forall|a: int, b: int| 0 <= a < b < sorted + 1 implies outranks(
                rows@[a],
                rows@[b],
            ) by {
                if b == place {
                    lemma_outranks_total(rows@[place as int], rows@[place - 1]);
                    if a < place - 1 {
                        assert(outranks(rows@[a], rows@[place - 1]));
                        lemma_outranks_transitive(rows@[a], rows@[place - 1], rows@[place as int]);
                    }
                }
            }
        }
        sorted = sorted + 1;
    }
}

} // verus!
