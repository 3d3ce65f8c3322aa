//! Drawing the score of a match from the cached distribution of its
//! parameters.

use vstd::prelude::*;
use rand_chacha::ChaCha8Rng;
use crate::cache::{CacheKey, DistributionCache};
use crate::distribution::{
    draw_of,
    first_reaching,
    made_of,
    rejection,
    scoreline_at,
    GridTable,
    ModelError,
};
use crate::record::Score;

verus! {

/// `score` is what some random word draws from `table`.
pub open spec fn drawn_from(table: GridTable, score: Score) -> bool {
    exists|word: u64|
        score == scoreline_at(
            first_reaching(table.cumulative, #[trigger] draw_of(word), 0),
            table.width,
        )
}

/// Draws the score of one match whose parameters are `key`: from the
/// distribution stored for `key`, or, where none is stored yet, from the one
/// made of the masses that `build` gives, which is stored first.
pub fn simulate_match<B>(
    cache: &mut DistributionCache,
    key: CacheKey,
    max_goals: u8,
    rng: &mut ChaCha8Rng,
    build: B,
) -> (drawn: Result<Score, ModelError>) where B: FnOnce(&CacheKey, u8) -> Vec<u128>
    requires
        old(cache).wf(),
        call_requires(build, (&key, max_goals)),
    ensures
        final(cache).wf(),
        old(cache)@.submap_of(final(cache)@),
        drawn matches Ok(score) ==> final(cache)@.contains_key(key) && drawn_from(
            final(cache)@[key],
            score,
        ) && score.home_goals < final(cache)@[key].width && score.away_goals < final(cache)@[key].width,
        old(cache)@.contains_key(key) ==> drawn is Ok && final(cache)@ == old(cache)@,
        !old(cache)@.contains_key(key) ==> exists|masses: Vec<u128>|
            {
                &&& call_ensures(build, (&key, max_goals), masses)
                &&& match rejection(masses@, max_goals) {
                    Some(error) => drawn == Err::<Score, ModelError>(error) && final(cache)@ == old(cache)@,
                    None => drawn is Ok && exists|table: GridTable|
                        made_of(table, masses@, max_goals) && final(cache)@ == old(cache)@.insert(
                            key,
                            table,
                        ),
                }
            },
{
    match cache.get_or_build(key, max_goals, build) {
        Ok(dist) => Ok(dist.sample(rng)),
        Err(error) => Err(error),
    }
}

} // verus!
