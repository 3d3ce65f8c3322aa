//! Distributions already made, by the exact parameters they were made for.

use vstd::prelude::*;
use crate::distribution::{made_of, rejection, GridTable, ModelError, ProbabilityDistribution};

verus! {

/// The parameters of a distribution, each as the bit pattern of its 64-bit
/// floating-point value: equal keys mean values equal bit for bit.
#[derive(Clone, Copy, Debug, PartialEq, Eq)]
pub struct CacheKey {
    pub lambda_home: u64,
    pub lambda_away: u64,
    pub rho: u64,
}

/// The order in which keys are kept: by home rate, then away rate, then rho.
pub open spec fn key_before(a: CacheKey, b: CacheKey) -> bool {
    if a.lambda_home != b.lambda_home {
        a.lambda_home < b.lambda_home
    } else if a.lambda_away != b.lambda_away {
        a.lambda_away < b.lambda_away
    } else {
        a.rho < b.rho
    }
}

/// The keys stand in strictly rising order.
pub open spec fn keys_sorted(keys: Seq<CacheKey>) -> bool {
    forall|i: int, j: int| 0 <= i < j < keys.len() ==> key_before(keys[i], keys[j])
}

/// Some index at which `key` stands in `keys`.
pub open spec fn slot_of(keys: Seq<CacheKey>, key: CacheKey) -> int {
    choose|i: int| 0 <= i < keys.len() && keys[i] == key
}

/// Whether `a` is kept before `b`.
fn precedes(a: &CacheKey, b: &CacheKey) -> (before: bool)
    ensures
        before == key_before(*a, *b),
{
    if a.lambda_home != b.lambda_home {
        a.lambda_home < b.lambda_home
    } else if a.lambda_away != b.lambda_away {
        a.lambda_away < b.lambda_away
    } else {
        a.rho < b.rho
    }
}

/// The distributions made so far. An entry, once stored, is never changed or
/// dropped.
#[derive(Debug)]
pub struct DistributionCache {
    keys: Vec<CacheKey>,
    tables: Vec<ProbabilityDistribution>,
}

impl View for DistributionCache {
    type V = Map<CacheKey, GridTable>;

    closed spec fn view(&self) -> Map<CacheKey, GridTable> {
        Map::new(
            |key: CacheKey| self.keys@.contains(key),
            |key: CacheKey| self.tables@[slot_of(self.keys@, key)]@,
        )
    }
}

impl DistributionCache {
    /// Each key has its table, the keys are in order, and every table is well
    /// formed.
    pub closed spec fn wf(&self) -> bool {
        &&& self.keys@.len() == self.tables@.len()
        &&& keys_sorted(self.keys@)
        &&& forall|i: int| 0 <= i < self.tables@.len() ==> (#[trigger] self.tables@[i]).wf()
    }

    /// The number of entries.
    pub closed spec fn size(&self) -> nat {
        self.keys@.len()
    }

    /// A cache without entries.
    pub fn new() -> (cache: DistributionCache)
        ensures
            cache.wf(),
            cache@ == Map::<CacheKey, GridTable>::empty(),
            cache.size() == 0,
    {
        let cache = DistributionCache { keys: Vec::new(), tables: Vec::new() };
        assert(cache@ =~= Map::<CacheKey, GridTable>::empty());
        cache
    }

    /// The number of entries.
    pub fn len(&self) -> (n: usize)
        ensures
            n == self.size(),
    {
        self.keys.len()
    }

    /// Where `key` stands, or where it would have to be put.
    fn find(&self, key: &CacheKey) -> (place: Result<usize, usize>)
        requires
            self.wf(),
        ensures
            match place {
                Ok(index) => index < self.keys@.len() && self.keys@[index as int] == *key,
                Err(index) => {
                    &&& index <= self.keys@.len()
                    &&& !self.keys@.contains(*key)
                    &&& forall|j: int| 0 <= j < index ==> key_before(self.keys@[j], *key)
                    &&& forall|j: int| index <= j < self.keys@.len() ==> key_before(*key, self.keys@[j])
                },
            },
    {
        let mut low: usize = 0;
        let mut high: usize = self.keys.len();
        while low < high
            invariant
                low <= high <= self.keys@.len(),
                keys_sorted(self.keys@),
                forall|j: int| 0 <= j < low ==> key_before(self.keys@[j], *key),
                forall|j: int| high <= j < self.keys@.len() ==> key_before(*key, self.keys@[j]),
            decreases high - low,
        {
            let middle = low + (high - low) / 2;
            let at = self.keys[middle];
            if precedes(&at, key) {
                assert forall|j: int| 0 <= j < middle + 1 implies key_before(
                    self.keys@[j],
                    *key,
                ) by {
                    if j < middle {
                        assert(key_before(self.keys@[j], self.keys@[middle as int]));
                    }
                }
                low = middle + 1;
            } else if precedes(key, &at) {
                assert forall|j: int| middle <= j < self.keys@.len() implies key_before(
                    *key,
                    self.keys@[j],
                ) by {
                    if middle < j {
                        assert(key_before(self.keys@[middle as int], self.keys@[j]));
                    }
                }
                high = middle;
            } else {
                return Ok(middle);
            }
        }
        Err(low)
    }

    /// A copy of the distribution stored for `key`, if there is one.
    pub fn get(&self, key: &CacheKey) -> (found: Option<ProbabilityDistribution>)
        requires
            self.wf(),
        ensures
            match found {
                Some(dist) => self@.contains_key(*key) && dist@ == self@[*key] && dist.wf(),
                None => !self@.contains_key(*key),
            },
    {
        match self.find(key) {
            Ok(index) => {
                proof {
                    self.lemma_slot(index as int);
                }
                Some(self.tables[index].duplicate())
            },
            Err(_) => None,
        }
    }

    /// The distribution for `key`: a copy of the stored one if there is one;
    /// else the one made of the masses that `build` gives for `key` and
    /// `max_goals`, which is stored under `key` before a copy is returned.
    /// Where no distribution can be made of those masses, nothing is stored.
    pub fn get_or_build<B>(&mut self, key: CacheKey, max_goals: u8, build: B) -> (built: Result<
        ProbabilityDistribution,
        ModelError,
    >) where B: FnOnce(&CacheKey, u8) -> Vec<u128>
        requires
            old(self).wf(),
            call_requires(build, (&key, max_goals)),
        ensures
            final(self).wf(),
            old(self)@.submap_of(final(self)@),
            built matches Ok(dist) ==> dist.wf() && final(self)@.contains_key(key) && dist@
                == final(self)@[key],
            old(self)@.contains_key(key) ==> built is Ok && final(self)@ == old(self)@,
            !old(self)@.contains_key(key) ==> exists|masses: Vec<u128>|
                {
                    &&& call_ensures(build, (&key, max_goals), masses)
                    &&& match rejection(masses@, max_goals) {
                        Some(error) => built == Err::<ProbabilityDistribution, ModelError>(error)
                            && final(self)@ == old(self)@,
                        None => built matches Ok(dist) && made_of(dist@, masses@, max_goals)
                            && final(self)@ == old(self)@.insert(key, dist@),
                    }
                },
    {
        match self.find(&key) {
            Ok(index) => {
                proof {
                    self.lemma_slot(index as int);
                }
                Ok(self.tables[index].duplicate())
            },
            Err(index) => {
                let masses = build(&key, max_goals);
                match ProbabilityDistribution::from_masses(&masses, max_goals) {
                    Ok(dist) => {
                        let copy = dist.duplicate();
                        let ghost before = *self;
                        self.keys.insert(index, key);
                        self.tables.insert(index, dist);
                        proof {
                            assert(self.keys@[index as int] == key);
                            assert(keys_sorted(self.keys@)) by {
                                assert forall|i: int, j: int|
                                    0 <= i < j < self.keys@.len() implies key_before(
                                    self.keys@[i],
                                    self.keys@[j],
                                ) by {
                                    let a = if i < index { i } else { i - 1 };
                                    let b = if j < index { j } else { j - 1 };
                                    if i != index && j != index {
                                        assert(key_before(before.keys@[a], before.keys@[b]));
                                    }
                                }
                            }
                            assert forall|i: int| 0 <= i < self.tables@.len() implies (
                            #[trigger] self.tables@[i]).wf() by {
                                if i < index {
                                    assert(before.tables@[i].wf());
                                } else if i > index {
                                    assert(before.tables@[i - 1].wf());
                                }
                            }
                            assert(self@ =~= before@.insert(key, dist@)) by {
                                assert forall|k: CacheKey| self@.contains_key(k) == before@.insert(
                                    key,
                                    dist@,
                                ).contains_key(k) by {
                                    if before.keys@.contains(k) {
                                        let i = before.keys@.index_of(k);
                                        let moved = if i < index { i } else { i + 1 };
                                        assert(self.keys@[moved] == k);
                                    }
                                    if self.keys@.contains(k) && k != key {
                                        let i = self.keys@.index_of(k);
                                        let from = if i < index { i } else { i - 1 };
                                        assert(before.keys@[from] == k);
                                    }
                                }
                                assert forall|k: CacheKey| self@.contains_key(k) implies self@[k]
                                    == before@.insert(key, dist@)[k] by {
                                    let i = slot_of(self.keys@, k);
                                    self.lemma_slot(i);
                                    if k != key {
                                        let from = if i < index { i } else { i - 1 };
                                        assert(before.keys@[from] == k);
                                        before.lemma_slot(from);
                                    } else {
                                        self.lemma_slot(index as int);
                                    }
                                }
                            }
                            self.lemma_slot(index as int);
                            assert(call_ensures(build, (&key, max_goals), masses));
                        }
                        Ok(copy)
                    },
                    Err(error) => {
                        assert(call_ensures(build, (&key, max_goals), masses));
                        Err(error)
                    },
                }
            },
        }
    }

    /// In a well-formed cache each key stands once: its slot is where it is
    /// found, and its table the one stored there.
    proof fn lemma_slot(&self, index: int)
        requires
            self.wf(),
            0 <= index < self.keys@.len(),
        ensures
            self.keys@.contains(self.keys@[index]),
            slot_of(self.keys@, self.keys@[index]) == index,
            self@.contains_key(self.keys@[index]),
            self@[self.keys@[index]] == self.tables@[index]@,
    {
        let key = self.keys@[index];
        let slot = slot_of(self.keys@, key);
        assert(0 <= slot < self.keys@.len() && self.keys@[slot] == key);
        if slot < index {
            assert(key_before(self.keys@[slot], self.keys@[index]));
        } else if index < slot {
            assert(key_before(self.keys@[index], self.keys@[slot]));
        }
    }
}

} // verus!
