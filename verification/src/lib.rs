//! Forecasts the final table of a league season from each team's record so far
//! and the fixtures still to play.
//!
//! Counters, rates and probabilities are integers throughout: a scoring rate is
//! a pair of exact ratios, a probability table is a cumulative table in units of
//! 2^-53, and one random draw is a 53-bit numerator over that same unit.

pub mod aggregate;
pub mod batch;
pub mod cache;
pub mod distribution;
pub mod model;
pub mod ranking;
pub mod rates;
pub mod record;
pub mod rng;
pub mod sampler;
pub mod season;
pub mod table;

