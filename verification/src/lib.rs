//! Integer core of a Monte Carlo toolkit: the linear congruential generator
//! that drives every sampler, and the integer rules the samplers follow.

pub mod binary64;
pub mod rng;
pub mod rejection;
pub mod variance;
