//! Eight-queens placement by a genetic algorithm over bitboards.
pub mod attack;
pub mod bb;
pub mod dna;
pub mod queens;
mod rng;
pub mod population;

use vstd::prelude::*;

verus! {

/// The number of candidates of every generation.
pub const POPULATION_COUNT: usize = 500;

/// The mutation probability of a gene, as a fraction: three percent.
pub const MUTATION_RATE_NUM: u32 = 3;

pub const MUTATION_RATE_DEN: u32 = 100;

} // verus!
