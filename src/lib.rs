//! A generational genetic-algorithm optimizer over binary-encoded chromosomes:
//! codec, roulette-wheel selection with elitist backfill, single-point
//! crossover, per-bit mutation and the evolution loop; beside it, an exact
//! three-point bracket search on a grid.

pub mod candidate;
pub mod codec;
pub mod evolve;
pub mod exhaustive;
mod random;
pub mod select;
pub mod variation;
