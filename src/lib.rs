//! A string-evolution engine: a genetic algorithm that breeds byte strings
//! towards a fixed target by tournament selection, single-point crossover
//! and per-symbol mutation.

pub mod excerpt;
pub mod genetic;
pub mod random;
