//! Monte Carlo solver for ground-state search and thermal sampling of
//! Ising-form binary quadratic models: a parallel-tempering engine with
//! isoenergetic cluster moves and an adaptive temperature-ladder optimizer.
//!
//! All physical quantities (couplings, biases, energies, inverse
//! temperatures) are carried as Q47.16 fixed-point integers so that the
//! numerical behaviour of every routine can be stated and proved exactly.
pub mod clock;
pub mod convert;
pub mod errors;
pub mod fixp;
pub mod graph;
pub mod icm;
pub mod instance;
pub mod ladder;
pub mod params;
pub mod pt;
pub mod results;
pub mod rng;
pub mod runner;
pub mod spins;
pub mod sums;
