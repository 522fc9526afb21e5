//! Monte Carlo simulation of the two-dimensional Ising ferromagnet on a
//! periodic square lattice.
//!
//! The library is the engine of the simulation, in integers throughout:
//!
//! - [`grid`] is the mathematical model: a square array of spins, its energy
//!   and magnetization, and what a flip does to them.
//! - [`system`] is the lattice itself, with its neighbour tables and its
//!   random source.
//! - [`update`] holds the two update rules, the single-spin Metropolis flip
//!   and the cluster flip.
//! - [`ensemble`] burns a chain in and accumulates its observables.
//! - [`sweep`] hands out the temperatures of a sweep and checks its sizes.
//! - [`random`] turns raw draws of the generator into sites and fractions.
//! - [`sums`] is the arithmetic of sums over the lattice.
//!
//! Temperatures enter as thresholds, the integer form of the acceptance
//! probabilities, and estimates leave as exact sums; the floating-point
//! arithmetic on either side belongs to the caller.

pub mod ensemble;
pub mod grid;
pub mod random;
pub mod sums;
pub mod sweep;
pub mod system;
pub mod update;
