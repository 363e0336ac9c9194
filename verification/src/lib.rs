//! A discrete-time mass-diffusion simulation on a square grid.
//!
//! A conserved quantity ("mass") spreads across an `N x N` grid of cells,
//! absorbing sites remove a fraction of the mass that reaches them, and the
//! grid is renormalized to unit total mass after every step.  Mass is kept as
//! exact integer weights: the mass of a cell is its weight divided by the sum
//! of all weights, so conservation and normalization are exact theorems here,
//! not floating-point approximations.

pub mod math;
pub mod grid;
pub mod driver;
pub mod sampling;
