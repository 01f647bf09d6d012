//! Solver for "Lights Out" puzzles by linear algebra over GF(2).
//!
//! A board of lights is stated as a system of linear equations over the
//! field of two elements: one variable for each light, `On` if the light is
//! to be pressed, and one equation for each light, which says that the
//! presses that toggle it leave it lit. The augmented matrix of the system
//! is brought to reduced row-echelon form by Gauss-Jordan elimination, the
//! solved form is read off, and every solution is enumerated.
//!
//! - [`bit`]: the field GF(2).
//! - [`rows`], [`reduction`]: the mathematics of rows and of reduced
//!   matrices.
//! - [`matrix`]: matrices and their elimination.
//! - [`solution`], [`equations`]: assignments, the solved form of a system,
//!   and the enumeration of its solutions.
//! - [`laws`]: what holds of elimination and of the solutions.
//! - [`grid`], [`board`], [`lexing`]: boards of lights, their text, and
//!   their systems.
//! - [`solve`]: from a system to its solutions, and to the one with the
//!   fewest presses.
//! - [`order`], [`text`], [`error`]: ascending lists, decimal numbers,
//!   errors.

pub mod bit;
pub mod board;
pub mod equations;
pub mod error;
pub mod grid;
pub mod laws;
pub mod lexing;
pub mod matrix;
pub mod order;
pub mod reduction;
pub mod rows;
pub mod solution;
pub mod solve;
pub mod text;
